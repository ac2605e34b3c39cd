//! A small compiler toolkit: a lexer driven by a table of regular
//! expressions, a memoising recursive-descent parser driven by a table of
//! rules, a template-based code generator and an evaluator of p-code.
use vstd::prelude::*;

pub mod text;
pub mod pattern;
pub mod lex;
pub mod p_code;
pub mod parser;
pub mod compiler;
pub mod trying;

use vstd::utf8::{decode_utf8, encode_utf8, is_char_boundary};
use vstd::string::StringSliceAdditionalSpecFns;
use crate::text::{chars_of, line_col_of, prefix_chars, lemma_encode_len_ge};

verus! {

/// Line and column (both counted from 1) of the byte offset `idx` in `text`.
/// A column counts characters, a line starts after each `'\n'`.
pub fn line_col(text: String, idx: usize) -> (r: (usize, usize))
    requires
        idx < usize::MAX,
        vstd::utf8::is_char_boundary(vstd::utf8::encode_utf8(text@), idx as int),
    ensures
        r.0 as int == line_col_of(prefix_chars(text@, idx as int)).0,
        r.1 as int == line_col_of(prefix_chars(text@, idx as int)).1,
{
    broadcast use vstd::utf8::group_utf8_lib;
    let (pre, _rest) = text.as_str().split_at(idx);
    let cs = chars_of(pre);
    proof {
        vstd::utf8::encode_utf8_decode_utf8(pre@);
        lemma_encode_len_ge(pre@);
        assert(idx <= encode_utf8(text@).len());
        assert(pre.spec_bytes().len() == idx);
        assert(cs@ == prefix_chars(text@, idx as int));
    }
    let mut line: usize = 1;
    let mut col: usize = 1;
    let mut i: usize = 0;
    while i < cs.len()
        invariant
            0 <= i <= cs@.len(),
            cs@.len() <= idx,
            idx < usize::MAX,
            1 <= line <= i + 1,
            1 <= col <= i + 1,
            (line as int, col as int) == line_col_of(cs@.take(i as int)),
        decreases cs@.len() - i,
    {
        assert(cs@.take(i + 1).drop_last() == cs@.take(i as int));
        if cs[i] == '\n' {
            line = line + 1;
            col = 1;
        } else {
            col = col + 1;
        }
        i = i + 1;
    }
    assert(cs@.take(i as int) == cs@);
    (line, col)
}

/// Whether position `a` comes before position `b`: on an earlier line, or
/// on the same line in an earlier column.
pub open spec fn before(a: (int, int), b: (int, int)) -> bool {
    a.0 < b.0 || (a.0 == b.0 && a.1 < b.1)
}

/// Reading more characters moves the position forward.
pub proof fn lemma_line_col_of_grows(a: Seq<char>, m: Seq<char>)
    requires
        m.len() > 0,
    ensures
        before(line_col_of(a), line_col_of(a + m)),
    decreases m.len(),
{
    assert((a + m).drop_last() =~= a + m.drop_last());
    if m.len() > 1 {
        lemma_line_col_of_grows(a, m.drop_last());
    } else {
        assert(a + m.drop_last() =~= a);
    }
}

/// A later character boundary of the text has a later line and column.
pub proof fn lemma_line_col_monotone(text: Seq<char>, i: int, j: int)
    requires
        0 <= i < j <= encode_utf8(text).len(),
        is_char_boundary(encode_utf8(text), i),
        is_char_boundary(encode_utf8(text), j),
    ensures
        before(line_col_of(prefix_chars(text, i)), line_col_of(prefix_chars(text, j))),
{
    broadcast use vstd::utf8::group_utf8_lib;
    let b = encode_utf8(text);
    let p = b.subrange(0, j);
    vstd::utf8::encode_utf8_valid_utf8(text);
    vstd::utf8::valid_utf8_split(b, j);
    vstd::utf8::is_char_boundary_iff_not_is_continuation_byte(b, i);
    vstd::utf8::is_char_boundary_iff_not_is_continuation_byte(p, i);
    assert(p[i] == b[i]);
    assert(is_char_boundary(p, i));
    vstd::utf8::decode_utf8_split(p, i);
    vstd::utf8::valid_utf8_split(p, i);
    assert(p.subrange(0, i) =~= b.subrange(0, i));
    let m = p.subrange(i, j);
    assert(p.subrange(i, p.len() as int) == m);
    vstd::utf8::decode_utf8_encode_utf8(m);
    assert(decode_utf8(m).len() > 0) by {
        if decode_utf8(m).len() == 0 {
            assert(decode_utf8(m) =~= Seq::<char>::empty());
            assert(encode_utf8(Seq::<char>::empty()) =~= Seq::<u8>::empty());
        }
    }
    lemma_line_col_of_grows(prefix_chars(text, i), decode_utf8(m));
}

/// The line and column of `idx` depend only on the bytes before `idx`:
/// the text cut at `idx` and continued by anything gives the same.
pub proof fn lemma_line_col_prefix_only(text: Seq<char>, idx: int, suffix: Seq<char>)
    requires
        0 <= idx <= encode_utf8(text).len(),
        is_char_boundary(encode_utf8(text), idx),
    ensures
        line_col_of(prefix_chars(prefix_chars(text, idx) + suffix, idx)) == line_col_of(prefix_chars(text, idx)),
{
    broadcast use vstd::utf8::group_utf8_lib;
    let b = encode_utf8(text);
    let pre = b.subrange(0, idx);
    vstd::utf8::encode_utf8_valid_utf8(text);
    vstd::utf8::valid_utf8_split(b, idx);
    vstd::utf8::decode_utf8_encode_utf8(pre);
    crate::text::lemma_encode_concat(prefix_chars(text, idx), suffix);
    assert((pre + encode_utf8(suffix)).subrange(0, idx) =~= pre);
}

/// The line is one more than the number of `'\n'` characters read, and the
/// column is one more than the number of characters read since the last
/// `'\n'` (or since the start): no other character starts a line.
pub proof fn lemma_line_col_counts(cs: Seq<char>)
    ensures
        line_col_of(cs).0 == 1 + cs.filter(|c: char| c == '\n').len(),
        (forall|k: int| 0 <= k < cs.len() ==> cs[k] != '\n') ==> line_col_of(cs).1 == cs.len() + 1,
        forall|j: int|
            0 <= j < cs.len() && cs[j] == '\n' && (forall|k: int| j < k < cs.len() ==> cs[k] != '\n')
                ==> line_col_of(cs).1 == cs.len() - j,
    decreases cs.len(),
{
    reveal(Seq::filter);
    if cs.len() > 0 {
        let init = cs.drop_last();
        lemma_line_col_counts(init);
        assert forall|j: int|
            0 <= j < cs.len() && cs[j] == '\n' && (forall|k: int| j < k < cs.len() ==> cs[k] != '\n') implies line_col_of(
            cs,
        ).1 == cs.len() - j by {
            if j < cs.len() - 1 {
                assert(init[j] == cs[j]);
                assert forall|k: int| j < k < init.len() implies init[k] != '\n' by {
                    assert(init[k] == cs[k]);
                }
            }
        }
        if forall|k: int| 0 <= k < cs.len() ==> cs[k] != '\n' {
            assert forall|k: int| 0 <= k < init.len() implies init[k] != '\n' by {
                assert(init[k] == cs[k]);
            }
        }
    }
}

/// The start of any text is line 1, column 1.
pub proof fn lemma_line_col_start(text: Seq<char>)
    ensures
        line_col_of(prefix_chars(text, 0)) == (1int, 1int),
{
    assert(encode_utf8(text).subrange(0, 0) =~= Seq::<u8>::empty());
}

} // verus!

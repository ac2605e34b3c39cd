//! Character and byte views of strings, and the conversions between them.
use vstd::prelude::*;
use vstd::utf8::*;
use vstd::string::StringSliceAdditionalSpecFns;
use vstd::string::StringExecFns;

verus! {

/// The characters of the UTF-8 prefix of `text` that ends at byte `idx`.
pub open spec fn prefix_chars(text: Seq<char>, idx: int) -> Seq<char> {
    decode_utf8(encode_utf8(text).subrange(0, idx))
}

/// Line and column reached after reading `cs` from line 1, column 1.
pub open spec fn line_col_of(cs: Seq<char>) -> (int, int)
    decreases cs.len(),
{
    if cs.len() == 0 {
        (1, 1)
    } else {
        let (l, c) = line_col_of(cs.drop_last());
        if cs.last() == '\n' {
            (l + 1, 1)
        } else {
            (l, c + 1)
        }
    }
}

/// Every character takes at least one byte.
pub proof fn lemma_encode_len_ge(cs: Seq<char>)
    ensures
        encode_utf8(cs).len() >= cs.len(),
    decreases cs.len(),
{
    if cs.len() > 0 {
        lemma_encode_len_ge(cs.drop_first());
    }
}

/// The encoding of a concatenation is the concatenation of the encodings.
pub proof fn lemma_encode_concat(a: Seq<char>, b: Seq<char>)
    ensures
        encode_utf8(a + b) == encode_utf8(a) + encode_utf8(b),
    decreases a.len(),
{
    if a.len() == 0 {
        assert(a + b == b);
    } else {
        lemma_encode_concat(a.drop_first(), b);
        assert((a + b).drop_first() == a.drop_first() + b);
        assert((a + b)[0] == a[0]);
    }
}

/// `n` space characters.
pub open spec fn spaces(n: nat) -> Seq<char> {
    Seq::new(n, |i: int| ' ')
}

/// `n` space bytes.
pub open spec fn space_bytes(n: nat) -> Seq<u8> {
    Seq::new(n, |i: int| 32u8)
}

pub proof fn lemma_encode_spaces(n: nat)
    ensures
        encode_utf8(spaces(n)) == space_bytes(n),
{
    assert(is_ascii_chars(spaces(n)));
    is_ascii_chars_encode_utf8(spaces(n));
    assert(encode_utf8(spaces(n)) =~= space_bytes(n));
}

/// Boundaries of a valid encoding are decided by the byte found there.
pub proof fn lemma_boundary_by_byte(a: Seq<u8>, b: Seq<u8>, i: int)
    requires
        valid_utf8(a),
        valid_utf8(b),
        0 <= i <= a.len(),
        a.len() == b.len(),
        i < a.len() ==> a[i] == b[i],
        is_char_boundary(a, i),
    ensures
        is_char_boundary(b, i),
{
    if i < a.len() {
        is_char_boundary_iff_not_is_continuation_byte(a, i);
        is_char_boundary_iff_not_is_continuation_byte(b, i);
    } else {
        is_char_boundary_start_end_of_seq(b);
    }
}

/// The part of `s` between the byte offsets `start` and `end`.
pub fn substring_bytes(s: &str, start: usize, end: usize) -> (r: String)
    requires
        start <= end <= s.spec_bytes().len(),
        is_char_boundary(s.spec_bytes(), start as int),
        is_char_boundary(s.spec_bytes(), end as int),
    ensures
        r@ == decode_utf8(s.spec_bytes().subrange(start as int, end as int)),
        encode_utf8(r@) == s.spec_bytes().subrange(start as int, end as int),
{
    broadcast use group_utf8_lib;
    let ghost bytes = s.spec_bytes();
    let (_head, tail) = s.split_at(start);
    proof {
        let t = bytes.subrange(start as int, bytes.len() as int);
        assert(tail.spec_bytes() == t);
        if end < bytes.len() {
            is_char_boundary_iff_not_is_continuation_byte(bytes, end as int);
            is_char_boundary_iff_not_is_continuation_byte(t, end - start);
        } else {
            is_char_boundary_start_end_of_seq(t);
        }
    }
    let (mid, _rest) = tail.split_at(end - start);
    let r = mid.to_owned();
    proof {
        assert(mid.spec_bytes() =~= bytes.subrange(start as int, end as int));
        encode_utf8_decode_utf8(r@);
    }
    r
}

/// `s` with the bytes from `start` to `end` replaced by spaces.
pub fn blank_range(s: &String, start: usize, end: usize) -> (r: String)
    requires
        start <= end <= encode_utf8(s@).len(),
        is_char_boundary(encode_utf8(s@), start as int),
        is_char_boundary(encode_utf8(s@), end as int),
    ensures
        encode_utf8(r@) == encode_utf8(s@).subrange(0, start as int) + space_bytes((end - start) as nat)
            + encode_utf8(s@).subrange(end as int, encode_utf8(s@).len() as int),
{
    broadcast use group_utf8_lib;
    let ghost bytes = encode_utf8(s@);
    let (head, tail) = s.as_str().split_at(start);
    proof {
        let t = bytes.subrange(start as int, bytes.len() as int);
        assert(tail.spec_bytes() == t);
        if end < bytes.len() {
            is_char_boundary_iff_not_is_continuation_byte(bytes, end as int);
            is_char_boundary_iff_not_is_continuation_byte(t, end - start);
        } else {
            is_char_boundary_start_end_of_seq(t);
        }
    }
    let (_mid, rest) = tail.split_at(end - start);
    let mut r = head.to_owned();
    let mut k: usize = start;
    while k < end
        invariant
            start <= k <= end,
            r@ == head@ + spaces((k - start) as nat),
        decreases end - k,
    {
        proof {
            reveal_strlit(" ");
        }
        r.append(" ");
        assert(spaces((k + 1 - start) as nat) =~= spaces((k - start) as nat) + " "@);
        k = k + 1;
    }
    r.append(rest);
    proof {
        lemma_encode_concat(head@ + spaces((end - start) as nat), rest@);
        lemma_encode_concat(head@, spaces((end - start) as nat));
        lemma_encode_spaces((end - start) as nat);
        assert(rest.spec_bytes() =~= bytes.subrange(end as int, bytes.len() as int));
    }
    r
}

/// The decimal digit `d`.
pub open spec fn digit(d: nat) -> char {
    ((d + 48) as u32) as char
}

/// The decimal representation of `n`, without leading zeros.
pub open spec fn decimal(n: nat) -> Seq<char>
    decreases n,
{
    if n < 10 {
        seq![digit(n)]
    } else {
        decimal(n / 10).push(digit(n % 10))
    }
}

fn decimal_chars(n: usize) -> (r: Vec<char>)
    ensures
        r@ == decimal(n as nat),
    decreases n,
{
    let d = (n % 10) as u8;
    let c = (d + 48) as char;
    assert(c == digit((n % 10) as nat));
    if n < 10 {
        let mut r = Vec::new();
        r.push(c);
        r
    } else {
        let mut r = decimal_chars(n / 10);
        r.push(c);
        r
    }
}

/// The decimal representation of `n`.
pub fn decimal_string(n: usize) -> (r: String)
    ensures
        r@ == decimal(n as nat),
{
    let cs = decimal_chars(n);
    string_from_chars(&cs)
}

/// The one-character string of `c`: std's `ToString::to_string` on a
/// `char`, documented to give the character itself as a `String`.
#[verifier::external_body]
fn char_string(c: char) -> (r: String)
    ensures
        r@ == seq![c],
{
    c.to_string()
}

/// The string of the characters `cs`, in order.
pub fn string_from_chars(cs: &Vec<char>) -> (r: String)
    ensures
        r@ == cs@,
{
    let mut r = String::new();
    let mut i: usize = 0;
    while i < cs.len()
        invariant
            0 <= i <= cs@.len(),
            r@ == cs@.take(i as int),
        decreases cs@.len() - i,
    {
        let one = char_string(cs[i]);
        r.append(one.as_str());
        assert(cs@.take(i + 1) =~= cs@.take(i as int) + seq![cs@[i as int]]);
        i = i + 1;
    }
    assert(cs@.take(i as int) =~= cs@);
    r
}

/// Byte-wise lexicographic order, the order of `String` and `str`.
pub open spec fn bytes_lt(a: Seq<u8>, b: Seq<u8>) -> bool
    decreases a.len(),
{
    if a.len() == 0 {
        b.len() > 0
    } else if b.len() == 0 {
        false
    } else if a[0] != b[0] {
        a[0] < b[0]
    } else {
        bytes_lt(a.drop_first(), b.drop_first())
    }
}

/// The order of strings, on their characters.
pub open spec fn text_lt(a: Seq<char>, b: Seq<char>) -> bool {
    bytes_lt(encode_utf8(a), encode_utf8(b))
}

/// The order is a strict total order.
pub proof fn lemma_bytes_lt_order(a: Seq<u8>, b: Seq<u8>, c: Seq<u8>)
    ensures
        !bytes_lt(a, a),
        bytes_lt(a, b) ==> !bytes_lt(b, a),
        a != b ==> bytes_lt(a, b) || bytes_lt(b, a),
        bytes_lt(a, b) && bytes_lt(b, c) ==> bytes_lt(a, c),
{
    lemma_bytes_lt_irrefl(a);
    lemma_bytes_lt_asym(a, b);
    lemma_bytes_lt_total(a, b);
    lemma_bytes_lt_trans(a, b, c);
}

proof fn lemma_bytes_lt_irrefl(a: Seq<u8>)
    ensures
        !bytes_lt(a, a),
    decreases a.len(),
{
    if a.len() > 0 {
        lemma_bytes_lt_irrefl(a.drop_first());
    }
}

proof fn lemma_bytes_lt_asym(a: Seq<u8>, b: Seq<u8>)
    ensures
        bytes_lt(a, b) ==> !bytes_lt(b, a),
    decreases a.len(),
{
    if a.len() > 0 && b.len() > 0 {
        lemma_bytes_lt_asym(a.drop_first(), b.drop_first());
    }
}

proof fn lemma_bytes_lt_total(a: Seq<u8>, b: Seq<u8>)
    ensures
        a != b ==> bytes_lt(a, b) || bytes_lt(b, a),
    decreases a.len(),
{
    if a.len() > 0 && b.len() > 0 {
        lemma_bytes_lt_total(a.drop_first(), b.drop_first());
        if a[0] == b[0] && a.drop_first() == b.drop_first() {
            assert(a =~= seq![a[0]] + a.drop_first());
            assert(b =~= seq![b[0]] + b.drop_first());
        }
    } else if a.len() == 0 && b.len() == 0 {
        assert(a =~= b);
    }
}

proof fn lemma_bytes_lt_trans(a: Seq<u8>, b: Seq<u8>, c: Seq<u8>)
    ensures
        bytes_lt(a, b) && bytes_lt(b, c) ==> bytes_lt(a, c),
    decreases a.len(),
{
    if a.len() > 0 && b.len() > 0 && c.len() > 0 {
        lemma_bytes_lt_trans(a.drop_first(), b.drop_first(), c.drop_first());
    }
}

/// The order of strings is a strict total order.
pub proof fn lemma_text_lt_order(a: Seq<char>, b: Seq<char>, c: Seq<char>)
    ensures
        !text_lt(a, a),
        text_lt(a, b) ==> !text_lt(b, a),
        a != b ==> text_lt(a, b) || text_lt(b, a),
        text_lt(a, b) && text_lt(b, c) ==> text_lt(a, c),
{
    lemma_bytes_lt_order(encode_utf8(a), encode_utf8(b), encode_utf8(c));
    if a != b && encode_utf8(a) == encode_utf8(b) {
        encode_utf8_decode_utf8(a);
        encode_utf8_decode_utf8(b);
    }
}

/// Whether `a` comes before `b` in the order of strings.
pub fn str_lt(a: &str, b: &str) -> (r: bool)
    ensures
        r == bytes_lt(a.spec_bytes(), b.spec_bytes()),
{
    let ab = a.as_bytes();
    let bb = b.as_bytes();
    let ghost x = a.spec_bytes();
    let ghost y = b.spec_bytes();
    let mut i: usize = 0;
    assert(x.skip(0) =~= x);
    assert(y.skip(0) =~= y);
    while i < ab.len() && i < bb.len() && ab[i] == bb[i]
        invariant
            ab@ == x,
            bb@ == y,
            0 <= i <= x.len(),
            i <= y.len(),
            bytes_lt(x, y) == bytes_lt(x.skip(i as int), y.skip(i as int)),
        decreases x.len() - i,
    {
        assert(x.skip(i as int).drop_first() =~= x.skip(i + 1));
        assert(y.skip(i as int).drop_first() =~= y.skip(i + 1));
        i = i + 1;
    }
    if i == ab.len() {
        i < bb.len()
    } else if i == bb.len() {
        false
    } else {
        ab[i] < bb[i]
    }
}

/// White space as the regular-expression class `\s` has it (Unicode
/// `White_Space`): tab, line feed, vertical tab, form feed, carriage
/// return, space, U+0085, U+00A0, U+1680, U+2000 to U+200A, U+2028, U+2029,
/// U+202F, U+205F and U+3000.
pub open spec fn is_white(c: char) -> bool {
    let u = c as u32;
    ||| 9 <= u <= 13
    ||| u == 32
    ||| u == 0x85
    ||| u == 0xA0
    ||| u == 0x1680
    ||| 0x2000 <= u <= 0x200A
    ||| u == 0x2028
    ||| u == 0x2029
    ||| u == 0x202F
    ||| u == 0x205F
    ||| u == 0x3000
}

/// Whether `c` is white space (see [`is_white`]).
pub fn is_white_char(c: char) -> (r: bool)
    ensures
        r == is_white(c),
{
    let u = c as u32;
    (9 <= u && u <= 13) || u == 32 || u == 0x85 || u == 0xA0 || u == 0x1680 || (0x2000 <= u && u <= 0x200A)
        || u == 0x2028 || u == 0x2029 || u == 0x202F || u == 0x205F || u == 0x3000
}

/// The byte offset of the `i`-th character of `cs`.
pub open spec fn byte_at(cs: Seq<char>, i: int) -> int {
    encode_utf8(cs.take(i)).len() as int
}

/// The byte offset of each character is a character boundary.
pub proof fn lemma_byte_at_boundary(cs: Seq<char>, i: int)
    requires
        0 <= i <= cs.len(),
    ensures
        is_char_boundary(encode_utf8(cs), byte_at(cs, i)),
    decreases i,
{
    encode_utf8_valid_utf8(cs);
    if i > 0 {
        let rest = cs.drop_first();
        encode_utf8_first_scalar(cs);
        assert(pop_first_scalar(encode_utf8(cs)) =~= encode_utf8(rest));
        lemma_byte_at_boundary(rest, i - 1);
        assert(cs.take(i) =~= seq![cs[0]] + rest.take(i - 1));
        lemma_encode_concat(seq![cs[0]], rest.take(i - 1));
        assert(seq![cs[0]].drop_first() =~= Seq::<char>::empty());
        assert(encode_utf8(seq![cs[0]]) =~= encode_scalar(cs[0] as u32) + encode_utf8(Seq::<char>::empty()));
    }
}

/// Byte offsets grow with the character index.
pub proof fn lemma_byte_at_step(cs: Seq<char>, i: int)
    requires
        0 <= i < cs.len(),
    ensures
        encode_utf8(cs.take(i + 1)) == encode_utf8(cs.take(i)) + encode_utf8(seq![cs[i]]),
        byte_at(cs, i) < byte_at(cs, i + 1) <= encode_utf8(cs).len(),
{
    assert(cs.take(i + 1) =~= cs.take(i) + seq![cs[i]]);
    lemma_encode_concat(cs.take(i), seq![cs[i]]);
    lemma_encode_len_ge(seq![cs[i]]);
    assert(cs =~= cs.take(i + 1) + cs.skip(i + 1));
    lemma_encode_concat(cs.take(i + 1), cs.skip(i + 1));
}

/// The runs of characters that are not white space in `cs` from character
/// `i` on, as byte ranges; `open` is where the run being read began.
pub open spec fn runs_from(cs: Seq<char>, i: int, open: Option<int>) -> Seq<(usize, usize)>
    decreases cs.len() - i,
{
    if i >= cs.len() {
        match open {
            Some(st) => seq![(byte_at(cs, st) as usize, byte_at(cs, cs.len() as int) as usize)],
            None => seq![],
        }
    } else if is_white(cs[i]) {
        match open {
            Some(st) => seq![(byte_at(cs, st) as usize, byte_at(cs, i) as usize)] + runs_from(cs, i + 1, None),
            None => runs_from(cs, i + 1, None),
        }
    } else {
        match open {
            Some(st) => runs_from(cs, i + 1, Some(st)),
            None => runs_from(cs, i + 1, Some(i)),
        }
    }
}

/// The maximal runs of characters of `cs` that are not white space, as
/// byte ranges, in order.
pub open spec fn nonwhite_runs(cs: Seq<char>) -> Seq<(usize, usize)> {
    runs_from(cs, 0, None)
}

proof fn lemma_runs_from_empty(cs: Seq<char>, i: int, open: Option<int>)
    requires
        0 <= i <= cs.len(),
    ensures
        runs_from(cs, i, open).len() == 0 <==> open is None && forall|j: int| i <= j < cs.len() ==> is_white(
            #[trigger] cs[j],
        ),
    decreases cs.len() - i,
{
    if i < cs.len() {
        if is_white(cs[i]) {
            lemma_runs_from_empty(cs, i + 1, None);
        } else {
            match open {
                Some(st) => lemma_runs_from_empty(cs, i + 1, Some(st)),
                None => lemma_runs_from_empty(cs, i + 1, Some(i)),
            }
        }
    }
}

/// There is no run of characters that are not white space exactly when
/// every character is white space: tab, line feed, vertical tab, form feed,
/// carriage return, space, U+0085, U+00A0, U+1680, U+2000 to U+200A,
/// U+2028, U+2029, U+202F, U+205F or U+3000.
pub proof fn lemma_no_runs_iff_white(cs: Seq<char>)
    ensures
        nonwhite_runs(cs).len() == 0 <==> forall|j: int|
            0 <= j < cs.len() ==> {
                let u = #[trigger] cs[j] as u32;
                ||| 9 <= u <= 13
                ||| u == 32
                ||| u == 0x85
                ||| u == 0xA0
                ||| u == 0x1680
                ||| 0x2000 <= u <= 0x200A
                ||| u == 0x2028
                ||| u == 0x2029
                ||| u == 0x202F
                ||| u == 0x205F
                ||| u == 0x3000
            },
{
    lemma_runs_from_empty(cs, 0, None);
}

/// The maximal runs of `s` that are not white space, as byte ranges (what
/// the regular expression `([^\s]+)` finds).
pub fn nonwhite_spans(s: &String) -> (r: Vec<(usize, usize)>)
    requires
        encode_utf8(s@).len() < usize::MAX,
    ensures
        r@ == nonwhite_runs(s@),
        crate::pattern::spans_well_formed(r@, encode_utf8(s@)),
{
    let cs = chars_of(s.as_str());
    let ghost c = cs@;
    let ghost bytes = encode_utf8(c);
    let n = cs.len();
    let mut r: Vec<(usize, usize)> = Vec::new();
    let mut i: usize = 0;
    let mut b: usize = 0;
    let mut open: bool = false;
    let mut st: usize = 0;
    let mut ob: usize = 0;
    proof {
        lemma_encode_len_ge(c);
        assert(c.take(0) =~= Seq::<char>::empty());
    }
    while i < n
        invariant
            c == cs@,
            c == s@,
            n == c.len(),
            bytes == encode_utf8(c),
            bytes.len() < usize::MAX,
            0 <= i <= n,
            b as int == byte_at(c, i as int),
            b <= bytes.len(),
            open ==> st < i && ob as int == byte_at(c, st as int) && ob <= b,
            nonwhite_runs(c) == r@ + runs_from(c, i as int, if open { Some(st as int) } else { None }),
            crate::pattern::spans_well_formed(r@, bytes),
            forall|k: int| 0 <= k < r@.len() ==> #[trigger] r@[k].1 <= (if open { ob } else { b }),
        decreases n - i,
    {
        let ch = cs[i];
        let one = char_string(ch);
        let one_str = one.as_str();
        let w = one_str.len();
        proof {
            lemma_byte_at_step(c, i as int);
            assert(one_str.spec_bytes() == encode_utf8(seq![ch]));
            assert(c.take(i as int + 1) == c.take(i as int) + seq![c[i as int]]);
        }
        let white = is_white_char(ch);
        if white {
            if open {
                proof {
                    lemma_byte_at_boundary(c, st as int);
                    lemma_byte_at_boundary(c, i as int);
                }
                let ghost before = r@;
                r.push((ob, b));
                proof {
                    assert(r@ == before + seq![(ob, b)]);
                    assert(runs_from(c, i as int, Some(st as int)) == seq![(ob, b)] + runs_from(c, i + 1, None));
                    assert(nonwhite_runs(c) =~= r@ + runs_from(c, i + 1, None));
                    assert forall|x: int, y: int| 0 <= x < y < r@.len() implies #[trigger] r@[x].1 <= #[trigger] r@[y].0 by {
                        if y < before.len() {
                            assert(r@[x] == before[x] && r@[y] == before[y]);
                        } else {
                            assert(r@[x] == before[x]);
                        }
                    }
                    assert forall|x: int| 0 <= x < r@.len() implies {
                        &&& #[trigger] r@[x].0 <= r@[x].1 <= bytes.len()
                        &&& is_char_boundary(bytes, r@[x].0 as int)
                        &&& is_char_boundary(bytes, r@[x].1 as int)
                    } by {
                        if x < before.len() {
                            assert(r@[x] == before[x]);
                        }
                    }
                }
                open = false;
            } else {
                proof {
                    assert(runs_from(c, i as int, None) == runs_from(c, i + 1, None));
                }
            }
        } else {
            if open {
                proof {
                    assert(runs_from(c, i as int, Some(st as int)) == runs_from(c, i + 1, Some(st as int)));
                }
            } else {
                proof {
                    assert(runs_from(c, i as int, None) == runs_from(c, i + 1, Some(i as int)));
                }
                open = true;
                st = i;
                ob = b;
            }
        }
        b = b + w;
        i = i + 1;
    }
    if open {
        proof {
            lemma_byte_at_boundary(c, st as int);
            lemma_byte_at_boundary(c, n as int);
            assert(c.take(n as int) =~= c);
        }
        let ghost before = r@;
        r.push((ob, b));
        proof {
            assert(runs_from(c, n as int, Some(st as int)) == seq![(ob, b)]);
            assert(nonwhite_runs(c) =~= r@);
            assert forall|x: int, y: int| 0 <= x < y < r@.len() implies #[trigger] r@[x].1 <= #[trigger] r@[y].0 by {
                if y < before.len() {
                    assert(r@[x] == before[x] && r@[y] == before[y]);
                } else {
                    assert(r@[x] == before[x]);
                }
            }
            assert forall|x: int| 0 <= x < r@.len() implies {
                &&& #[trigger] r@[x].0 <= r@[x].1 <= bytes.len()
                &&& is_char_boundary(bytes, r@[x].0 as int)
                &&& is_char_boundary(bytes, r@[x].1 as int)
            } by {
                if x < before.len() {
                    assert(r@[x] == before[x]);
                }
            }
        }
    } else {
        proof {
            assert(nonwhite_runs(c) =~= r@);
        }
    }
    r
}

/// The characters of `s`, one by one.
pub fn chars_of(s: &str) -> (r: Vec<char>)
    ensures
        r@ == s@,
{
    broadcast use vstd::string::group_string_axioms;
    let mut r: Vec<char> = Vec::new();
    for c in it: s.chars()
        invariant
            it.seq() == s@,
            r@ == it.seq().take(it.index()),
    {
        r.push(c);
    }
    r
}

} // verus!

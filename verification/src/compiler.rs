//! Code generation: the text of each parse-tree node, with the placeholders
//! `$(0)`, `$(1)`, ... replaced by the generated text of its elements.
use vstd::prelude::*;
use vstd::string::StringExecFns;

use crate::parser::{Parsed, ParsedV, parsed_seq_view};
use crate::text::{chars_of, decimal, decimal_string, string_from_chars};

verus! {

/// The placeholder for the `i`-th element: `$(i)`.
pub open spec fn placeholder(i: nat) -> Seq<char> {
    "$("@ + decimal(i) + ")"@
}

/// `s` with every occurrence of the non-empty `pat`, taken from left to
/// right without overlap, replaced by `rep` (std's `str::replace`).
pub open spec fn replace_all(s: Seq<char>, pat: Seq<char>, rep: Seq<char>) -> Seq<char>
    recommends
        pat.len() > 0,
    decreases s.len(),
{
    if pat.len() == 0 || s.len() < pat.len() {
        s
    } else if s.take(pat.len() as int) == pat {
        rep + replace_all(s.skip(pat.len() as int), pat, rep)
    } else {
        seq![s[0]] + replace_all(s.drop_first(), pat, rep)
    }
}

/// `val` with the placeholders of the first `n` of `kids` replaced, in
/// order, by their generated text.
pub open spec fn expand(val: Seq<char>, kids: Seq<ParsedV>, n: nat) -> Seq<char>
    decreases kids, n,
{
    if n == 0 || n > kids.len() {
        val
    } else {
        let k = kids[n - 1];
        replace_all(
            expand(val, kids, (n - 1) as nat),
            placeholder((n - 1) as nat),
            expand(k.val, k.p__, k.p__.len()),
        )
    }
}

/// The generated text of a node.
pub open spec fn generated(p: ParsedV) -> Seq<char> {
    expand(p.val, p.p__, p.p__.len())
}

/// Whether `pat` occurs in `s` starting at `i`.
pub open spec fn occurs_at(s: Seq<char>, pat: Seq<char>, i: int) -> bool {
    0 <= i && i + pat.len() <= s.len() && s.subrange(i, i + pat.len()) == pat
}

/// A text in which `pat` does not occur is left as it is.
pub proof fn lemma_replace_none(s: Seq<char>, pat: Seq<char>, rep: Seq<char>)
    requires
        pat.len() > 0,
        forall|i: int| !occurs_at(s, pat, i),
    ensures
        replace_all(s, pat, rep) == s,
    decreases s.len(),
{
    if s.len() >= pat.len() {
        assert(!occurs_at(s, pat, 0));
        assert(s.take(pat.len() as int) != pat) by {
            assert(s.take(pat.len() as int) == s.subrange(0, pat.len() as int));
        }
        let t = s.drop_first();
        assert forall|i: int| !occurs_at(t, pat, i) by {
            if occurs_at(t, pat, i) {
                assert(t.subrange(i, i + pat.len()) =~= s.subrange(i + 1, i + 1 + pat.len()));
                assert(occurs_at(s, pat, i + 1));
            }
        }
        lemma_replace_none(t, pat, rep);
        assert(seq![s[0]] + t =~= s);
    }
}

/// The first occurrence of `pat` is replaced by `rep`, whatever `rep` is
/// (the empty text too), and the replacing goes on after it.
pub proof fn lemma_replace_first(x: Seq<char>, pat: Seq<char>, y: Seq<char>, rep: Seq<char>)
    requires
        pat.len() > 0,
        forall|i: int| 0 <= i < x.len() ==> !occurs_at(x + pat + y, pat, i),
    ensures
        replace_all(x + pat + y, pat, rep) == x + rep + replace_all(y, pat, rep),
    decreases x.len(),
{
    let s = x + pat + y;
    if x.len() == 0 {
        assert(x + pat + y =~= pat + y);
        assert(s.take(pat.len() as int) =~= pat);
        assert(s.skip(pat.len() as int) =~= y);
        assert(x + rep + replace_all(y, pat, rep) =~= rep + replace_all(y, pat, rep));
    } else {
        assert(!occurs_at(s, pat, 0));
        assert(s.take(pat.len() as int) != pat) by {
            assert(s.take(pat.len() as int) == s.subrange(0, pat.len() as int));
        }
        let x1 = x.drop_first();
        assert(s.drop_first() =~= x1 + pat + y);
        assert forall|i: int| 0 <= i < x1.len() implies !occurs_at(x1 + pat + y, pat, i) by {
            assert((x1 + pat + y).subrange(i, i + pat.len()) =~= s.subrange(i + 1, i + 1 + pat.len()));
            assert(!occurs_at(s, pat, i + 1));
        }
        lemma_replace_first(x1, pat, y, rep);
        assert(seq![s[0]] + (x1 + rep + replace_all(y, pat, rep)) =~= x + rep + replace_all(y, pat, rep));
    }
}

/// Each step of the expansion replaces every `$(i)` of element `i` by its
/// generated text, whatever that text is (the empty text too).
pub proof fn lemma_expand_step(val: Seq<char>, kids: Seq<ParsedV>, n: nat)
    requires
        1 <= n <= kids.len(),
    ensures
        expand(val, kids, n) == replace_all(expand(val, kids, (n - 1) as nat), placeholder((n - 1) as nat), generated(kids[n - 1])),
{
}

fn replace_chars(s: &Vec<char>, pat: &Vec<char>, rep: &Vec<char>) -> (r: Vec<char>)
    requires
        pat@.len() > 0,
    ensures
        r@ == replace_all(s@, pat@, rep@),
{
    let n = s.len();
    let m = pat.len();
    let mut out: Vec<char> = Vec::new();
    let mut i: usize = 0;
    assert(s@.skip(0) =~= s@);
    assert(out@ + replace_all(s@, pat@, rep@) =~= replace_all(s@, pat@, rep@));
    while i < n
        invariant
            n == s@.len(),
            m == pat@.len(),
            m > 0,
            0 <= i <= n,
            replace_all(s@, pat@, rep@) == out@ + replace_all(s@.skip(i as int), pat@, rep@),
        decreases n - i,
    {
        let rest = Ghost(s@.skip(i as int));
        let mut found = m <= n - i;
        let mut k: usize = 0;
        while found && k < m
            invariant
                n == s@.len(),
                m == pat@.len(),
                0 <= k <= m,
                found ==> i + m <= n,
                found ==> forall|x: int| 0 <= x < k ==> s@[i + x] == pat@[x],
                !found ==> rest@.len() < m || rest@.take(m as int) != pat@,
                rest@ == s@.skip(i as int),
            decreases m - k,
        {
            if s[i + k] != pat[k] {
                found = false;
                assert(rest@.take(m as int)[k as int] == s@[i + k]);
            }
            k = k + 1;
        }
        if found {
            assert(rest@.take(m as int) =~= pat@);
            assert(rest@.skip(m as int) =~= s@.skip(i + m));
            let ghost before = out@;
            let mut j: usize = 0;
            while j < rep.len()
                invariant
                    0 <= j <= rep@.len(),
                    out@ == before + rep@.take(j as int),
                decreases rep@.len() - j,
            {
                out.push(rep[j]);
                assert(rep@.take(j + 1) =~= rep@.take(j as int).push(rep@[j as int]));
                j = j + 1;
            }
            assert(rep@.take(j as int) =~= rep@);
            assert(before + (rep@ + replace_all(s@.skip(i + m), pat@, rep@)) =~= out@ + replace_all(
                s@.skip(i + m),
                pat@,
                rep@,
            ));
            i = i + m;
        } else {
            assert(rest@.drop_first() =~= s@.skip(i + 1));
            let ghost before = out@;
            out.push(s[i]);
            assert(before + (seq![s@[i as int]] + replace_all(s@.skip(i + 1), pat@, rep@)) =~= out@
                + replace_all(s@.skip(i + 1), pat@, rep@));
            i = i + 1;
        }
    }
    assert(s@.skip(i as int) =~= Seq::<char>::empty());
    assert(out@ + Seq::<char>::empty() =~= out@);
    out
}

fn placeholder_chars(i: usize) -> (r: Vec<char>)
    ensures
        r@ == placeholder(i as nat),
        r@.len() > 0,
{
    let mut s = String::from_str("$(");
    let d = decimal_string(i);
    s.append(d.as_str());
    s.append(")");
    proof {
        reveal_strlit("$(");
    }
    chars_of(s.as_str())
}

fn expand_into(val: &mut String, kids: &Vec<Parsed>)
    ensures
        final(val)@ == expand(old(val)@, parsed_seq_view(kids@), kids@.len()),
    decreases kids,
{
    let ghost start = val@;
    let ghost kv = parsed_seq_view(kids@);
    let mut i: usize = 0;
    while i < kids.len()
        invariant
            0 <= i <= kids@.len(),
            kv == parsed_seq_view(kids@),
            val@ == expand(start, kv, i as nat),
        decreases kids@.len() - i,
    {
        let child = &kids[i];
        let mut v = child.val.clone();
        expand_into(&mut v, &child.p__);
        let pat = placeholder_chars(i);
        let cur = chars_of(val.as_str());
        let rep = chars_of(v.as_str());
        let out = replace_chars(&cur, &pat, &rep);
        *val = string_from_chars(&out);
        assert(kv[i as int] == child@);
        i = i + 1;
    }
}

/// Replaces, in `val`, the placeholder `$(i)` of each element `p__[i]` by the
/// generated text of that element, in the order of the elements.
pub fn eval(val: &mut String, p__: Vec<Parsed>)
    ensures
        final(val)@ == expand(old(val)@, parsed_seq_view(p__@), p__@.len()),
{
    expand_into(val, &p__);
}

/// The generated text of the tree below `root`.
pub fn compile_text(root: Parsed) -> (r: String)
    ensures
        r@ == generated(root@),
{
    let Parsed { at: _, count: _, p__, val } = root;
    let mut out = val;
    eval(&mut out, p__);
    out
}

} // verus!

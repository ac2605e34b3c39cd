//! The parser: a table of rules turns a list of tokens into a tree of
//! [`Parsed`] nodes, trying the alternatives of each rule in turn and
//! remembering what it found at each position.
use vstd::prelude::*;
use vstd::utf8::*;
use vstd::string::StringSliceAdditionalSpecFns;
use vstd::string::StringExecFns;

use crate::lex::{Token, TokenV};
use crate::text::{chars_of, decimal, decimal_string, string_from_chars};

verus! {

/// The key under which the parser remembers the outcome of an alternative
/// tried at a position.
#[derive(PartialEq, Eq, Hash, Debug)]
pub enum CacheKey {
    K(String, usize),
}

/// A node of the parse tree: `at` and `count` place the alternative it
/// matched (the last token it took is at `at + count - 1`), `p__` are the
/// nodes of its elements and `val` is the text the rule gives it.
#[derive(Debug)]
pub struct Parsed {
    pub at: usize,
    pub count: usize,
    pub p__: Vec<Parsed>,
    pub val: String,
}

/// The mathematical value of a [`Parsed`] node.
pub struct ParsedV {
    pub at: int,
    pub count: int,
    pub p__: Seq<ParsedV>,
    pub val: Seq<char>,
}

pub open spec fn parsed_view(p: Parsed) -> ParsedV
    decreases p,
{
    ParsedV { at: p.at as int, count: p.count as int, p__: parsed_seq_view(p.p__@), val: p.val@ }
}

pub open spec fn parsed_seq_view(ps: Seq<Parsed>) -> Seq<ParsedV>
    decreases ps,
{
    Seq::new(ps.len(), |i: int| if 0 <= i < ps.len() { parsed_view(ps[i]) } else { arbitrary() })
}

impl View for Parsed {
    type V = ParsedV;

    open spec fn view(&self) -> ParsedV {
        parsed_view(*self)
    }
}

impl Clone for Parsed {
    /// A copy of the whole tree below this node.
    fn clone(&self) -> (r: Parsed)
        ensures
            r@ == self@,
    {
        self.deep_clone()
    }
}

impl Parsed {
    fn new(at: usize, count: usize, p__: Vec<Parsed>, val: String) -> (p: Parsed)
        ensures
            p@ == (ParsedV { at: at as int, count: count as int, p__: parsed_seq_view(p__@), val: val@ }),
    {
        Parsed { at, count, p__, val }
    }

    /// A copy of this node and all the nodes below it.
    pub fn deep_clone(&self) -> (r: Parsed)
        ensures
            r@ == self@,
        decreases self,
    {
        let mut kids: Vec<Parsed> = Vec::new();
        let mut i: usize = 0;
        while i < self.p__.len()
            invariant
                0 <= i <= self.p__@.len(),
                parsed_seq_view(kids@) == parsed_seq_view(self.p__@).take(i as int),
            decreases self.p__@.len() - i,
        {
            let c = self.p__[i].deep_clone();
            let ghost before = kids@;
            kids.push(c);
            assert(parsed_seq_view(kids@) =~= parsed_seq_view(before).push(c@));
            assert(parsed_seq_view(self.p__@).take(i + 1) =~= parsed_seq_view(self.p__@).take(i as int).push(
                parsed_view(self.p__@[i as int]),
            ));
            i = i + 1;
        }
        assert(parsed_seq_view(self.p__@).take(i as int) =~= parsed_seq_view(self.p__@));
        Parsed { at: self.at, count: self.count, p__: kids, val: self.val.clone() }
    }
}

/// What a parser never changes: the tokens, the rules (each name with its
/// alternatives and the text each gives) and, for each name, its
/// alternatives in the order they are tried.
pub struct Ctx {
    pub tokens: Seq<TokenV>,
    pub rules: Seq<(Seq<char>, Seq<(Seq<char>, Seq<char>)>)>,
    pub keys: Seq<(Seq<char>, Seq<Seq<char>>)>,
}

/// What a parse changes: the outcomes remembered for an alternative at a
/// position, the alternatives known to fail at a position, the syntax
/// error messages written so far, and the trace lines written so far (a
/// rule found in its terminal form, an element marked `!Expect:`, an
/// alternative that matched).
pub struct St {
    pub cache: Map<(Seq<char>, int), Option<ParsedV>>,
    pub broken: Set<(Seq<char>, int)>,
    pub messages: Seq<Seq<char>>,
    pub trace: Seq<Seq<char>>,
}

/// The outcome of a parse: a node or none, and the new state; or nothing,
/// because the parse stops the program.
pub enum ParseRes {
    Done(Option<ParsedV>, St),
    Abort,
}

/// The outcome of trying the alternatives of a name in turn.
pub enum AltRes {
    Matched(ParsedV, St),
    Exhausted(St, int),
    Abort,
}

/// The outcome of matching the elements of one alternative.
pub enum ElemRes {
    Matched(ParsedV, St),
    Broke(St, int),
    Skipped(St, int),
    Abort,
}

/// Splitting at each space (std's `str::split(" ")`): the part before the
/// last space, cut into pieces, and the part after it.
pub open spec fn split_go(cs: Seq<char>) -> (Seq<Seq<char>>, Seq<char>)
    decreases cs.len(),
{
    if cs.len() == 0 {
        (seq![], seq![])
    } else {
        let (done, cur) = split_go(cs.drop_last());
        if cs.last() == ' ' {
            (done.push(cur), seq![])
        } else {
            (done, cur.push(cs.last()))
        }
    }
}

/// The pieces of `cs` between spaces.
pub open spec fn split_space(cs: Seq<char>) -> Seq<Seq<char>> {
    split_go(cs).0.push(split_go(cs).1)
}

/// The number of words of an alternative.
pub open spec fn word_count(cs: Seq<char>) -> nat {
    split_space(cs).len()
}

/// The alternatives of the first entry named `name`.
pub open spec fn find_key(keys: Seq<(Seq<char>, Seq<Seq<char>>)>, name: Seq<char>) -> Option<Seq<Seq<char>>>
    decreases keys.len(),
{
    if keys.len() == 0 {
        None
    } else if keys[0].0 == name {
        Some(keys[0].1)
    } else {
        find_key(keys.drop_first(), name)
    }
}

/// The first value of `key` in a list of pairs.
pub open spec fn find_pair(pairs: Seq<(Seq<char>, Seq<char>)>, key: Seq<char>) -> Option<Seq<char>>
    decreases pairs.len(),
{
    if pairs.len() == 0 {
        None
    } else if pairs[0].0 == key {
        Some(pairs[0].1)
    } else {
        find_pair(pairs.drop_first(), key)
    }
}

/// The text that rule `name` gives to its alternative `alt`.
pub open spec fn find_val(
    rules: Seq<(Seq<char>, Seq<(Seq<char>, Seq<char>)>)>,
    name: Seq<char>,
    alt: Seq<char>,
) -> Option<Seq<char>>
    decreases rules.len(),
{
    if rules.len() == 0 {
        None
    } else if rules[0].0 == name {
        find_pair(rules[0].1, alt)
    } else {
        find_val(rules.drop_first(), name, alt)
    }
}

/// All alternatives of all names.
pub open spec fn all_alts(keys: Seq<(Seq<char>, Seq<Seq<char>>)>) -> Seq<Seq<char>>
    decreases keys.len(),
{
    if keys.len() == 0 {
        seq![]
    } else {
        all_alts(keys.drop_last()) + keys.last().1
    }
}

pub open spec fn alt_set(ctx: Ctx) -> Set<Seq<char>> {
    all_alts(ctx.keys).to_set()
}

/// The number of alternatives not yet forbidden at position `p`.
pub open spec fn unforbidden(ctx: Ctx, f: Set<(Seq<char>, int)>, p: int) -> nat {
    alt_set(ctx).filter(|r: Seq<char>| !f.contains((r, p))).len()
}

pub proof fn lemma_unforbidden_insert(ctx: Ctx, f: Set<(Seq<char>, int)>, r: Seq<char>, p: int)
    requires
        alt_set(ctx).contains(r),
        !f.contains((r, p)),
    ensures
        unforbidden(ctx, f.insert((r, p)), p) < unforbidden(ctx, f, p),
{
    broadcast use vstd::seq_lib::seq_to_set_is_finite;
    let a = alt_set(ctx).filter(|x: Seq<char>| !f.contains((x, p)));
    let b = alt_set(ctx).filter(|x: Seq<char>| !f.insert((r, p)).contains((x, p)));
    alt_set(ctx).lemma_len_filter(|x: Seq<char>| !f.contains((x, p)));
    assert(b =~= a.remove(r));
    vstd::set::axiom_set_remove_len(a, r);
}

/// The name under which a terminal rule is written.
pub open spec fn terminal_name(name: Seq<char>) -> Seq<char> {
    "!Terminal:"@ + name
}

/// The bytes of `!Expect:`, the mark of an element that must match.
pub open spec fn expect_bytes() -> Seq<u8> {
    seq![33u8, 69u8, 120u8, 112u8, 101u8, 99u8, 116u8, 58u8]
}

/// The depth counter after one more call (it wraps around).
pub open spec fn next_depth(d: usize) -> usize {
    if d == usize::MAX {
        0
    } else {
        (d + 1) as usize
    }
}

/// `line L col C` for a token.
pub open spec fn position_text(t: TokenV) -> Seq<char> {
    "line "@ + decimal(t.line as nat) + " col "@ + decimal(t.column as nat)
}

/// The message for an element that must match and does not.
pub open spec fn expected_message(name: Seq<char>, t: TokenV, element: Seq<char>) -> Seq<char> {
    "!!!! "@ + name + ":: Syntax error at "@ + position_text(t) + " "@ + element + " expected"@
}

/// The message for a terminal rule that matches nowhere.
pub open spec fn unexpected_message(depth: usize, name: Seq<char>, t: TokenV) -> Seq<char> {
    decimal(depth as nat) + "::!!!! "@ + name + ":: Syntax error at "@ + position_text(t) + " unexpexted \""@
        + t.string + "\""@
}

/// The state after an alternative broke at element token `t`.
pub open spec fn broke_state(
    st: St,
    alt: Seq<char>,
    s: int,
    mandatory: bool,
    name: Seq<char>,
    t: TokenV,
    element: Seq<char>,
) -> St {
    St {
        broken: st.broken.insert((alt, s)),
        messages: if mandatory {
            st.messages.push(expected_message(name, t, element))
        } else {
            st.messages
        },
        ..st
    }
}

/// The trace line for a rule found in its terminal form.
pub open spec fn terminal_line(depth: usize, name: Seq<char>) -> Seq<char> {
    decimal(depth as nat) + "::!!!! "@ + name + " is terminal"@
}

/// The trace line for an element of alternative `r` marked `!Expect:`.
pub open spec fn mandatory_line(depth: usize, r: Seq<char>, element: Seq<char>) -> Seq<char> {
    decimal(depth as nat) + "::!!!! "@ + r + ":: mandatory::true element::<"@ + element + ">"@
}

/// The trace line for alternative `r` matched with its last element (the
/// `i`-th) at token `pos`, giving `val`.
pub open spec fn matched_line(depth: usize, r: Seq<char>, i: nat, pos: nat, val: Seq<char>) -> Seq<char> {
    decimal(depth as nat) + "::@@@@ Matched "@ + r + " "@ + decimal(i) + " & at "@ + decimal(pos) + " ==> "@ + val
}

/// Parses `name` at position `s` (see [`Parser::parse`]); `f` holds the
/// alternatives being tried, each with its position, and `d` is the depth
/// counter.
pub open spec fn parse_s(ctx: Ctx, f: Set<(Seq<char>, int)>, d: usize, st: St, name: Seq<char>, s: int) -> ParseRes
    decreases ctx.tokens.len() - s, unforbidden(ctx, f, s), 4int, 0int,
{
    let depth = next_depth(d);
    let (alts, terminal, nm) = lookup(ctx.keys, name);
    let st1 = if terminal {
        St { trace: st.trace.push(terminal_line(depth, name)), ..st }
    } else {
        st
    };
    finish_parse(ctx, terminal, depth, st1, name, alts_s(ctx, f, depth, st1, name, nm, alts, 0, s, s))
}

/// The alternatives of `name`, whether they come from its terminal form,
/// and the name they are found under.
pub open spec fn lookup(keys: Seq<(Seq<char>, Seq<Seq<char>>)>, name: Seq<char>) -> (Seq<Seq<char>>, bool, Seq<char>) {
    match find_key(keys, name) {
        Some(a) => (a, false, name),
        None => match find_key(keys, terminal_name(name)) {
            Some(a) => (a, true, terminal_name(name)),
            None => (seq![], false, name),
        },
    }
}

/// The outcome of a parse once its alternatives have been tried.
pub open spec fn finish_parse(ctx: Ctx, terminal: bool, depth: usize, st: St, name: Seq<char>, res: AltRes) -> ParseRes {
    match res {
        AltRes::Matched(p, st2) => ParseRes::Done(Some(p), st2),
        AltRes::Exhausted(st2, at) => if !terminal {
            ParseRes::Done(None, st2)
        } else if 0 <= at < ctx.tokens.len() {
            ParseRes::Done(
                None,
                St { messages: st2.messages.push(unexpected_message(depth, name, ctx.tokens[at])), ..st2 },
            )
        } else {
            ParseRes::Abort
        },
        AltRes::Abort => ParseRes::Abort,
    }
}

/// Tries the alternatives `alts[k..]` of rule `nm` at position `s`; `at` is
/// where the last attempt stood.
pub open spec fn alts_s(
    ctx: Ctx,
    f: Set<(Seq<char>, int)>,
    depth: usize,
    st: St,
    name: Seq<char>,
    nm: Seq<char>,
    alts: Seq<Seq<char>>,
    k: int,
    s: int,
    at: int,
) -> AltRes
    decreases ctx.tokens.len() - s, unforbidden(ctx, f, s), 3int, alts.len() - k,
{
    if k < 0 || k >= alts.len() {
        AltRes::Exhausted(st, at)
    } else {
        let r = alts[k];
        if f.contains((r, s)) || st.broken.contains((r, s)) {
            alts_s(ctx, f, depth, st, name, nm, alts, k + 1, s, at)
        } else if st.cache.contains_key((r, s)) && st.cache[(r, s)] is Some {
            AltRes::Matched(st.cache[(r, s)]->Some_0, st)
        } else if s + split_space(r).len() - 1 >= ctx.tokens.len() {
            alts_s(ctx, f, depth, st, name, nm, alts, k + 1, s, at)
        } else {
            match elems_s(ctx, f, depth, st, name, nm, r, split_space(r), 0, s, s, seq![]) {
                ElemRes::Matched(p, st2) => AltRes::Matched(p, st2),
                ElemRes::Broke(st2, at2) => alts_s(
                    ctx,
                    f,
                    depth,
                    St { cache: st2.cache.insert((r, s), None), ..st2 },
                    name,
                    nm,
                    alts,
                    k + 1,
                    s,
                    at2,
                ),
                ElemRes::Skipped(st2, at2) => alts_s(ctx, f, depth, st2, name, nm, alts, k + 1, s, at2),
                ElemRes::Abort => AltRes::Abort,
            }
        }
    }
}

/// What happened with one element: the alternative goes on (new state,
/// position, and the node of the element), or stops with this outcome.
pub enum Step {
    Next(St, int, ParsedV),
    Stop(ElemRes),
}

/// Matches the elements `syntax[i..]` of alternative `r` (tried at `s`),
/// element `j` being at token `at + j`; `kids` are the nodes so far.
pub open spec fn elems_s(
    ctx: Ctx,
    f: Set<(Seq<char>, int)>,
    depth: usize,
    st: St,
    name: Seq<char>,
    nm: Seq<char>,
    r: Seq<char>,
    syntax: Seq<Seq<char>>,
    i: int,
    s: int,
    at: int,
    kids: Seq<ParsedV>,
) -> ElemRes
    decreases ctx.tokens.len() - s, unforbidden(ctx, f, s), 2int, syntax.len() - i,
{
    if i < 0 || i >= syntax.len() {
        ElemRes::Skipped(st, at)
    } else {
        match step_s(ctx, f, depth, st, name, r, syntax[i], i, s, at) {
            Step::Next(st2, at2, node) => if i == syntax.len() - 1 {
                match find_val(ctx.rules, nm, r) {
                    Some(v) => {
                        let p = ParsedV { at: at2, count: syntax.len() as int, p__: kids.push(node), val: v };
                        ElemRes::Matched(
                            p,
                            St {
                                cache: st2.cache.insert((r, s), Some(p)),
                                trace: st2.trace.push(
                                    matched_line(depth, r, i as nat, (at2 + i) as nat, v),
                                ),
                                ..st2
                            },
                        )
                    },
                    None => ElemRes::Abort,
                }
            } else {
                elems_s(ctx, f, depth, st2, name, nm, r, syntax, i + 1, s, at2, kids.push(node))
            },
            Step::Stop(res) => res,
        }
    }
}

/// Parses the rule that `element` (`&` and a name) names, at token
/// `at + i`, with alternative `r` (tried at `s`) marked as being tried there.
pub open spec fn sub_rule_s(
    ctx: Ctx,
    f: Set<(Seq<char>, int)>,
    depth: usize,
    st: St,
    name: Seq<char>,
    r: Seq<char>,
    element: Seq<char>,
    mandatory: bool,
    i: int,
    s: int,
    at: int,
) -> Step
    decreases ctx.tokens.len() - s, unforbidden(ctx, f, s), 0int, 0int,
{
    let q = at + i;
    if !((s < q && q < ctx.tokens.len()) || (q == s && alt_set(ctx).contains(r) && !f.contains((r, s)))) {
        Step::Stop(ElemRes::Abort)
    } else {
        proof {
            if q == s {
                lemma_unforbidden_insert(ctx, f, r, s);
            }
        }
        match parse_s(ctx, f.insert((r, q)), depth, st, decode_utf8(encode_utf8(element).skip(1)), q) {
            ParseRes::Done(Some(p), st2) => Step::Next(st2, p.at + p.count - 1 - i, p),
            ParseRes::Done(None, st2) => Step::Stop(
                ElemRes::Broke(broke_state(st2, r, s, mandatory, name, ctx.tokens[q], element), at),
            ),
            ParseRes::Abort => Step::Stop(ElemRes::Abort),
        }
    }
}

/// Matches element `raw`, the `i`-th of alternative `r` (tried at `s`),
/// against token `at + i`. An element that differs from the token's kind
/// and starts with `&` names a rule, parsed there; an element marked
/// `!Expect:` writes a message when it fails.
pub open spec fn step_s(
    ctx: Ctx,
    f: Set<(Seq<char>, int)>,
    depth: usize,
    st: St,
    name: Seq<char>,
    r: Seq<char>,
    raw: Seq<char>,
    i: int,
    s: int,
    at: int,
) -> Step
    decreases ctx.tokens.len() - s, unforbidden(ctx, f, s), 1int, 0int,
{
    let eb = encode_utf8(raw);
    if eb.len() > 8 && !is_char_boundary(eb, 8) {
        Step::Stop(ElemRes::Abort)
    } else {
        let mandatory = eb.len() > 8 && eb.take(8) == expect_bytes();
        let element = if mandatory { decode_utf8(eb.skip(8)) } else { raw };
        let st1 = if mandatory {
            St { trace: st.trace.push(mandatory_line(depth, r, element)), ..st }
        } else {
            st
        };
        let q = at + i;
        if q < 0 || q >= ctx.tokens.len() {
            Step::Stop(ElemRes::Skipped(st1, at))
        } else {
            let t = ctx.tokens[q];
            if t.token == element {
                Step::Next(st1, at, ParsedV { at: q, count: 1, p__: seq![], val: t.string })
            } else {
                let elb = encode_utf8(element);
                if elb.len() == 0 || !is_char_boundary(elb, 1) {
                    Step::Stop(ElemRes::Abort)
                } else if elb[0] == 38u8 {
                    sub_rule_s(ctx, f, depth, st1, name, r, element, mandatory, i, s, at)
                } else {
                    Step::Stop(ElemRes::Broke(broke_state(st1, r, s, mandatory, name, t, element), at))
                }
            }
        }
    }
}

/// Adding a position to a list and then removing the first occurrence of
/// that position leaves the same positions, each as many times as before.
pub proof fn lemma_add_then_remove_first(s: Seq<usize>, x: usize, i: int)
    requires
        0 <= i <= s.len(),
        s.push(x)[i] == x,
        forall|j: int| 0 <= j < i ==> s.push(x)[j] != x,
    ensures
        s.push(x).remove(i).to_multiset() == s.to_multiset(),
{
    broadcast use vstd::seq_lib::group_to_multiset_ensures;
    assert(s.push(x).remove(i).to_multiset() == s.push(x).to_multiset().remove(x));
    assert(s.push(x).to_multiset() == s.to_multiset().insert(x));
    assert(s.to_multiset().insert(x).remove(x) =~= s.to_multiset());
}

proof fn lemma_alts_too_long(
    ctx: Ctx,
    f: Set<(Seq<char>, int)>,
    depth: usize,
    st: St,
    name: Seq<char>,
    nm: Seq<char>,
    alts: Seq<Seq<char>>,
    k: int,
    s: int,
    at: int,
)
    requires
        0 <= k,
        forall|j: int| k <= j < alts.len() ==> s + split_space(#[trigger] alts[j]).len() - 1 >= ctx.tokens.len(),
        forall|j: int|
            k <= j < alts.len() ==> !(st.cache.contains_key((#[trigger] alts[j], s)) && st.cache[(alts[j], s)] is Some),
    ensures
        alts_s(ctx, f, depth, st, name, nm, alts, k, s, at) == AltRes::Exhausted(st, at),
    decreases alts.len() - k,
{
    if k < alts.len() {
        assert(s + split_space(alts[k]).len() - 1 >= ctx.tokens.len());
        assert(!(st.cache.contains_key((alts[k], s)) && st.cache[(alts[k], s)] is Some));
        lemma_alts_too_long(ctx, f, depth, st, name, nm, alts, k + 1, s, at);
    }
}

/// A rule whose alternatives are all longer than the tokens left from `s`
/// gives no node, and the parser is left as it was.
pub proof fn lemma_parse_too_long(v: ParserV, name: Seq<char>, s: int)
    requires
        parser_wf(v),
        find_key(v.ctx.keys, name) is Some,
        forall|r: Seq<char>|
            #[trigger] find_key(v.ctx.keys, name)->Some_0.contains(r) ==> s + split_space(r).len() > v.ctx.tokens.len(),
    ensures
        parse_outcome(v, name, s) == ParseRes::Done(None, v.st),
{
    let alts = find_key(v.ctx.keys, name)->Some_0;
    let depth = next_depth(v.depth);
    assert forall|j: int| 0 <= j < alts.len() implies !(v.st.cache.contains_key((#[trigger] alts[j], s))
        && v.st.cache[(alts[j], s)] is Some) by {
        let r = alts[j];
        assert(alts.contains(r));
        if v.st.cache.contains_key((r, s)) && v.st.cache[(r, s)] is Some {
            let p = v.st.cache[(r, s)]->Some_0;
            reveal(remembered_ok);
            assert(remembered_ok(v.ctx, (r, s), p));
            lemma_node_span(v.ctx, p, s);
        }
    }
    assert forall|j: int| 0 <= j < alts.len() implies s + split_space(#[trigger] alts[j]).len() - 1 >= v.ctx.tokens.len() by {
        assert(alts.contains(alts[j]));
    }
    lemma_alts_too_long(v.ctx, forb_set(v.frs), depth, v.st, name, name, alts, 0, s, s);
}

/// A word that stands for a token kind as it is written: no `!Expect:`
/// mark, and nothing cut in a character at that mark's length.
pub open spec fn plain_word(w: Seq<char>) -> bool {
    let eb = encode_utf8(w);
    eb.len() <= 8 || (is_char_boundary(eb, 8) && eb.take(8) != expect_bytes())
}

/// The leaf for the token at `q`.
pub open spec fn leaf_at(ctx: Ctx, q: int) -> ParsedV {
    ParsedV { at: q, count: 1, p__: seq![], val: ctx.tokens[q].string }
}

proof fn lemma_elems_tokens(
    ctx: Ctx,
    f: Set<(Seq<char>, int)>,
    depth: usize,
    st: St,
    name: Seq<char>,
    nm: Seq<char>,
    r: Seq<char>,
    i: int,
    s: int,
    val: Seq<char>,
)
    requires
        0 <= i < split_space(r).len(),
        0 <= s,
        s + split_space(r).len() - 1 < ctx.tokens.len(),
        forall|j: int|
            0 <= j < split_space(r).len() ==> plain_word(#[trigger] split_space(r)[j]) && ctx.tokens[s + j].token
                == split_space(r)[j],
        find_val(ctx.rules, nm, r) == Some(val),
    ensures
        ({
            let n = split_space(r).len() as int;
            let kids = Seq::new(i as nat, |j: int| leaf_at(ctx, s + j));
            let node = ParsedV { at: s, count: n, p__: Seq::new(n as nat, |j: int| leaf_at(ctx, s + j)), val };
            elems_s(ctx, f, depth, st, name, nm, r, split_space(r), i, s, s, kids) == ElemRes::Matched(
                node,
                St {
                    cache: st.cache.insert((r, s), Some(node)),
                    trace: st.trace.push(matched_line(depth, r, (n - 1) as nat, (s + n - 1) as nat, val)),
                    ..st
                },
            )
        }),
    decreases split_space(r).len() - i,
{
    let n = split_space(r).len() as int;
    let raw = split_space(r)[i];
    assert(plain_word(raw) && ctx.tokens[s + i].token == raw);
    let eb = encode_utf8(raw);
    assert(!(eb.len() > 8 && eb.take(8) == expect_bytes()));
    let kids = Seq::new(i as nat, |j: int| leaf_at(ctx, s + j));
    assert(kids.push(leaf_at(ctx, s + i)) =~= Seq::new((i + 1) as nat, |j: int| leaf_at(ctx, s + j)));
    assert(step_s(ctx, f, depth, st, name, r, raw, i, s, s) == Step::Next(st, s, leaf_at(ctx, s + i)));
    if i < n - 1 {
        lemma_elems_tokens(ctx, f, depth, st, name, nm, r, i + 1, s, val);
    }
}

/// On a parser where the first alternative `r` of `name` (the longest) has
/// not been tried at `s`, and every word of `r` is the kind of the token at
/// its place from `s`, parsing gives the node of `r`: one leaf per token, the
/// text the grammar gives `r`, remembered for `r` at `s` and traced.
pub proof fn lemma_parse_first_alt_of_tokens(v: ParserV, name: Seq<char>, s: int)
    requires
        find_key(v.ctx.keys, name) is Some,
        find_key(v.ctx.keys, name)->Some_0.len() > 0,
        ({
            let r = find_key(v.ctx.keys, name)->Some_0[0];
            &&& !forb_set(v.frs).contains((r, s))
            &&& !v.st.broken.contains((r, s))
            &&& !v.st.cache.contains_key((r, s))
            &&& 0 <= s
            &&& s + split_space(r).len() - 1 < v.ctx.tokens.len()
            &&& forall|j: int|
                0 <= j < split_space(r).len() ==> plain_word(#[trigger] split_space(r)[j])
                    && v.ctx.tokens[s + j].token == split_space(r)[j]
            &&& find_val(v.ctx.rules, name, r) is Some
        }),
    ensures
        ({
            let r = find_key(v.ctx.keys, name)->Some_0[0];
            let n = split_space(r).len() as int;
            let val = find_val(v.ctx.rules, name, r)->Some_0;
            let node = ParsedV { at: s, count: n, p__: Seq::new(n as nat, |j: int| leaf_at(v.ctx, s + j)), val };
            parse_outcome(v, name, s) == ParseRes::Done(
                Some(node),
                St {
                    cache: v.st.cache.insert((r, s), Some(node)),
                    trace: v.st.trace.push(matched_line(next_depth(v.depth), r, (n - 1) as nat, (s + n - 1) as nat, val)),
                    ..v.st
                },
            )
        }),
{
    let alts = find_key(v.ctx.keys, name)->Some_0;
    let r = alts[0];
    let val = find_val(v.ctx.rules, name, r)->Some_0;
    let depth = next_depth(v.depth);
    let f = forb_set(v.frs);
    assert(split_space(r).len() >= 1);
    lemma_elems_tokens(v.ctx, f, depth, v.st, name, name, r, 0, s, val);
    assert(Seq::new(0 as nat, |j: int| leaf_at(v.ctx, s + j)) =~= Seq::<ParsedV>::empty());
}

/// A word that names a token kind and nothing else: a plain word, not
/// empty, whose first byte is a whole character and not `&`.
pub open spec fn kind_word(w: Seq<char>) -> bool {
    &&& plain_word(w)
    &&& encode_utf8(w).len() > 0
    &&& is_char_boundary(encode_utf8(w), 1)
    &&& encode_utf8(w)[0] != 38u8
}

/// Every word of `r` is the kind of the token at its place from `s`.
pub open spec fn tokens_match(ctx: Ctx, r: Seq<char>, s: int) -> bool {
    &&& 0 <= s
    &&& s + split_space(r).len() - 1 < ctx.tokens.len()
    &&& forall|j: int|
        0 <= j < split_space(r).len() ==> plain_word(#[trigger] split_space(r)[j]) && ctx.tokens[s + j].token
            == split_space(r)[j]
}

/// Alternative `r` cannot match at `s`: it is longer than the tokens left,
/// or it is made of token kinds and one of them is not the kind of the
/// token at its place.
pub open spec fn fails_on_tokens(ctx: Ctx, r: Seq<char>, s: int) -> bool {
    ||| s + split_space(r).len() - 1 >= ctx.tokens.len()
    ||| {
        &&& 0 <= s
        &&& forall|j: int| 0 <= j < split_space(r).len() ==> kind_word(#[trigger] split_space(r)[j])
        &&& exists|m: int| 0 <= m < split_space(r).len() && ctx.tokens[s + m].token != #[trigger] split_space(r)[m]
    }
}

/// The node of alternative `r` matched by the tokens from `s`.
pub open spec fn token_node(ctx: Ctx, r: Seq<char>, s: int, val: Seq<char>) -> ParsedV {
    let n = split_space(r).len() as int;
    ParsedV { at: s, count: n, p__: Seq::new(n as nat, |j: int| leaf_at(ctx, s + j)), val }
}

proof fn lemma_elems_break(
    ctx: Ctx,
    f: Set<(Seq<char>, int)>,
    depth: usize,
    st: St,
    name: Seq<char>,
    nm: Seq<char>,
    r: Seq<char>,
    i: int,
    s: int,
    kids: Seq<ParsedV>,
)
    requires
        0 <= i < split_space(r).len(),
        0 <= s,
        s + split_space(r).len() - 1 < ctx.tokens.len(),
        forall|j: int| 0 <= j < split_space(r).len() ==> kind_word(#[trigger] split_space(r)[j]),
        exists|m: int| i <= m < split_space(r).len() && ctx.tokens[s + m].token != #[trigger] split_space(r)[m],
    ensures
        elems_s(ctx, f, depth, st, name, nm, r, split_space(r), i, s, s, kids) == ElemRes::Broke(
            St { broken: st.broken.insert((r, s)), ..st },
            s,
        ),
    decreases split_space(r).len() - i,
{
    let n = split_space(r).len() as int;
    let raw = split_space(r)[i];
    assert(kind_word(raw));
    let eb = encode_utf8(raw);
    assert(!(eb.len() > 8 && eb.take(8) == expect_bytes()));
    if ctx.tokens[s + i].token == raw {
        let m = choose|m: int| i <= m < n && ctx.tokens[s + m].token != #[trigger] split_space(r)[m];
        assert(m != i);
        assert(step_s(ctx, f, depth, st, name, r, raw, i, s, s) == Step::Next(st, s, leaf_at(ctx, s + i)));
        lemma_elems_break(ctx, f, depth, st, name, nm, r, i + 1, s, kids.push(leaf_at(ctx, s + i)));
    } else {
        assert(step_s(ctx, f, depth, st, name, r, raw, i, s, s) == Step::Stop(
            ElemRes::Broke(St { broken: st.broken.insert((r, s)), ..st }, s),
        ));
    }
}

proof fn lemma_alts_reach(
    ctx: Ctx,
    f: Set<(Seq<char>, int)>,
    depth: usize,
    st: St,
    name: Seq<char>,
    nm: Seq<char>,
    alts: Seq<Seq<char>>,
    j: int,
    s: int,
    at: int,
    k: int,
    val: Seq<char>,
)
    requires
        0 <= j <= k < alts.len(),
        0 <= s,
        forall|a: int, b: int| j <= a < b <= k ==> alts[a] != alts[b],
        forall|a: int| j <= a <= k ==> !st.cache.contains_key((alts[a], s)),
        !f.contains((alts[k], s)),
        !st.broken.contains((alts[k], s)),
        forall|a: int| j <= a < k ==> fails_on_tokens(ctx, #[trigger] alts[a], s),
        tokens_match(ctx, alts[k], s),
        find_val(ctx.rules, nm, alts[k]) == Some(val),
    ensures
        alts_s(ctx, f, depth, st, name, nm, alts, j, s, at) matches AltRes::Matched(p, _) && p == token_node(
            ctx,
            alts[k],
            s,
            val,
        ),
    decreases k - j,
{
    let r = alts[j];
    if j == k {
        assert(split_space(r).len() >= 1);
        lemma_elems_tokens(ctx, f, depth, st, name, nm, r, 0, s, val);
        assert(Seq::new(0 as nat, |x: int| leaf_at(ctx, s + x)) =~= Seq::<ParsedV>::empty());
    } else {
        assert(fails_on_tokens(ctx, r, s));
        assert(!st.cache.contains_key((r, s)));
        if f.contains((r, s)) || st.broken.contains((r, s)) || s + split_space(r).len() - 1 >= ctx.tokens.len() {
            lemma_alts_reach(ctx, f, depth, st, name, nm, alts, j + 1, s, at, k, val);
        } else {
            assert(split_space(r).len() >= 1);
            lemma_elems_break(ctx, f, depth, st, name, nm, r, 0, s, seq![]);
            let st2 = St { broken: st.broken.insert((r, s)), ..st };
            let st3 = St { cache: st2.cache.insert((r, s), None), ..st2 };
            assert forall|a: int| j + 1 <= a <= k implies !st3.cache.contains_key((alts[a], s)) by {
                assert(alts[a] != r);
            }
            assert(alts[k] != r);
            lemma_alts_reach(ctx, f, depth, st3, name, nm, alts, j + 1, s, s, k, val);
        }
    }
}

/// A failing alternative does not stop the search: when every alternative
/// of `name` before the `k`-th cannot match at `s` and the `k`-th matches
/// the tokens there (none of them tried at `s` yet), parsing gives the node
/// of the `k`-th alternative.
pub proof fn lemma_parse_skips_failing_alternatives(v: ParserV, name: Seq<char>, s: int, k: int)
    requires
        find_key(v.ctx.keys, name) is Some,
        0 <= k < find_key(v.ctx.keys, name)->Some_0.len(),
        0 <= s,
        ({
            let alts = find_key(v.ctx.keys, name)->Some_0;
            &&& forall|a: int, b: int| 0 <= a < b <= k ==> alts[a] != alts[b]
            &&& forall|a: int| 0 <= a <= k ==> !v.st.cache.contains_key((alts[a], s))
            &&& !forb_set(v.frs).contains((alts[k], s))
            &&& !v.st.broken.contains((alts[k], s))
            &&& forall|a: int| 0 <= a < k ==> fails_on_tokens(v.ctx, #[trigger] alts[a], s)
            &&& tokens_match(v.ctx, alts[k], s)
            &&& find_val(v.ctx.rules, name, alts[k]) is Some
        }),
    ensures
        ({
            let alts = find_key(v.ctx.keys, name)->Some_0;
            parse_outcome(v, name, s) matches ParseRes::Done(Some(p), _) && p == token_node(
                v.ctx,
                alts[k],
                s,
                find_val(v.ctx.rules, name, alts[k])->Some_0,
            )
        }),
{
    let alts = find_key(v.ctx.keys, name)->Some_0;
    let val = find_val(v.ctx.rules, name, alts[k])->Some_0;
    lemma_alts_reach(v.ctx, forb_set(v.frs), next_depth(v.depth), v.st, name, name, alts, 0, s, s, k, val);
}

/// A fresh parser marks no alternative as being tried anywhere.
pub proof fn lemma_fresh_nothing_tried(g: Seq<(Seq<char>, Seq<(Seq<char>, Seq<char>)>)>, r: Seq<char>, s: int)
    ensures
        !forb_set(forbidden_of(g)).contains((r, s)),
    decreases g.len(),
{
    let frs = forbidden_of(g);
    lemma_forbidden_of_empty(g);
    lemma_first_fr(frs, r);
}

proof fn lemma_forbidden_of_empty(g: Seq<(Seq<char>, Seq<(Seq<char>, Seq<char>)>)>)
    ensures
        forall|i: int| 0 <= i < forbidden_of(g).len() ==> (#[trigger] forbidden_of(g)[i]).1.len() == 0,
    decreases g.len(),
{
    if g.len() > 0 {
        lemma_forbidden_of_empty(g.drop_last());
        let a = forbidden_of(g.drop_last());
        let b = alt_names(g.last().1).map_values(|x: Seq<char>| (x, Seq::<usize>::empty()));
        assert forall|i: int| 0 <= i < forbidden_of(g).len() implies (#[trigger] forbidden_of(g)[i]).1.len() == 0 by {
            if i < a.len() {
                assert(forbidden_of(g)[i] == a[i]);
            } else {
                assert(forbidden_of(g)[i] == b[i - a.len()]);
            }
        }
    }
}

/// Appends `i` to `v`.
pub fn push(v: &mut Vec<usize>, i: usize)
    ensures
        final(v)@ == old(v)@.push(i),
{
    v.push(i);
}

/// One alternative and the positions at which it is being tried, which
/// keeps a rule from calling itself again at the same position.
#[derive(Debug)]
struct ForbiddenRule {
    rule: String,
    at: Vec<usize>,
}

impl ForbiddenRule {
    fn new(rule: String) -> (r: ForbiddenRule)
        ensures
            r.rule@ == rule@,
            r.at@ == Seq::<usize>::empty(),
    {
        ForbiddenRule { rule, at: Vec::new() }
    }

    fn add_at(&mut self, it: usize)
        ensures
            final(self).rule@ == old(self).rule@,
            final(self).at@ == old(self).at@.push(it),
    {
        self.at.push(it);
    }

    fn is_at(&self, at: usize) -> (r: bool)
        ensures
            r == self.at@.contains(at),
    {
        let mut i: usize = 0;
        while i < self.at.len()
            invariant
                0 <= i <= self.at@.len(),
                forall|j: int| 0 <= j < i ==> self.at@[j] != at,
            decreases self.at@.len() - i,
        {
            if self.at[i] == at {
                return true;
            }
            i = i + 1;
        }
        false
    }

    /// Removes the first occurrence of `at`.
    fn remove_at(&mut self, at: usize)
        requires
            old(self).at@.contains(at),
        ensures
            final(self).rule@ == old(self).rule@,
            exists|i: int|
                0 <= i < old(self).at@.len() && old(self).at@[i] == at && (forall|j: int|
                    0 <= j < i ==> old(self).at@[j] != at) && final(self).at@ == old(self).at@.remove(i),
    {
        let mut i: usize = 0;
        while i < self.at.len() && self.at[i] != at
            invariant
                0 <= i <= self.at@.len(),
                self.at@.contains(at),
                forall|j: int| 0 <= j < i ==> self.at@[j] != at,
            decreases self.at@.len() - i,
        {
            i = i + 1;
        }
        self.at.remove(i);
    }
}

/// The rules of a grammar: each name with its alternatives and the text
/// each alternative gives. No name occurs twice, nor an alternative twice
/// within a name.
#[derive(Debug)]
pub struct Grammar {
    rules: Vec<(String, Vec<(String, String)>)>,
}

pub open spec fn pairs_view(ps: Seq<(String, String)>) -> Seq<(Seq<char>, Seq<char>)> {
    ps.map_values(|e: (String, String)| (e.0@, e.1@))
}

pub open spec fn rules_view(rs: Seq<(String, Vec<(String, String)>)>) -> Seq<(Seq<char>, Seq<(Seq<char>, Seq<char>)>)> {
    rs.map_values(|e: (String, Vec<(String, String)>)| (e.0@, pairs_view(e.1@)))
}

impl View for Grammar {
    type V = Seq<(Seq<char>, Seq<(Seq<char>, Seq<char>)>)>;

    closed spec fn view(&self) -> Self::V {
        rules_view(self.rules@)
    }
}

/// No key occurs twice.
pub open spec fn unique_keys<V>(s: Seq<(Seq<char>, V)>) -> bool {
    forall|i: int, j: int| 0 <= i < j < s.len() ==> #[trigger] s[i].0 != #[trigger] s[j].0
}

/// `pairs` with the value of `key` set to `val`.
pub open spec fn pairs_insert(pairs: Seq<(Seq<char>, Seq<char>)>, key: Seq<char>, val: Seq<char>) -> Seq<(Seq<char>, Seq<char>)> {
    if exists|j: int| 0 <= j < pairs.len() && #[trigger] pairs[j].0 == key {
        let j = choose|j: int| 0 <= j < pairs.len() && #[trigger] pairs[j].0 == key;
        pairs.update(j, (key, val))
    } else {
        pairs.push((key, val))
    }
}

/// `g` with alternative `rule` of `name` giving `val`.
pub open spec fn grammar_insert(
    g: Seq<(Seq<char>, Seq<(Seq<char>, Seq<char>)>)>,
    name: Seq<char>,
    rule: Seq<char>,
    val: Seq<char>,
) -> Seq<(Seq<char>, Seq<(Seq<char>, Seq<char>)>)> {
    if exists|i: int| 0 <= i < g.len() && #[trigger] g[i].0 == name {
        let i = choose|i: int| 0 <= i < g.len() && #[trigger] g[i].0 == name;
        g.update(i, (name, pairs_insert(g[i].1, rule, val)))
    } else {
        g.push((name, seq![(rule, val)]))
    }
}

impl Grammar {
    #[verifier::type_invariant]
    closed spec fn wf(self) -> bool {
        &&& unique_keys(self@)
        &&& forall|i: int| 0 <= i < self@.len() ==> unique_keys(#[trigger] self@[i].1)
    }

    /// A grammar with no rules.
    pub fn new() -> (g: Grammar)
        ensures
            g@ == Seq::<(Seq<char>, Seq<(Seq<char>, Seq<char>)>)>::empty(),
    {
        let g = Grammar { rules: Vec::new() };
        assert(g@ =~= Seq::<(Seq<char>, Seq<(Seq<char>, Seq<char>)>)>::empty());
        g
    }

    /// Sets the text that alternative `rule` of `name` gives.
    pub fn insert(&mut self, name: String, rule: String, val: String)
        ensures
            final(self)@ == grammar_insert(old(self)@, name@, rule@, val@),
    {
        proof {
            use_type_invariant(&*self);
        }
        let ghost g = self@;
        let mut rules: Vec<(String, Vec<(String, String)>)> = Vec::new();
        std::mem::swap(&mut rules, &mut self.rules);
        assert(rules_view(rules@) == g);
        let mut i: usize = 0;
        while i < rules.len()
            invariant
                0 <= i <= rules@.len(),
                rules_view(rules@) == g,
                g == old(self)@,
                unique_keys(g),
                forall|x: int| 0 <= x < g.len() ==> unique_keys(#[trigger] g[x].1),
                forall|x: int| 0 <= x < i ==> #[trigger] g[x].0 != name@,
            decreases rules@.len() - i,
        {
            assert(rules_view(rules@)[i as int] == (rules@[i as int].0@, pairs_view(rules@[i as int].1@)));
            if rules[i].0 == name {
                assert(g[i as int].0 == name@);
                let mut entries: Vec<(String, String)> = Vec::new();
                assert(rules_view(rules@)[i as int] == (rules@[i as int].0@, pairs_view(rules@[i as int].1@)));
                std::mem::swap(&mut entries, &mut rules[i].1);
                let ghost pv = pairs_view(entries@);
                assert(pv == g[i as int].1);
                let mut j: usize = 0;
                while j < entries.len() && entries[j].0 != rule
                    invariant
                        0 <= j <= entries@.len(),
                        pv == pairs_view(entries@),
                        forall|x: int| 0 <= x < j ==> #[trigger] pv[x].0 != rule@,
                    decreases entries@.len() - j,
                {
                    j = j + 1;
                }
                let ghost newp = pairs_insert(pv, rule@, val@);
                if j < entries.len() {
                    assert(pv[j as int].0 == rule@);
                    proof {
                        let c = choose|x: int| 0 <= x < pv.len() && #[trigger] pv[x].0 == rule@;
                        assert(c == j);
                    }
                    entries.set(j, (rule, val));
                    assert(pairs_view(entries@) =~= newp);
                } else {
                    entries.push((rule, val));
                    assert(pairs_view(entries@) =~= newp);
                }
                let ghost before = rules@;
                std::mem::swap(&mut entries, &mut rules[i].1);
                proof {
                    let c = choose|x: int| 0 <= x < g.len() && #[trigger] g[x].0 == name@;
                    assert(c == i);
                    assert(rules_view(rules@) =~= g.update(i as int, (name@, newp)));
                    assert(unique_keys(newp));
                    assert(grammar_insert(g, name@, rule@, val@) == g.update(i as int, (name@, newp)));
                }
                self.rules = rules;
                return;
            }
            i = i + 1;
        }
        let ghost before = rules@;
        rules.push((name, vec![(rule, val)]));
        proof {
            assert(pairs_view(rules@[i as int].1@) =~= seq![(rule@, val@)]);
            assert(rules_view(rules@) =~= g.push((name@, seq![(rule@, val@)])));
        }
        self.rules = rules;
    }
}

pub open spec fn strings_view(v: Seq<String>) -> Seq<Seq<char>> {
    v.map_values(|x: String| x@)
}

/// Splits `s` at each space, as std's `str::split(" ")` does.
fn split_spaces(s: &String) -> (r: Vec<String>)
    ensures
        strings_view(r@) == split_space(s@),
{
    let cs = chars_of(s.as_str());
    let mut done: Vec<String> = Vec::new();
    let mut cur: Vec<char> = Vec::new();
    let mut i: usize = 0;
    assert(cs@.take(0) =~= Seq::<char>::empty());
    while i < cs.len()
        invariant
            0 <= i <= cs@.len(),
            (strings_view(done@), cur@) == split_go(cs@.take(i as int)),
        decreases cs@.len() - i,
    {
        assert(cs@.take(i + 1).drop_last() =~= cs@.take(i as int));
        let ghost before = done@;
        if cs[i] == ' ' {
            let piece = string_from_chars(&cur);
            done.push(piece);
            assert(strings_view(done@) =~= strings_view(before).push(piece@));
            cur = Vec::new();
            assert(cur@ =~= Seq::<char>::empty());
        } else {
            cur.push(cs[i]);
        }
        i = i + 1;
    }
    assert(cs@.take(i as int) =~= cs@);
    let ghost before = done@;
    let last = string_from_chars(&cur);
    done.push(last);
    assert(strings_view(done@) =~= strings_view(before).push(last@));
    done
}

/// `r` placed into `sorted` after every alternative with at least as many
/// words.
pub open spec fn insert_by_words(sorted: Seq<Seq<char>>, r: Seq<char>) -> Seq<Seq<char>>
    decreases sorted.len(),
{
    if sorted.len() == 0 {
        seq![r]
    } else if word_count(sorted.last()) >= word_count(r) {
        sorted.push(r)
    } else {
        insert_by_words(sorted.drop_last(), r).push(sorted.last())
    }
}

/// Alternatives stably sorted by decreasing number of words.
pub open spec fn sort_by_words(rs: Seq<Seq<char>>) -> Seq<Seq<char>>
    decreases rs.len(),
{
    if rs.len() == 0 {
        seq![]
    } else {
        insert_by_words(sort_by_words(rs.drop_last()), rs.last())
    }
}

proof fn lemma_insert_by_words_index(sorted: Seq<Seq<char>>, r: Seq<char>, k: int)
    requires
        0 <= k <= sorted.len(),
        forall|i: int| k <= i < sorted.len() ==> word_count(#[trigger] sorted[i]) < word_count(r),
        k > 0 ==> word_count(sorted[k - 1]) >= word_count(r),
    ensures
        insert_by_words(sorted, r) == sorted.insert(k, r),
    decreases sorted.len(),
{
    if sorted.len() == 0 {
        assert(sorted.insert(k, r) =~= seq![r]);
    } else if word_count(sorted.last()) >= word_count(r) {
        assert(sorted.insert(k, r) =~= sorted.push(r));
    } else {
        let init = sorted.drop_last();
        lemma_insert_by_words_index(init, r, k);
        assert(init.insert(k, r).push(sorted.last()) =~= sorted.insert(k, r));
    }
}

proof fn lemma_sort_by_words_multiset(rs: Seq<Seq<char>>)
    ensures
        sort_by_words(rs).to_multiset() =~= rs.to_multiset(),
    decreases rs.len(),
{
    broadcast use vstd::seq_lib::group_to_multiset_ensures;
    if rs.len() > 0 {
        lemma_sort_by_words_multiset(rs.drop_last());
        lemma_insert_by_words_multiset(sort_by_words(rs.drop_last()), rs.last());
        assert(rs.drop_last().push(rs.last()) =~= rs);
    }
}

/// Alternatives ordered by number of space-separated words, most first.
pub open spec fn longest_first(rs: Seq<Seq<char>>) -> bool {
    forall|a: int, b: int| 0 <= a < b < rs.len() ==> split_space(#[trigger] rs[a]).len() >= split_space(#[trigger] rs[b]).len()
}

proof fn lemma_insert_by_words_sorted(sorted: Seq<Seq<char>>, r: Seq<char>)
    requires
        longest_first(sorted),
    ensures
        longest_first(insert_by_words(sorted, r)),
    decreases sorted.len(),
{
    broadcast use vstd::seq_lib::group_to_multiset_ensures;
    if sorted.len() > 0 && word_count(sorted.last()) < word_count(r) {
        let init = sorted.drop_last();
        let last = sorted.last();
        assert(init.push(last) =~= sorted);
        lemma_insert_by_words_sorted(init, r);
        lemma_insert_by_words_multiset(init, r);
        let q = insert_by_words(init, r);
        assert forall|i: int| 0 <= i < q.len() implies split_space(#[trigger] q[i]).len() >= split_space(last).len() by {
            assert(q.to_multiset().count(q[i]) > 0);
            if q[i] != r {
                assert(init.to_multiset().count(q[i]) > 0);
                assert(init.contains(q[i]));
                let k = choose|k: int| 0 <= k < init.len() && init[k] == q[i];
                assert(sorted[k] == init[k]);
                assert(sorted[sorted.len() - 1] == last);
            }
        }
        let res = q.push(last);
        assert forall|a: int, b: int| 0 <= a < b < res.len() implies split_space(#[trigger] res[a]).len()
            >= split_space(#[trigger] res[b]).len() by {
            if b < q.len() {
                assert(res[a] == q[a] && res[b] == q[b]);
            } else {
                assert(res[a] == q[a]);
            }
        }
    } else if sorted.len() > 0 {
        let res = sorted.push(r);
        assert forall|a: int, b: int| 0 <= a < b < res.len() implies split_space(#[trigger] res[a]).len()
            >= split_space(#[trigger] res[b]).len() by {
            if b < sorted.len() {
                assert(res[a] == sorted[a] && res[b] == sorted[b]);
            } else {
                assert(res[a] == sorted[a]);
                assert(sorted[sorted.len() - 1] == sorted.last());
                if a < sorted.len() - 1 {
                    assert(split_space(sorted[a]).len() >= split_space(sorted[sorted.len() - 1]).len());
                }
            }
        }
    }
}

proof fn lemma_sort_by_words_sorted(rs: Seq<Seq<char>>)
    ensures
        longest_first(sort_by_words(rs)),
    decreases rs.len(),
{
    if rs.len() > 0 {
        lemma_sort_by_words_sorted(rs.drop_last());
        lemma_insert_by_words_sorted(sort_by_words(rs.drop_last()), rs.last());
    }
}

/// The parser tries the alternatives of each rule most words first: its list
/// for a rule holds exactly the rule's alternatives, each one before every
/// alternative with fewer space-separated words.
pub proof fn lemma_keys_longest_first(g: Seq<(Seq<char>, Seq<(Seq<char>, Seq<char>)>)>, i: int)
    requires
        0 <= i < g.len(),
    ensures
        keys_of(g)[i].0 == g[i].0,
        keys_of(g)[i].1.to_multiset() == alt_names(g[i].1).to_multiset(),
        longest_first(keys_of(g)[i].1),
{
    lemma_sort_by_words_sorted(alt_names(g[i].1));
    lemma_sort_by_words_multiset(alt_names(g[i].1));
}

proof fn lemma_insert_by_words_multiset(sorted: Seq<Seq<char>>, r: Seq<char>)
    ensures
        insert_by_words(sorted, r).to_multiset() =~= sorted.to_multiset().insert(r),
    decreases sorted.len(),
{
    broadcast use vstd::seq_lib::group_to_multiset_ensures;
    if sorted.len() == 0 {
        assert(seq![r] =~= Seq::<Seq<char>>::empty().push(r));
    } else if word_count(sorted.last()) >= word_count(r) {
    } else {
        lemma_insert_by_words_multiset(sorted.drop_last(), r);
        assert(sorted.drop_last().push(sorted.last()) =~= sorted);
    }
}

/// Sorts alternatives stably by decreasing number of words.
fn sort_alts(alts: Vec<String>) -> (r: Vec<String>)
    ensures
        strings_view(r@) == sort_by_words(strings_view(alts@)),
{
    let ghost orig = strings_view(alts@);
    let mut rest = alts;
    let mut sorted: Vec<String> = Vec::new();
    let mut counts: Vec<usize> = Vec::new();
    let ghost mut done: int = 0;
    while rest.len() > 0
        invariant
            0 <= done <= orig.len(),
            strings_view(rest@) == orig.skip(done),
            rest@.len() == orig.len() - done,
            strings_view(sorted@) == sort_by_words(orig.take(done)),
            counts@.len() == sorted@.len(),
            forall|i: int| 0 <= i < counts@.len() ==> counts@[i] as int == word_count(#[trigger] sorted@[i]@),
        decreases rest.len(),
    {
        let ghost old_rest = rest@;
        assert(old_rest[0]@ == strings_view(old_rest)[0]);
        let a = rest.remove(0);
        assert(a@ == orig[done]);
        assert forall|i: int| 0 <= i < rest@.len() implies #[trigger] strings_view(rest@)[i] == orig.skip(done + 1)[i] by {
            assert(rest@[i] == old_rest[i + 1]);
            assert(strings_view(old_rest)[i + 1] == old_rest[i + 1]@);
        }
        assert(strings_view(rest@) =~= orig.skip(done + 1));
        let words = split_spaces(&a).len();
        let mut k = sorted.len();
        while k > 0 && counts[k - 1] < words
            invariant
                0 <= k <= sorted@.len(),
                counts@.len() == sorted@.len(),
                forall|i: int| 0 <= i < counts@.len() ==> counts@[i] as int == word_count(#[trigger] sorted@[i]@),
                forall|i: int| k <= i < sorted@.len() ==> word_count(#[trigger] sorted@[i]@) < words,
            decreases k,
        {
            k = k - 1;
        }
        let ghost before = strings_view(sorted@);
        proof {
            assert forall|i: int| k <= i < before.len() implies word_count(#[trigger] before[i]) < word_count(a@) by {
                assert(before[i] == sorted@[i]@);
            }
            if k > 0 {
                assert(before[k - 1] == sorted@[k - 1]@);
            }
            lemma_insert_by_words_index(before, a@, k as int);
            assert(orig.take(done + 1).drop_last() =~= orig.take(done));
        }
        let ghost sb = sorted@;
        let ghost cb = counts@;
        sorted.insert(k, a);
        counts.insert(k, words);
        assert(strings_view(sorted@) =~= before.insert(k as int, a@));
        assert forall|i: int| 0 <= i < counts@.len() implies counts@[i] as int == word_count(#[trigger] sorted@[i]@) by {
            if i < k {
                assert(counts@[i] == cb[i] && sorted@[i] == sb[i]);
            } else if i > k {
                assert(counts@[i] == cb[i - 1] && sorted@[i] == sb[i - 1]);
            }
        }
        proof {
            done = done + 1;
        }
    }
    assert(orig.take(done) =~= orig);
    sorted
}

/// The parser: tokens, rules and what it has learnt while parsing.
#[derive(Debug)]
pub struct Parser {
    tokens: Vec<Token>,
    grammar: Grammar,
    keys: Vec<(String, Vec<String>)>,
    forbidden_rules: Vec<ForbiddenRule>,
    depth: usize,
    cache: Vec<(CacheKey, Option<Parsed>)>,
    broken: Vec<CacheKey>,
    messages: Vec<String>,
    trace: Vec<String>,
}

/// The mathematical value of a [`Parser`]: its fixed context, the
/// alternatives being tried (each with the positions at which it is being
/// tried), the depth counter, and its state.
pub struct ParserV {
    pub ctx: Ctx,
    pub frs: Seq<(Seq<char>, Seq<usize>)>,
    pub depth: usize,
    pub st: St,
}

pub open spec fn key_view(k: CacheKey) -> (Seq<char>, int) {
    match k {
        CacheKey::K(r, a) => (r@, a as int),
    }
}

pub open spec fn opt_view(o: Option<Parsed>) -> Option<ParsedV> {
    match o {
        Some(p) => Some(p@),
        None => None,
    }
}

/// The remembered outcomes; a later entry overrides an earlier one.
pub open spec fn cache_map(c: Seq<(CacheKey, Option<Parsed>)>) -> Map<(Seq<char>, int), Option<ParsedV>>
    decreases c.len(),
{
    if c.len() == 0 {
        Map::empty()
    } else {
        cache_map(c.drop_last()).insert(key_view(c.last().0), opt_view(c.last().1))
    }
}

pub open spec fn broken_set(b: Seq<CacheKey>) -> Set<(Seq<char>, int)> {
    b.map_values(|k: CacheKey| key_view(k)).to_set()
}

/// One more entry marks its key as failing, and nothing else changes; no
/// entry marks nothing.
pub proof fn lemma_broken_set_push(b: Seq<CacheKey>, k: CacheKey)
    ensures
        broken_set(b.push(k)) == broken_set(b).insert(key_view(k)),
        broken_set(Seq::<CacheKey>::empty()) == Set::<(Seq<char>, int)>::empty(),
{
    let ks = b.map_values(|x: CacheKey| key_view(x));
    assert(b.push(k).map_values(|x: CacheKey| key_view(x)) =~= ks.push(key_view(k)));
    ks.lemma_push_to_set_commute(key_view(k));
    assert(Seq::<CacheKey>::empty().map_values(|x: CacheKey| key_view(x)) =~= Seq::<(Seq<char>, int)>::empty());
    assert(broken_set(Seq::<CacheKey>::empty()) =~= Set::<(Seq<char>, int)>::empty());
}

pub open spec fn keys_view(ks: Seq<(String, Vec<String>)>) -> Seq<(Seq<char>, Seq<Seq<char>>)> {
    ks.map_values(|k: (String, Vec<String>)| (k.0@, strings_view(k.1@)))
}

spec fn frs_view(frs: Seq<ForbiddenRule>) -> Seq<(Seq<char>, Seq<usize>)> {
    frs.map_values(|f: ForbiddenRule| (f.rule@, f.at@))
}

/// The index of the first entry for alternative `r`.
pub open spec fn first_fr(frs: Seq<(Seq<char>, Seq<usize>)>, r: Seq<char>) -> Option<int>
    decreases frs.len(),
{
    if frs.len() == 0 {
        None
    } else if frs[0].0 == r {
        Some(0)
    } else {
        match first_fr(frs.drop_first(), r) {
            Some(i) => Some(i + 1),
            None => None,
        }
    }
}

/// The pairs of an alternative and a position at which it is being tried.
pub open spec fn forb_set(frs: Seq<(Seq<char>, Seq<usize>)>) -> Set<(Seq<char>, int)> {
    Set::new(
        |x: (Seq<char>, int)|
            first_fr(frs, x.0) matches Some(i) && exists|j: int|
                0 <= j < frs[i].1.len() && #[trigger] frs[i].1[j] as int == x.1,
    )
}

/// The names of the alternatives of one rule.
pub open spec fn alt_names(entries: Seq<(Seq<char>, Seq<char>)>) -> Seq<Seq<char>> {
    entries.map_values(|e: (Seq<char>, Seq<char>)| e.0)
}

/// For each rule, its alternatives in the order they are tried.
pub open spec fn keys_of(g: Seq<(Seq<char>, Seq<(Seq<char>, Seq<char>)>)>) -> Seq<(Seq<char>, Seq<Seq<char>>)> {
    g.map_values(|e: (Seq<char>, Seq<(Seq<char>, Seq<char>)>)| (e.0, sort_by_words(alt_names(e.1))))
}

/// One entry per alternative of each rule, none being tried.
pub open spec fn forbidden_of(g: Seq<(Seq<char>, Seq<(Seq<char>, Seq<char>)>)>) -> Seq<(Seq<char>, Seq<usize>)>
    decreases g.len(),
{
    if g.len() == 0 {
        seq![]
    } else {
        forbidden_of(g.drop_last()) + alt_names(g.last().1).map_values(|r: Seq<char>| (r, Seq::<usize>::empty()))
    }
}

/// A state with nothing learnt.
pub open spec fn empty_state() -> St {
    St { cache: Map::empty(), broken: Set::empty(), messages: seq![], trace: seq![] }
}

impl View for Parser {
    type V = ParserV;

    closed spec fn view(&self) -> ParserV {
        ParserV {
            ctx: Ctx {
                tokens: crate::lex::tokens_view(self.tokens@),
                rules: self.grammar@,
                keys: keys_view(self.keys@),
            },
            frs: frs_view(self.forbidden_rules@),
            depth: self.depth,
            st: St {
                cache: cache_map(self.cache@),
                broken: broken_set(self.broken@),
                messages: strings_view(self.messages@),
                trace: strings_view(self.trace@),
            },
        }
    }
}

/// The last token a node takes.
pub open spec fn node_end(p: ParsedV) -> int {
    p.at + p.count - 1
}

/// Where the `i`-th of the nodes `kids` starts, the first one at `s`: each
/// one right after the last token of the one before.
pub open spec fn kid_start(kids: Seq<ParsedV>, s: int, i: int) -> int {
    if i <= 0 {
        s
    } else {
        node_end(kids[i - 1]) + 1
    }
}

/// `p` is a node found from token `s`. A leaf is the token at `s`, with its
/// text. Any other node has the text of an alternative (of some rule) and
/// one element per word of it; its elements take consecutive tokens, the
/// first from `s`, and the node ends where its last element ends.
pub open spec fn tree_ok(ctx: Ctx, p: ParsedV, s: int) -> bool
    decreases p,
{
    if p.p__.len() == 0 {
        &&& p.count == 1
        &&& p.at == s
        &&& 0 <= s < ctx.tokens.len()
        &&& p.val == ctx.tokens[s].string
    } else {
        &&& p.count == p.p__.len()
        &&& node_end(p) == node_end(p.p__.last())
        &&& exists|nm: Seq<char>, r: Seq<char>|
            #[trigger] find_val(ctx.rules, nm, r) == Some(p.val) && split_space(r).len() == p.count
        &&& forall|i: int| 0 <= i < p.p__.len() ==> tree_ok(ctx, #[trigger] p.p__[i], kid_start(p.p__, s, i))
    }
}

/// The leaves of a node, from left to right.
pub open spec fn leaves(p: ParsedV) -> Seq<ParsedV>
    decreases p, 0int,
{
    if p.p__.len() == 0 {
        seq![p]
    } else {
        leaves_of(p.p__, p.p__.len() as int)
    }
}

/// The leaves of the first `n` of `ks`, from left to right.
pub open spec fn leaves_of(ks: Seq<ParsedV>, n: int) -> Seq<ParsedV>
    decreases ks, n,
{
    if n <= 0 || n > ks.len() {
        seq![]
    } else {
        leaves_of(ks, n - 1) + leaves(ks[n - 1])
    }
}

/// The leaves of a node found from token `s` are the tokens from `s` to
/// the node's last token, one leaf for each, in order, each with its text.
pub proof fn lemma_leaves(ctx: Ctx, p: ParsedV, s: int)
    requires
        tree_ok(ctx, p, s),
    ensures
        leaves(p).len() == node_end(p) - s + 1,
        s <= node_end(p) < ctx.tokens.len(),
        forall|k: int|
            0 <= k < leaves(p).len() ==> {
                &&& #[trigger] leaves(p)[k].at == s + k
                &&& leaves(p)[k].count == 1
                &&& leaves(p)[k].p__.len() == 0
                &&& leaves(p)[k].val == ctx.tokens[s + k].string
            },
    decreases p, 0int,
{
    if p.p__.len() > 0 {
        lemma_leaves_of(ctx, p.p__, s, p.p__.len() as int);
    }
}

/// A node that is not a leaf has one element for each word of an
/// alternative, and the text that the grammar gives that alternative (under
/// some rule: the remembered outcomes are keyed by alternative and position
/// only, so two rules with the same alternative share them).
pub proof fn lemma_node_text(ctx: Ctx, p: ParsedV, s: int)
    requires
        tree_ok(ctx, p, s),
        p.p__.len() > 0,
    ensures
        p.count == p.p__.len(),
        exists|nm: Seq<char>, r: Seq<char>|
            #[trigger] find_val(ctx.rules, nm, r) == Some(p.val) && split_space(r).len() == p.p__.len(),
{
}

proof fn lemma_leaves_of(ctx: Ctx, ks: Seq<ParsedV>, s: int, n: int)
    requires
        1 <= n <= ks.len(),
        forall|i: int| 0 <= i < n ==> tree_ok(ctx, #[trigger] ks[i], kid_start(ks, s, i)),
    ensures
        leaves_of(ks, n).len() == node_end(ks[n - 1]) - s + 1,
        s <= node_end(ks[n - 1]) < ctx.tokens.len(),
        forall|k: int|
            0 <= k < leaves_of(ks, n).len() ==> {
                &&& #[trigger] leaves_of(ks, n)[k].at == s + k
                &&& leaves_of(ks, n)[k].count == 1
                &&& leaves_of(ks, n)[k].p__.len() == 0
                &&& leaves_of(ks, n)[k].val == ctx.tokens[s + k].string
            },
    decreases ks, n,
{
    let last = ks[n - 1];
    let st = kid_start(ks, s, n - 1);
    assert(tree_ok(ctx, last, st));
    lemma_leaves(ctx, last, st);
    if n == 1 {
        assert(leaves_of(ks, 0) =~= Seq::<ParsedV>::empty());
        assert(leaves_of(ks, 1) =~= leaves(last));
    } else {
        lemma_leaves_of(ctx, ks, s, n - 1);
        let a = leaves_of(ks, n - 1);
        let b = leaves(last);
        assert(leaves_of(ks, n) == a + b);
        assert forall|k: int| 0 <= k < leaves_of(ks, n).len() implies {
            &&& #[trigger] leaves_of(ks, n)[k].at == s + k
            &&& leaves_of(ks, n)[k].count == 1
            &&& leaves_of(ks, n)[k].p__.len() == 0
            &&& leaves_of(ks, n)[k].val == ctx.tokens[s + k].string
        } by {
            if k < a.len() {
                assert(leaves_of(ks, n)[k] == a[k]);
                assert(a[k].at == s + k);
            } else {
                assert(st == s + a.len());
                assert(leaves_of(ks, n)[k] == b[k - a.len()]);
                assert(b[k - a.len()].at == st + (k - a.len()));
            }
        }
    }
}

proof fn lemma_kid_span(ctx: Ctx, ks: Seq<ParsedV>, s: int, m: int)
    requires
        1 <= m <= ks.len(),
        forall|i: int| 0 <= i < m ==> tree_ok(ctx, #[trigger] ks[i], kid_start(ks, s, i)),
    ensures
        node_end(ks[m - 1]) >= s + m - 1,
    decreases m,
{
    assert(tree_ok(ctx, ks[m - 1], kid_start(ks, s, m - 1)));
    lemma_leaves(ctx, ks[m - 1], kid_start(ks, s, m - 1));
    if m > 1 {
        lemma_kid_span(ctx, ks, s, m - 1);
    }
}

/// A node found from token `s` that is not a leaf takes at least one token
/// for each of its elements.
pub proof fn lemma_node_span(ctx: Ctx, p: ParsedV, s: int)
    requires
        tree_ok(ctx, p, s),
        p.p__.len() > 0,
    ensures
        node_end(p) >= s + p.p__.len() - 1,
{
    lemma_kid_span(ctx, p.p__, s, p.p__.len() as int);
}

/// Every alternative has an entry, and every remembered node is a node
/// found from the position it is remembered at, within the tokens.
pub open spec fn parser_wf(v: ParserV) -> bool {
    &&& forall|r: Seq<char>| #[trigger] alt_set(v.ctx).contains(r) ==> first_fr(v.frs, r) is Some
    &&& forall|k: (Seq<char>, int)|
        #[trigger] v.st.cache.contains_key(k) && v.st.cache[k] is Some ==> {
            let p = v.st.cache[k]->Some_0;
            &&& 1 <= p.count
            &&& 0 <= k.1 <= p.at + p.count - 1 < v.ctx.tokens.len()
            &&& remembered_ok(v.ctx, k, p)
        }
}

/// A node remembered for alternative `k.0` at token `k.1` is a node found
/// from that token, for that alternative.
#[verifier::opaque]
pub open spec fn remembered_ok(ctx: Ctx, k: (Seq<char>, int), p: ParsedV) -> bool {
    tree_ok(ctx, p, k.1) && alt_node(ctx, k.0, p)
}

/// The element that word `raw` of an alternative stands for: the word
/// without its `!Expect:` mark, if it has one.
pub open spec fn element_of(raw: Seq<char>) -> Seq<char> {
    let eb = encode_utf8(raw);
    if eb.len() > 8 && eb.take(8) == expect_bytes() {
        decode_utf8(eb.skip(8))
    } else {
        raw
    }
}

/// Node `k` stands for word `raw`: a leaf is a token of the kind the word
/// names; any other node was parsed for a word `&` and a rule name.
#[verifier::opaque]
pub open spec fn elem_ok(ctx: Ctx, raw: Seq<char>, k: ParsedV) -> bool {
    if k.p__.len() == 0 {
        0 <= k.at < ctx.tokens.len() && ctx.tokens[k.at].token == element_of(raw)
    } else {
        encode_utf8(element_of(raw)).len() > 0 && encode_utf8(element_of(raw))[0] == 38u8
    }
}

/// `p` is a node for alternative `r`: one element for each word of `r`,
/// each standing for its word, and the text the grammar gives `r` (under a
/// rule that has `r`).
pub open spec fn alt_node(ctx: Ctx, r: Seq<char>, p: ParsedV) -> bool {
    &&& p.p__.len() == split_space(r).len()
    &&& p.count == split_space(r).len()
    &&& exists|nm: Seq<char>| #[trigger] find_val(ctx.rules, nm, r) == Some(p.val)
    &&& forall|i: int| 0 <= i < p.p__.len() ==> elem_ok(ctx, split_space(r)[i], #[trigger] p.p__[i])
}

proof fn lemma_first_fr(frs: Seq<(Seq<char>, Seq<usize>)>, r: Seq<char>)
    ensures
        first_fr(frs, r) matches Some(i) ==> 0 <= i < frs.len() && frs[i].0 == r && forall|j: int|
            0 <= j < i ==> #[trigger] frs[j].0 != r,
        first_fr(frs, r) is None ==> forall|j: int| 0 <= j < frs.len() ==> #[trigger] frs[j].0 != r,
    decreases frs.len(),
{
    if frs.len() > 0 {
        lemma_first_fr(frs.drop_first(), r);
        if first_fr(frs, r) is None {
            assert forall|j: int| 0 <= j < frs.len() implies #[trigger] frs[j].0 != r by {
                if j > 0 {
                    assert(frs[j] == frs.drop_first()[j - 1]);
                }
            }
        } else if frs[0].0 != r {
            let i = first_fr(frs, r)->Some_0;
            assert forall|j: int| 0 <= j < i implies #[trigger] frs[j].0 != r by {
                if j > 0 {
                    assert(frs[j] == frs.drop_first()[j - 1]);
                }
            }
        }
    }
}

proof fn lemma_alts_have_entries(g: Seq<(Seq<char>, Seq<(Seq<char>, Seq<char>)>)>, r: Seq<char>)
    requires
        all_alts(keys_of(g)).contains(r),
    ensures
        exists|j: int| 0 <= j < forbidden_of(g).len() && #[trigger] forbidden_of(g)[j].0 == r,
    decreases g.len(),
{
    broadcast use vstd::seq_lib::group_to_multiset_ensures;
    let ks = keys_of(g);
    let init = g.drop_last();
    assert(ks.drop_last() =~= keys_of(init));
    let prev = all_alts(keys_of(init));
    let last = sort_by_words(alt_names(g.last().1));
    assert(all_alts(ks) == prev + last);
    let a = all_alts(ks);
    let i = choose|i: int| 0 <= i < a.len() && a[i] == r;
    let fprev = forbidden_of(init);
    let flast = alt_names(g.last().1).map_values(|x: Seq<char>| (x, Seq::<usize>::empty()));
    assert(forbidden_of(g) == fprev + flast);
    if i < prev.len() {
        assert(prev[i] == r);
        lemma_alts_have_entries(init, r);
        let j = choose|j: int| 0 <= j < fprev.len() && #[trigger] fprev[j].0 == r;
        assert(forbidden_of(g)[j] == fprev[j]);
        assert(forbidden_of(g)[j].0 == r);
    } else {
        assert(last[i - prev.len()] == r);
        assert(last.contains(r));
        lemma_sort_by_words_multiset(alt_names(g.last().1));
        assert(last.to_multiset().count(r) > 0);
        assert(alt_names(g.last().1).contains(r));
        let k = choose|k: int| 0 <= k < alt_names(g.last().1).len() && alt_names(g.last().1)[k] == r;
        assert(forbidden_of(g)[fprev.len() + k] == flast[k]);
        assert(flast[k].0 == r);
        assert(forbidden_of(g)[fprev.len() + k].0 == r);
    }
}

impl Parser {
    /// A parser for `tokens` with the rules of `grammar`. The alternatives
    /// of each rule are tried longest first (by number of words), in the
    /// grammar's order among alternatives of the same length.
    pub fn new(grammar: Grammar, tokens: Vec<Token>) -> (p: Parser)
        ensures
            p@ == (ParserV {
                ctx: Ctx { tokens: crate::lex::tokens_view(tokens@), rules: grammar@, keys: keys_of(grammar@) },
                frs: forbidden_of(grammar@),
                depth: 0,
                st: empty_state(),
            }),
            parser_wf(p@),
    {
        let ghost g = grammar@;
        let mut keys: Vec<(String, Vec<String>)> = Vec::new();
        let mut frs: Vec<ForbiddenRule> = Vec::new();
        let n = grammar.rules.len();
        let mut i: usize = 0;
        assert(g.take(0) =~= Seq::<(Seq<char>, Seq<(Seq<char>, Seq<char>)>)>::empty());
        while i < n
            invariant
                0 <= i <= n,
                n == grammar.rules@.len(),
                g == grammar@,
                g == rules_view(grammar.rules@),
                keys_view(keys@) == keys_of(g).take(i as int),
                frs_view(frs@) == forbidden_of(g.take(i as int)),
            decreases n - i,
        {
            assert(g[i as int] == (grammar.rules@[i as int].0@, pairs_view(grammar.rules@[i as int].1@)));
            let name = grammar.rules[i].0.clone();
            let m = grammar.rules[i].1.len();
            let ghost names = alt_names(g[i as int].1);
            let ghost f0 = frs_view(frs@);
            let mut alts: Vec<String> = Vec::new();
            let mut j: usize = 0;
            assert(names.take(0) =~= Seq::<Seq<char>>::empty());
            while j < m
                invariant
                    0 <= j <= m,
                    i < n,
                    n == grammar.rules@.len(),
                    m == grammar.rules@[i as int].1@.len(),
                    names == alt_names(g[i as int].1),
                    g[i as int].1 == pairs_view(grammar.rules@[i as int].1@),
                    strings_view(alts@) == names.take(j as int),
                    frs_view(frs@) == f0 + names.take(j as int).map_values(
                        |x: Seq<char>| (x, Seq::<usize>::empty()),
                    ),
                decreases m - j,
            {
                let r = grammar.rules[i].1[j].0.clone();
                assert(names[j as int] == r@);
                let ghost ab = alts@;
                let ghost fb = frs@;
                alts.push(r.clone());
                frs.push(ForbiddenRule::new(r));
                assert(names.take(j + 1) =~= names.take(j as int).push(r@));
                assert(strings_view(alts@) =~= strings_view(ab).push(r@));
                assert(frs_view(frs@) =~= frs_view(fb).push((r@, Seq::<usize>::empty())));
                assert(names.take(j + 1).map_values(|x: Seq<char>| (x, Seq::<usize>::empty())) =~= names.take(
                    j as int,
                ).map_values(|x: Seq<char>| (x, Seq::<usize>::empty())).push((r@, Seq::<usize>::empty())));
                j = j + 1;
            }
            assert(names.take(j as int) =~= names);
            let sorted = sort_alts(alts);
            let ghost kb = keys@;
            keys.push((name, sorted));
            proof {
                assert(keys_view(keys@) =~= keys_view(kb).push((g[i as int].0, sort_by_words(names))));
                assert(keys_of(g).take(i + 1) =~= keys_of(g).take(i as int).push(keys_of(g)[i as int]));
                assert(g.take(i + 1).drop_last() =~= g.take(i as int));
                assert(g.take(i + 1).last() == g[i as int]);
            }
            i = i + 1;
        }
        assert(g.take(n as int) =~= g);
        assert(keys_of(g).take(n as int) =~= keys_of(g));
        let p = Parser {
            tokens,
            grammar,
            keys,
            forbidden_rules: frs,
            depth: 0,
            cache: Vec::new(),
            broken: Vec::new(),
            messages: Vec::new(),
            trace: Vec::new(),
        };
        proof {
            assert(p@.st.broken =~= Set::<(Seq<char>, int)>::empty());
            assert(p@.st.messages =~= Seq::<Seq<char>>::empty());
            assert(p@.st.trace =~= Seq::<Seq<char>>::empty());
            assert forall|r: Seq<char>| #[trigger] alt_set(p@.ctx).contains(r) implies first_fr(p@.frs, r) is Some by {
                lemma_alts_have_entries(g, r);
                lemma_first_fr(p@.frs, r);
            }
        }
        p
    }
}

/// The remembered outcome for a key is that of the last entry with this
/// key; a key with no entry has no outcome.
pub proof fn lemma_cache_map_last(c: Seq<(CacheKey, Option<Parsed>)>, k: (Seq<char>, int), j: int)
    requires
        -1 <= j < c.len(),
        j >= 0 ==> key_view(c[j].0) == k,
        forall|m: int| j < m < c.len() ==> key_view(#[trigger] c[m].0) != k,
    ensures
        j >= 0 ==> cache_map(c).contains_key(k) && cache_map(c)[k] == opt_view(c[j].1),
        j < 0 ==> !cache_map(c).contains_key(k),
    decreases c.len(),
{
    if c.len() > 0 {
        let init = c.drop_last();
        if j < c.len() - 1 {
            assert forall|m: int| j < m < init.len() implies key_view(#[trigger] init[m].0) != k by {
                assert(init[m] == c[m]);
            }
            if j >= 0 {
                assert(init[j] == c[j]);
            }
            lemma_cache_map_last(init, k, j);
        }
    }
}

proof fn lemma_find_key(keys: Seq<(Seq<char>, Seq<Seq<char>>)>, name: Seq<char>, i: int)
    requires
        0 <= i < keys.len(),
        keys[i].0 == name,
        forall|j: int| 0 <= j < i ==> #[trigger] keys[j].0 != name,
    ensures
        find_key(keys, name) == Some(keys[i].1),
    decreases keys.len(),
{
    if i > 0 {
        let tail = keys.drop_first();
        assert(tail[i - 1] == keys[i]);
        assert forall|j: int| 0 <= j < i - 1 implies #[trigger] tail[j].0 != name by {
            assert(tail[j] == keys[j + 1]);
        }
        lemma_find_key(tail, name, i - 1);
    }
}

proof fn lemma_find_key_none(keys: Seq<(Seq<char>, Seq<Seq<char>>)>, name: Seq<char>)
    requires
        forall|j: int| 0 <= j < keys.len() ==> #[trigger] keys[j].0 != name,
    ensures
        find_key(keys, name) is None,
    decreases keys.len(),
{
    if keys.len() > 0 {
        let tail = keys.drop_first();
        assert forall|j: int| 0 <= j < tail.len() implies #[trigger] tail[j].0 != name by {
            assert(tail[j] == keys[j + 1]);
        }
        lemma_find_key_none(tail, name);
    }
}

/// The alternatives found for a name are among all alternatives.
proof fn lemma_find_key_alts(keys: Seq<(Seq<char>, Seq<Seq<char>>)>, name: Seq<char>)
    ensures
        find_key(keys, name) matches Some(a) ==> forall|x: int| 0 <= x < a.len() ==> #[trigger] all_alts(keys).contains(a[x]),
    decreases keys.len(),
{
    if keys.len() > 0 {
        if let Some(a) = find_key(keys, name) {
            assert forall|x: int| 0 <= x < a.len() implies #[trigger] all_alts(keys).contains(a[x]) by {
                lemma_all_alts_member(keys, name, a, x);
            }
        }
    }
}

proof fn lemma_all_alts_member(keys: Seq<(Seq<char>, Seq<Seq<char>>)>, name: Seq<char>, a: Seq<Seq<char>>, x: int)
    requires
        find_key(keys, name) == Some(a),
        0 <= x < a.len(),
    ensures
        all_alts(keys).contains(a[x]),
    decreases keys.len(),
{
    lemma_all_alts_index(keys, name, a);
    let k = choose|k: int| 0 <= k < keys.len() && keys[k].1 == a;
    lemma_all_alts_has(keys, k, x);
}

proof fn lemma_all_alts_index(keys: Seq<(Seq<char>, Seq<Seq<char>>)>, name: Seq<char>, a: Seq<Seq<char>>)
    requires
        find_key(keys, name) == Some(a),
    ensures
        exists|k: int| 0 <= k < keys.len() && keys[k].1 == a,
    decreases keys.len(),
{
    if keys[0].0 == name {
        assert(keys[0].1 == a);
    } else {
        lemma_all_alts_index(keys.drop_first(), name, a);
        let k = choose|k: int| 0 <= k < keys.drop_first().len() && keys.drop_first()[k].1 == a;
        assert(keys[k + 1] == keys.drop_first()[k]);
    }
}

proof fn lemma_all_alts_has(keys: Seq<(Seq<char>, Seq<Seq<char>>)>, k: int, x: int)
    requires
        0 <= k < keys.len(),
        0 <= x < keys[k].1.len(),
    ensures
        all_alts(keys).contains(keys[k].1[x]),
    decreases keys.len(),
{
    let init = keys.drop_last();
    let all = all_alts(keys);
    assert(all == all_alts(init) + keys.last().1);
    if k == keys.len() - 1 {
        assert(all[all_alts(init).len() + x] == keys[k].1[x]);
    } else {
        assert(init[k] == keys[k]);
        lemma_all_alts_has(init, k, x);
        let y = choose|y: int| 0 <= y < all_alts(init).len() && all_alts(init)[y] == keys[k].1[x];
        assert(all[y] == all_alts(init)[y]);
    }
}

proof fn lemma_find_pair(pairs: Seq<(Seq<char>, Seq<char>)>, key: Seq<char>)
    ensures
        find_pair(pairs, key) is None ==> forall|i: int| 0 <= i < pairs.len() ==> #[trigger] pairs[i].0 != key,
        forall|i: int|
            0 <= i < pairs.len() && #[trigger] pairs[i].0 == key && (forall|j: int| 0 <= j < i ==> pairs[j].0 != key)
                ==> find_pair(pairs, key) == Some(pairs[i].1),
    decreases pairs.len(),
{
    if pairs.len() > 0 {
        lemma_find_pair(pairs.drop_first(), key);
        assert forall|i: int|
            0 <= i < pairs.len() && #[trigger] pairs[i].0 == key && (forall|j: int| 0 <= j < i ==> pairs[j].0 != key)
                implies find_pair(pairs, key) == Some(pairs[i].1) by {
            if i > 0 {
                assert(pairs.drop_first()[i - 1] == pairs[i]);
                assert forall|j: int| 0 <= j < i - 1 implies pairs.drop_first()[j].0 != key by {
                    assert(pairs.drop_first()[j] == pairs[j + 1]);
                }
            }
        }
        if find_pair(pairs, key) is None {
            assert forall|i: int| 0 <= i < pairs.len() implies #[trigger] pairs[i].0 != key by {
                if i > 0 {
                    assert(pairs.drop_first()[i - 1] == pairs[i]);
                }
            }
        }
    }
}

proof fn lemma_find_val(
    rules: Seq<(Seq<char>, Seq<(Seq<char>, Seq<char>)>)>,
    name: Seq<char>,
    alt: Seq<char>,
)
    ensures
        (forall|i: int| 0 <= i < rules.len() ==> #[trigger] rules[i].0 != name) ==> find_val(rules, name, alt) is None,
        forall|i: int|
            0 <= i < rules.len() && #[trigger] rules[i].0 == name && (forall|j: int| 0 <= j < i ==> rules[j].0 != name)
                ==> find_val(rules, name, alt) == find_pair(rules[i].1, alt),
    decreases rules.len(),
{
    if rules.len() > 0 {
        lemma_find_val(rules.drop_first(), name, alt);
        if forall|i: int| 0 <= i < rules.len() ==> #[trigger] rules[i].0 != name {
            assert forall|i: int| 0 <= i < rules.drop_first().len() implies #[trigger] rules.drop_first()[i].0 != name by {
                assert(rules.drop_first()[i] == rules[i + 1]);
            }
        }
        assert forall|i: int|
            0 <= i < rules.len() && #[trigger] rules[i].0 == name && (forall|j: int| 0 <= j < i ==> rules[j].0 != name)
                implies find_val(rules, name, alt) == find_pair(rules[i].1, alt) by {
            if i > 0 {
                assert(rules.drop_first()[i - 1] == rules[i]);
                assert forall|j: int| 0 <= j < i - 1 implies rules.drop_first()[j].0 != name by {
                    assert(rules.drop_first()[j] == rules[j + 1]);
                }
            }
        }
    }
}

impl Parser {
    /// The index of the entry for `name` in the table of alternatives.
    fn find_key_index(&self, name: &String) -> (r: Option<usize>)
        ensures
            match r {
                Some(i) => i < self.keys@.len() && find_key(self@.ctx.keys, name@) == Some(self@.ctx.keys[i as int].1),
                None => find_key(self@.ctx.keys, name@) is None,
            },
    {
        let ghost ks = self@.ctx.keys;
        let mut i: usize = 0;
        while i < self.keys.len()
            invariant
                0 <= i <= self.keys@.len(),
                ks == self@.ctx.keys,
                ks.len() == self.keys@.len(),
                ks == keys_view(self.keys@),
                forall|j: int| 0 <= j < i ==> #[trigger] ks[j].0 != name@,
            decreases self.keys@.len() - i,
        {
            assert(ks[i as int].0 == self.keys@[i as int].0@);
            if self.keys[i].0 == *name {
                proof {
                    lemma_find_key(ks, name@, i as int);
                }
                return Some(i);
            }
            i = i + 1;
        }
        proof {
            lemma_find_key_none(ks, name@);
        }
        None
    }

    /// The index of the first entry for alternative `rule`.
    fn find_forbidden(&self, rule: &String) -> (r: Option<usize>)
        ensures
            match r {
                Some(i) => first_fr(self@.frs, rule@) == Some(i as int),
                None => first_fr(self@.frs, rule@) is None,
            },
    {
        let ghost fv = self@.frs;
        let mut i: usize = 0;
        while i < self.forbidden_rules.len()
            invariant
                0 <= i <= self.forbidden_rules@.len(),
                fv.len() == self.forbidden_rules@.len(),
                fv == self@.frs,
                fv == frs_view(self.forbidden_rules@),
                forall|j: int| 0 <= j < i ==> #[trigger] fv[j].0 != rule@,
            decreases self.forbidden_rules@.len() - i,
        {
            assert(fv[i as int].0 == self.forbidden_rules@[i as int].rule@);
            if self.forbidden_rules[i].rule == *rule {
                proof {
                    lemma_first_fr(fv, rule@);
                }
                return Some(i);
            }
            i = i + 1;
        }
        proof {
            lemma_first_fr(fv, rule@);
        }
        None
    }

    /// Whether `rule` is known to fail at `at`.
    fn is_broken(&self, rule: &String, at: usize) -> (r: bool)
        ensures
            r == self@.st.broken.contains((rule@, at as int)),
    {
        let ghost ks = self.broken@.map_values(|k: CacheKey| key_view(k));
        let mut i: usize = 0;
        while i < self.broken.len()
            invariant
                0 <= i <= self.broken@.len(),
                ks == self.broken@.map_values(|k: CacheKey| key_view(k)),
                forall|j: int| 0 <= j < i ==> #[trigger] ks[j] != (rule@, at as int),
            decreases self.broken@.len() - i,
        {
            match &self.broken[i] {
                CacheKey::K(r, a) => {
                    if *a == at && *r == *rule {
                        assert(ks[i as int] == (rule@, at as int));
                        assert(ks.contains((rule@, at as int)));
                        return true;
                    }
                },
            }
            i = i + 1;
        }
        proof {
            if ks.contains((rule@, at as int)) {
                let j = choose|j: int| 0 <= j < ks.len() && ks[j] == (rule@, at as int);
            }
        }
        false
    }

    /// Remembers that `rule` fails at `at`.
    fn set_broken(&mut self, rule: &String, at: usize)
        ensures
            final(self)@ == (ParserV {
                st: St { broken: old(self)@.st.broken.insert((rule@, at as int)), ..old(self)@.st },
                ..old(self)@
            }),
    {
        let ghost b = self.broken@;
        self.broken.push(CacheKey::K(rule.clone(), at));
        proof {
            let ks = b.map_values(|k: CacheKey| key_view(k));
            assert(self.broken@.map_values(|k: CacheKey| key_view(k)) =~= ks.push((rule@, at as int)));
            ks.lemma_push_to_set_commute((rule@, at as int));
        }
    }

    /// The remembered node for `rule` at `at`, if any.
    fn find_cache(&self, rule: &String, at: usize) -> (r: Option<Parsed>)
        ensures
            opt_view(r) == (if self@.st.cache.contains_key((rule@, at as int)) {
                self@.st.cache[(rule@, at as int)]
            } else {
                None
            }),
    {
        let ghost k = (rule@, at as int);
        let mut j = self.cache.len();
        while j > 0
            invariant
                0 <= j <= self.cache@.len(),
                k == (rule@, at as int),
                forall|m: int| j <= m < self.cache@.len() ==> key_view(#[trigger] self.cache@[m].0) != k,
            decreases j,
        {
            j = j - 1;
            let entry = &self.cache[j];
            let CacheKey::K(r, a) = &entry.0;
            assert(key_view(self.cache@[j as int].0) == (r@, *a as int));
            if *a == at && *r == *rule {
                proof {
                    lemma_cache_map_last(self.cache@, k, j as int);
                }
                return match &entry.1 {
                    Some(p) => Some(p.deep_clone()),
                    None => None,
                };
            }
        }
        proof {
            lemma_cache_map_last(self.cache@, k, -1);
        }
        None
    }

    /// Remembers the outcome `val` for `rule` at `at`.
    fn insert_cache(&mut self, rule: &String, at: usize, val: Option<Parsed>)
        ensures
            final(self)@ == (ParserV {
                st: St { cache: old(self)@.st.cache.insert((rule@, at as int), opt_view(val)), ..old(self)@.st },
                ..old(self)@
            }),
    {
        let ghost c = self.cache@;
        self.cache.push((CacheKey::K(rule.clone(), at), val));
        assert(self.cache@.drop_last() =~= c);
    }

    /// `line L col C` of the token at `at`.
    fn line_col(&self, at: usize) -> (r: String)
        requires
            at < self.tokens@.len(),
        ensures
            r@ == position_text(self@.ctx.tokens[at as int]),
    {
        let t = &self.tokens[at];
        let mut r = String::from_str("line ");
        r.append(decimal_string(t.line()).as_str());
        r.append(" col ");
        r.append(decimal_string(t.column()).as_str());
        r
    }

    /// The index of the rules of `name` in the grammar.
    fn find_rules_index(&self, name: &String) -> (r: Option<usize>)
        ensures
            match r {
                Some(i) => i < self@.ctx.rules.len() && self@.ctx.rules[i as int].0 == name@ && forall|j: int|
                    0 <= j < i ==> #[trigger] self@.ctx.rules[j].0 != name@,
                None => forall|j: int| 0 <= j < self@.ctx.rules.len() ==> #[trigger] self@.ctx.rules[j].0 != name@,
            },
    {
        let ghost g = rules_view(self.grammar.rules@);
        assert(g == self@.ctx.rules);
        let n = self.grammar.rules.len();
        let mut i: usize = 0;
        while i < n
            invariant
                0 <= i <= n,
                n == self.grammar.rules@.len(),
                g == rules_view(self.grammar.rules@),
                forall|j: int| 0 <= j < i ==> #[trigger] g[j].0 != name@,
            decreases n - i,
        {
            assert(g[i as int].0 == self.grammar.rules@[i as int].0@);
            if self.grammar.rules[i].0 == *name {
                return Some(i);
            }
            i = i + 1;
        }
        None
    }

    /// The text that rule `name` gives to its alternative `alt`.
    fn find_rule_val(&self, name: &String, alt: &String) -> (r: Option<String>)
        ensures
            match r {
                Some(v) => find_val(self@.ctx.rules, name@, alt@) == Some(v@),
                None => find_val(self@.ctx.rules, name@, alt@) is None,
            },
    {
        let ghost g = self@.ctx.rules;
        proof {
            lemma_find_val(g, name@, alt@);
        }
        let i = match self.find_rules_index(name) {
            Some(i) => i,
            None => {
                return None;
            },
        };
        assert(g[i as int] == (self.grammar.rules@[i as int].0@, pairs_view(self.grammar.rules@[i as int].1@)));
        let entries = &self.grammar.rules[i].1;
        let ghost pv = g[i as int].1;
        assert(find_val(g, name@, alt@) == find_pair(pv, alt@));
        let mut j: usize = 0;
        while j < entries.len()
            invariant
                0 <= j <= entries@.len(),
                pv == pairs_view(entries@),
                g == self@.ctx.rules,
                find_val(g, name@, alt@) == find_pair(pv, alt@),
                forall|x: int| 0 <= x < j ==> #[trigger] pv[x].0 != alt@,
            decreases entries@.len() - j,
        {
            assert(pv[j as int] == (entries@[j as int].0@, entries@[j as int].1@));
            if entries[j].0 == *alt {
                proof {
                    lemma_find_pair(pv, alt@);
                    assert(pv[j as int].0 == alt@);
                }
                return Some(entries[j].1.clone());
            }
            j = j + 1;
        }
        proof {
            lemma_find_pair(pv, alt@);
            if find_pair(pv, alt@) is Some {
                lemma_find_pair_some(pv, alt@);
            }
        }
        None
    }
}

proof fn lemma_find_pair_some(pairs: Seq<(Seq<char>, Seq<char>)>, key: Seq<char>)
    requires
        find_pair(pairs, key) is Some,
    ensures
        exists|i: int| 0 <= i < pairs.len() && #[trigger] pairs[i].0 == key,
    decreases pairs.len(),
{
    if pairs[0].0 != key {
        lemma_find_pair_some(pairs.drop_first(), key);
        let i = choose|i: int| 0 <= i < pairs.drop_first().len() && #[trigger] pairs.drop_first()[i].0 == key;
        assert(pairs[i + 1] == pairs.drop_first()[i]);
    } else {
        assert(pairs[0].0 == key);
    }
}

/// Two lists of entries for the same alternatives, with the same positions
/// in each, in any order.
pub open spec fn frs_equiv(a: Seq<(Seq<char>, Seq<usize>)>, b: Seq<(Seq<char>, Seq<usize>)>) -> bool {
    &&& a.len() == b.len()
    &&& forall|i: int| #![trigger a[i]] 0 <= i < a.len() ==> a[i].0 == b[i].0 && a[i].1.to_multiset() == b[i].1.to_multiset()
}

proof fn lemma_first_fr_same_rules(a: Seq<(Seq<char>, Seq<usize>)>, b: Seq<(Seq<char>, Seq<usize>)>, r: Seq<char>)
    requires
        a.len() == b.len(),
        forall|i: int| 0 <= i < a.len() ==> #[trigger] a[i].0 == b[i].0,
    ensures
        first_fr(a, r) == first_fr(b, r),
    decreases a.len(),
{
    if a.len() > 0 {
        assert forall|i: int| 0 <= i < a.drop_first().len() implies #[trigger] a.drop_first()[i].0 == b.drop_first()[i].0 by {
            assert(a.drop_first()[i] == a[i + 1]);
            assert(b.drop_first()[i] == b[i + 1]);
        }
        lemma_first_fr_same_rules(a.drop_first(), b.drop_first(), r);
        assert(a[0].0 == b[0].0);
    }
}

proof fn lemma_forb_equiv(a: Seq<(Seq<char>, Seq<usize>)>, b: Seq<(Seq<char>, Seq<usize>)>)
    requires
        frs_equiv(a, b),
    ensures
        forb_set(a) == forb_set(b),
        forall|r: Seq<char>| #[trigger] first_fr(a, r) == first_fr(b, r),
{
    broadcast use vstd::seq_lib::group_to_multiset_ensures;
    assert forall|r: Seq<char>| #[trigger] first_fr(a, r) == first_fr(b, r) by {
        lemma_first_fr_same_rules(a, b, r);
    }
    assert forall|x: (Seq<char>, int)| forb_set(a).contains(x) <==> forb_set(b).contains(x) by {
        lemma_first_fr_same_rules(a, b, x.0);
        lemma_first_fr(a, x.0);
        if let Some(i) = first_fr(a, x.0) {
            if exists|j: int| 0 <= j < a[i].1.len() && #[trigger] a[i].1[j] as int == x.1 {
                let j = choose|j: int| 0 <= j < a[i].1.len() && #[trigger] a[i].1[j] as int == x.1;
                let v = a[i].1[j];
                assert(a[i].1.contains(v));
                assert(b[i].1.to_multiset().count(v) > 0);
                assert(b[i].1.contains(v));
                let j2 = choose|j2: int| 0 <= j2 < b[i].1.len() && b[i].1[j2] == v;
                assert(b[i].1[j2] as int == x.1);
            }
            if exists|j: int| 0 <= j < b[i].1.len() && #[trigger] b[i].1[j] as int == x.1 {
                let j = choose|j: int| 0 <= j < b[i].1.len() && #[trigger] b[i].1[j] as int == x.1;
                let v = b[i].1[j];
                assert(b[i].1.contains(v));
                assert(a[i].1.to_multiset().count(v) > 0);
                assert(a[i].1.contains(v));
                let j2 = choose|j2: int| 0 <= j2 < a[i].1.len() && a[i].1[j2] == v;
                assert(a[i].1[j2] as int == x.1);
            }
        }
    }
    assert(forb_set(a) =~= forb_set(b));
}

proof fn lemma_add_at(frs: Seq<(Seq<char>, Seq<usize>)>, r: Seq<char>, idx: int, q: usize)
    requires
        first_fr(frs, r) == Some(idx),
    ensures
        forb_set(frs.update(idx, (frs[idx].0, frs[idx].1.push(q)))) == forb_set(frs).insert((r, q as int)),
        forall|r2: Seq<char>| #[trigger] first_fr(frs.update(idx, (frs[idx].0, frs[idx].1.push(q))), r2) == first_fr(frs, r2),
{
    let frs2 = frs.update(idx, (frs[idx].0, frs[idx].1.push(q)));
    lemma_first_fr(frs, r);
    assert forall|r2: Seq<char>| #[trigger] first_fr(frs2, r2) == first_fr(frs, r2) by {
        lemma_first_fr_same_rules(frs2, frs, r2);
    }
    assert forall|x: (Seq<char>, int)| forb_set(frs2).contains(x) <==> forb_set(frs).insert((r, q as int)).contains(x) by {
        lemma_first_fr_same_rules(frs2, frs, x.0);
        lemma_first_fr(frs, x.0);
        if let Some(i) = first_fr(frs, x.0) {
            if i == idx {
                assert(x.0 == r);
                if x.1 == q as int {
                    assert(frs2[i].1[frs[i].1.len() as int] as int == x.1);
                }
                if exists|j: int| 0 <= j < frs2[i].1.len() && #[trigger] frs2[i].1[j] as int == x.1 {
                    let j = choose|j: int| 0 <= j < frs2[i].1.len() && #[trigger] frs2[i].1[j] as int == x.1;
                    if j < frs[i].1.len() {
                        assert(frs[i].1[j] as int == x.1);
                    }
                }
                if exists|j: int| 0 <= j < frs[i].1.len() && #[trigger] frs[i].1[j] as int == x.1 {
                    let j = choose|j: int| 0 <= j < frs[i].1.len() && #[trigger] frs[i].1[j] as int == x.1;
                    assert(frs2[i].1[j] as int == x.1);
                }
            } else {
                assert(x.0 != r);
                assert(frs2[i] == frs[i]);
            }
        } else {
            assert(x.0 != r);
        }
    }
    assert(forb_set(frs2) =~= forb_set(frs).insert((r, q as int)));
}

proof fn lemma_remove_restores(
    before: Seq<(Seq<char>, Seq<usize>)>,
    mid: Seq<(Seq<char>, Seq<usize>)>,
    idx: int,
    q: usize,
    i: int,
)
    requires
        0 <= idx < before.len(),
        frs_equiv(mid, before.update(idx, (before[idx].0, before[idx].1.push(q)))),
        0 <= i < mid[idx].1.len(),
        mid[idx].1[i] == q,
    ensures
        frs_equiv(mid.update(idx, (mid[idx].0, mid[idx].1.remove(i))), before),
{
    broadcast use vstd::seq_lib::group_to_multiset_ensures;
    let after = mid.update(idx, (mid[idx].0, mid[idx].1.remove(i)));
    let pushed = before.update(idx, (before[idx].0, before[idx].1.push(q)));
    assert(pushed[idx] == (before[idx].0, before[idx].1.push(q)));
    assert(mid[idx].1.to_multiset() == before[idx].1.push(q).to_multiset());
    assert(after[idx].1.to_multiset() =~= before[idx].1.to_multiset());
    assert forall|j: int| 0 <= j < after.len() implies #[trigger] after[j].0 == before[j].0
        && after[j].1.to_multiset() == before[j].1.to_multiset() by {
        assert(mid[j].0 == pushed[j].0 && mid[j].1.to_multiset() == pushed[j].1.to_multiset());
        if j != idx {
            assert(pushed[j] == before[j]);
            assert(after[j] == mid[j]);
        }
    }
}

/// What `try_alt` reports, the state being the parser's own.
enum ElemOut {
    Matched(Parsed),
    Broke(usize),
    Skipped(usize),
}

/// What `step` reports.
enum StepOut {
    Next(usize, Parsed),
    Stop(Option<ElemOut>),
}

spec fn step_out_matches(out: StepOut, step: Step, st: St) -> bool {
    match (out, step) {
        (StepOut::Next(a, p), Step::Next(st2, a2, pv)) => a as int == a2 && p@ == pv && st == st2,
        (StepOut::Stop(None), Step::Stop(ElemRes::Abort)) => true,
        (StepOut::Stop(Some(o)), Step::Stop(res)) => elem_out_matches(o, res, st),
        _ => false,
    }
}

spec fn elem_out_matches(out: ElemOut, res: ElemRes, st: St) -> bool {
    match (out, res) {
        (ElemOut::Matched(p), ElemRes::Matched(pv, st2)) => p@ == pv && st == st2,
        (ElemOut::Broke(a), ElemRes::Broke(st2, a2)) => a as int == a2 && st == st2,
        (ElemOut::Skipped(a), ElemRes::Skipped(st2, a2)) => a as int == a2 && st == st2,
        _ => false,
    }
}

/// Whether the first bytes of `b` are those of `!Expect:`.
fn has_expect_prefix(b: &[u8]) -> (r: bool)
    requires
        b@.len() >= 8,
    ensures
        r == (b@.take(8) == expect_bytes()),
{
    let r = b[0] == 33 && b[1] == 69 && b[2] == 120 && b[3] == 112 && b[4] == 101 && b[5] == 99 && b[6] == 116
        && b[7] == 58;
    proof {
        if r {
            assert(b@.take(8) =~= expect_bytes());
        } else {
            if b@.take(8) == expect_bytes() {
                assert(b@.take(8)[0] == 33u8);
                assert(b@.take(8)[1] == 69u8);
                assert(b@.take(8)[2] == 120u8);
                assert(b@.take(8)[3] == 112u8);
                assert(b@.take(8)[4] == 101u8);
                assert(b@.take(8)[5] == 99u8);
                assert(b@.take(8)[6] == 116u8);
                assert(b@.take(8)[7] == 58u8);
            }
        }
    }
    r
}

/// The outcome of parsing `name` at `s` with this parser.
pub open spec fn parse_outcome(v: ParserV, name: Seq<char>, s: int) -> ParseRes {
    parse_s(v.ctx, forb_set(v.frs), v.depth, v.st, name, s)
}

/// `b` has every entry of `a` at its place, and possibly more after them.
pub open spec fn extends<T>(a: Seq<T>, b: Seq<T>) -> bool {
    &&& a.len() <= b.len()
    &&& forall|i: int| #![trigger a[i]] 0 <= i < a.len() ==> b[i] == a[i]
}

/// What a parse keeps: well-formedness, the context, the depth counter,
/// the positions being tried, the messages and trace lines already written
/// (new ones come after them) and the alternatives already known to fail.
pub open spec fn frame(a: ParserV, b: ParserV) -> bool {
    &&& parser_wf(b)
    &&& b.ctx == a.ctx
    &&& b.depth == a.depth
    &&& frs_equiv(b.frs, a.frs)
    &&& extends(a.st.messages, b.st.messages)
    &&& extends(a.st.trace, b.st.trace)
    &&& a.st.broken.subset_of(b.st.broken)
}

/// From the remembered outcomes `a` to `b`, nothing is forgotten, and an
/// outcome changes (or appears) only for an alternative tried at a position
/// at or after `s` that `f` does not mark as being tried there, and only
/// where no node was remembered before.
pub open spec fn cache_step(
    a: Map<(Seq<char>, int), Option<ParsedV>>,
    b: Map<(Seq<char>, int), Option<ParsedV>>,
    f: Set<(Seq<char>, int)>,
    s: int,
) -> bool {
    &&& forall|k: (Seq<char>, int)| #[trigger] a.contains_key(k) ==> b.contains_key(k)
    &&& forall|k: (Seq<char>, int)|
        #[trigger] b.contains_key(k) ==> (a.contains_key(k) && b[k] == a[k]) || (k.1 >= s && !f.contains(k) && !(
        a.contains_key(k) && a[k] is Some))
}

proof fn lemma_cache_step_refl(a: Map<(Seq<char>, int), Option<ParsedV>>, f: Set<(Seq<char>, int)>, s: int)
    ensures
        cache_step(a, a, f, s),
{
}

proof fn lemma_cache_step_trans(
    a: Map<(Seq<char>, int), Option<ParsedV>>,
    b: Map<(Seq<char>, int), Option<ParsedV>>,
    c: Map<(Seq<char>, int), Option<ParsedV>>,
    f: Set<(Seq<char>, int)>,
    s: int,
)
    requires
        cache_step(a, b, f, s),
        cache_step(b, c, f, s),
    ensures
        cache_step(a, c, f, s),
{
    assert forall|k: (Seq<char>, int)| #[trigger] c.contains_key(k) implies (a.contains_key(k) && c[k] == a[k]) || (
    k.1 >= s && !f.contains(k) && !(a.contains_key(k) && a[k] is Some)) by {
        if a.contains_key(k) {
            assert(b.contains_key(k));
        }
    }
}

proof fn lemma_cache_step_weaken(
    a: Map<(Seq<char>, int), Option<ParsedV>>,
    b: Map<(Seq<char>, int), Option<ParsedV>>,
    f: Set<(Seq<char>, int)>,
    s: int,
    f2: Set<(Seq<char>, int)>,
    s2: int,
)
    requires
        cache_step(a, b, f, s),
        f2.subset_of(f),
        s2 <= s,
    ensures
        cache_step(a, b, f2, s2),
{
}

proof fn lemma_cache_step_insert(
    a: Map<(Seq<char>, int), Option<ParsedV>>,
    k: (Seq<char>, int),
    v: Option<ParsedV>,
    f: Set<(Seq<char>, int)>,
    s: int,
)
    requires
        k.1 >= s,
        !f.contains(k),
        !(a.contains_key(k) && a[k] is Some),
    ensures
        cache_step(a, a.insert(k, v), f, s),
{
}

proof fn lemma_cache_step_nested(
    a: Map<(Seq<char>, int), Option<ParsedV>>,
    b: Map<(Seq<char>, int), Option<ParsedV>>,
    f: Set<(Seq<char>, int)>,
    r: Seq<char>,
    q: int,
    s: int,
)
    requires
        cache_step(a, b, f.insert((r, q)), q),
        s <= q,
    ensures
        cache_step(a, b, f.insert((r, s)), s),
{
}

/// The elements matched so far, with one more.
proof fn lemma_kids_push(
    ctx: Ctx,
    kbv: Seq<ParsedV>,
    node: ParsedV,
    s: int,
    i: int,
    sv: Seq<Seq<char>>,
    at: int,
    at2: int,
)
    requires
        kbv.len() == i,
        at + i == kid_start(kbv, s, i),
        forall|j: int| 0 <= j < i ==> tree_ok(ctx, #[trigger] kbv[j], kid_start(kbv, s, j)),
        forall|j: int| 0 <= j < i ==> elem_ok(ctx, sv[j], #[trigger] kbv[j]),
        tree_ok(ctx, node, at + i),
        node_end(node) == at2 + i,
        elem_ok(ctx, sv[i], node),
    ensures
        ({
            let kv = kbv.push(node);
            &&& at2 + i + 1 == kid_start(kv, s, i + 1)
            &&& forall|j: int| 0 <= j < i + 1 ==> tree_ok(ctx, #[trigger] kv[j], kid_start(kv, s, j))
            &&& forall|j: int| 0 <= j < i + 1 ==> elem_ok(ctx, sv[j], #[trigger] kv[j])
        }),
{
    let kv = kbv.push(node);
    assert(kv[i] == node);
    assert(kid_start(kv, s, i) == kid_start(kbv, s, i));
    assert forall|j: int| 0 <= j < i + 1 implies tree_ok(ctx, #[trigger] kv[j], kid_start(kv, s, j)) by {
        if j < i {
            assert(kv[j] == kbv[j]);
            assert(kid_start(kv, s, j) == kid_start(kbv, s, j));
        }
    }
    assert forall|j: int| 0 <= j < i + 1 implies elem_ok(ctx, sv[j], #[trigger] kv[j]) by {
        if j < i {
            assert(kv[j] == kbv[j]);
        }
    }
}

fn terminal_line_string(depth: usize, name: &String) -> (r: String)
    ensures
        r@ == terminal_line(depth, name@),
{
    let mut m = decimal_string(depth);
    m.append("::!!!! ");
    m.append(name.as_str());
    m.append(" is terminal");
    m
}

fn mandatory_line_string(depth: usize, r: &String, element: &String) -> (l: String)
    ensures
        l@ == mandatory_line(depth, r@, element@),
{
    let mut m = decimal_string(depth);
    m.append("::!!!! ");
    m.append(r.as_str());
    m.append(":: mandatory::true element::<");
    m.append(element.as_str());
    m.append(">");
    m
}

fn matched_line_string(depth: usize, r: &String, i: usize, pos: usize, val: &String) -> (l: String)
    ensures
        l@ == matched_line(depth, r@, i as nat, pos as nat, val@),
{
    let mut m = decimal_string(depth);
    m.append("::@@@@ Matched ");
    m.append(r.as_str());
    m.append(" ");
    m.append(decimal_string(i).as_str());
    m.append(" & at ");
    m.append(decimal_string(pos).as_str());
    m.append(" ==> ");
    m.append(val.as_str());
    m
}

fn clone_strings(v: &Vec<String>) -> (r: Vec<String>)
    ensures
        strings_view(r@) == strings_view(v@),
{
    let mut r: Vec<String> = Vec::new();
    let mut i: usize = 0;
    while i < v.len()
        invariant
            0 <= i <= v@.len(),
            strings_view(r@) == strings_view(v@).take(i as int),
        decreases v@.len() - i,
    {
        let ghost before = r@;
        r.push(v[i].clone());
        assert(strings_view(r@) =~= strings_view(before).push(v@[i as int]@));
        assert(strings_view(v@).take(i + 1) =~= strings_view(v@).take(i as int).push(v@[i as int]@));
        i = i + 1;
    }
    assert(strings_view(v@).take(i as int) =~= strings_view(v@));
    r
}

impl Parser {
    /// Matches the elements of alternative `r` of rule `nm` at `s`; `None`
    /// where this stops the program.
    #[verifier::rlimit(100)]
    fn try_alt(&mut self, name: &String, nm: &String, r: &String, syntax: &Vec<String>, s: usize) -> (res: Option<ElemOut>)
        requires
            parser_wf(old(self)@),
            strings_view(syntax@) == split_space(r@),
            syntax@.len() >= 1,
            s + syntax@.len() - 1 < old(self)@.ctx.tokens.len(),
            alt_set(old(self)@.ctx).contains(r@),
            !forb_set(old(self)@.frs).contains((r@, s as int)),
            !(old(self)@.st.cache.contains_key((r@, s as int)) && old(self)@.st.cache[(r@, s as int)] is Some),
        ensures
            res is Some ==> cache_step(old(self)@.st.cache, final(self)@.st.cache, forb_set(old(self)@.frs), s as int),
            res matches Some(out) && !(out is Matched) ==> cache_step(
                old(self)@.st.cache,
                final(self)@.st.cache,
                forb_set(old(self)@.frs).insert((r@, s as int)),
                s as int,
            ),
            (res is None) == (elems_s(
                old(self)@.ctx,
                forb_set(old(self)@.frs),
                old(self)@.depth,
                old(self)@.st,
                name@,
                nm@,
                r@,
                split_space(r@),
                0,
                s as int,
                s as int,
                seq![],
            ) is Abort),
            res matches Some(out) ==> {
                &&& elem_out_matches(
                    out,
                    elems_s(
                        old(self)@.ctx,
                        forb_set(old(self)@.frs),
                        old(self)@.depth,
                        old(self)@.st,
                        name@,
                        nm@,
                        r@,
                        split_space(r@),
                        0,
                        s as int,
                        s as int,
                        seq![],
                    ),
                    final(self)@.st,
                )
                &&& frame(old(self)@, final(self)@)
                &&& out matches ElemOut::Matched(p) ==> 1 <= p.count && s <= p.at + p.count - 1 < old(self)@.ctx.tokens.len()
                &&& out matches ElemOut::Matched(p) ==> tree_ok(old(self)@.ctx, p@, s as int)
                &&& out matches ElemOut::Matched(p) ==> p@.p__.len() > 0 && alt_node(old(self)@.ctx, r@, p@)
            },
        decreases old(self)@.ctx.tokens.len() - s, unforbidden(old(self)@.ctx, forb_set(old(self)@.frs), s as int), 2int, 0int,
    {
        let ghost v0 = self@;
        let ghost ctx = v0.ctx;
        let ghost f = forb_set(v0.frs);
        let ghost depth = v0.depth;
        let ghost sv = split_space(r@);
        let ghost total = elems_s(ctx, f, depth, v0.st, name@, nm@, r@, sv, 0, s as int, s as int, seq![]);
        let count = syntax.len();
        let mut at: usize = s;
        let mut kids: Vec<Parsed> = Vec::new();
        let mut i: usize = 0;
        assert(parsed_seq_view(kids@) =~= Seq::<ParsedV>::empty());
        proof {
            lemma_cache_step_refl(v0.st.cache, f.insert((r@, s as int)), s as int);
        }
        while i < count
            invariant
                0 <= i <= count,
                count == syntax@.len() == sv.len(),
                sv == strings_view(syntax@),
                s <= at < ctx.tokens.len(),
                i < count ==> at + i < ctx.tokens.len() || i > 0,
                frame(v0, self@),
                alt_set(ctx).contains(r@),
                !f.contains((r@, s as int)),
                v0 == old(self)@,
                ctx == v0.ctx,
                depth == v0.depth,
                f == forb_set(v0.frs),
                sv == split_space(r@),
                total == elems_s(v0.ctx, forb_set(v0.frs), v0.depth, v0.st, name@, nm@, r@, sv, 0, s as int, s as int, seq![]),
                total == elems_s(ctx, f, depth, self@.st, name@, nm@, r@, sv, i as int, s as int, at as int, parsed_seq_view(kids@)),
                !(v0.st.cache.contains_key((r@, s as int)) && v0.st.cache[(r@, s as int)] is Some),
                cache_step(v0.st.cache, self@.st.cache, f.insert((r@, s as int)), s as int),
                kids@.len() == i,
                at + i == kid_start(parsed_seq_view(kids@), s as int, i as int),
                forall|j: int|
                    0 <= j < i ==> tree_ok(
                        ctx,
                        #[trigger] parsed_seq_view(kids@)[j],
                        kid_start(parsed_seq_view(kids@), s as int, j),
                    ),
                forall|j: int| 0 <= j < i ==> elem_ok(ctx, sv[j], #[trigger] parsed_seq_view(kids@)[j]),
            decreases count - i,
        {
            assert(sv[i as int] == syntax@[i as int]@);
            proof {
                lemma_forb_equiv(self@.frs, v0.frs);
            }
            let ghost before_step = self@;
            let out = self.step(name, r, &syntax[i], i, s, at);
            proof {
                if !(out is Stop && out->Stop_0 is None) {
                    lemma_cache_step_trans(v0.st.cache, before_step.st.cache, self@.st.cache, f.insert((r@, s as int)), s as int);
                }
            }
            match out {
                StepOut::Stop(o) => {
                    proof {
                        if o is Some {
                            lemma_cache_step_weaken(v0.st.cache, self@.st.cache, f.insert((r@, s as int)), s as int, f, s as int);
                        }
                    }
                    return o;
                },
                StepOut::Next(at2, node) => {
                    let ghost at_before = at;
                    at = at2;
                    let ghost kb = kids@;
                    kids.push(node);
                    assert(parsed_seq_view(kids@) =~= parsed_seq_view(kb).push(node@));
                    proof {
                        lemma_kids_push(ctx, parsed_seq_view(kb), node@, s as int, i as int, sv, at_before as int, at as int);
                    }
                    if i == count - 1 {
                        match self.find_rule_val(nm, r) {
                            Some(v) => {
                                let ntok = self.tokens.len();
                                assert(ctx.tokens.len() == ntok);
                                let line = matched_line_string(self.depth, r, i, at + i, &v);
                                self.push_trace(line);
                                let ghost kv = parsed_seq_view(kids@);
                                let p = Parsed::new(at, count, kids, v);
                                let pc = p.deep_clone();
                                let ghost cur = self@.st.cache;
                                proof {
                                    assert(p@.p__ == kv);
                                    assert(find_val(ctx.rules, nm@, r@) == Some(p@.val));
                                    assert forall|j: int| 0 <= j < p@.p__.len() implies elem_ok(
                                        ctx,
                                        split_space(r@)[j],
                                        #[trigger] p@.p__[j],
                                    ) by {
                                        assert(kv[j] == p@.p__[j]);
                                    }
                                    assert(alt_node(ctx, r@, p@));
                                }
                                self.insert_cache(r, s, Some(pc));
                                proof {
                                    reveal(remembered_ok);
                                    lemma_cache_step_weaken(v0.st.cache, cur, f.insert((r@, s as int)), s as int, f, s as int);
                                    lemma_cache_step_insert(cur, (r@, s as int), Some(pc@), f, s as int);
                                    lemma_cache_step_trans(v0.st.cache, cur, self@.st.cache, f, s as int);
                                }
                                return Some(ElemOut::Matched(p));
                            },
                            None => {
                                return None;
                            },
                        }
                    }
                },
            }
            i = i + 1;
        }
        proof {
            lemma_cache_step_weaken(v0.st.cache, self@.st.cache, f.insert((r@, s as int)), s as int, f, s as int);
        }
        Some(ElemOut::Skipped(at))
    }

    /// Matches the `i`-th element `raw` of alternative `r` (tried at `s`)
    /// against the token at `at + i`.
    #[verifier::rlimit(40)]
    fn step(&mut self, name: &String, r: &String, raw: &String, i: usize, s: usize, at: usize) -> (out: StepOut)
        requires
            parser_wf(old(self)@),
            s <= at < old(self)@.ctx.tokens.len(),
            alt_set(old(self)@.ctx).contains(r@),
            !forb_set(old(self)@.frs).contains((r@, s as int)),
        ensures
            step_out_matches(
                out,
                step_s(
                    old(self)@.ctx,
                    forb_set(old(self)@.frs),
                    old(self)@.depth,
                    old(self)@.st,
                    name@,
                    r@,
                    raw@,
                    i as int,
                    s as int,
                    at as int,
                ),
                final(self)@.st,
            ),
            !(out is Stop && out->Stop_0 is None) ==> frame(old(self)@, final(self)@),
            !(out is Stop && out->Stop_0 is None) ==> cache_step(
                old(self)@.st.cache,
                final(self)@.st.cache,
                forb_set(old(self)@.frs).insert((r@, s as int)),
                s as int,
            ),
            out matches StepOut::Next(a, p) ==> at <= a && a + i < old(self)@.ctx.tokens.len() && 1 <= p.count,
            out matches StepOut::Next(a, p) ==> tree_ok(old(self)@.ctx, p@, at + i) && node_end(p@) == a + i,
            out matches StepOut::Next(a, p) ==> elem_ok(old(self)@.ctx, raw@, p@),
        decreases old(self)@.ctx.tokens.len() - s, unforbidden(old(self)@.ctx, forb_set(old(self)@.frs), s as int), 1int, 0int,
    {
        broadcast use group_utf8_lib;
        let ghost v0 = self@;
        let ghost ctx = v0.ctx;
        let ghost f = forb_set(v0.frs);
        let e0 = raw.as_str();
        let e0_bytes = e0.as_bytes();
        let eb_len = e0_bytes.len();
        let ghost eb = encode_utf8(raw@);
        assert(e0.spec_bytes() == eb);
        if eb_len > 8 && !e0.is_char_boundary(8) {
            return StepOut::Stop(None);
        }
        let mandatory = eb_len > 8 && has_expect_prefix(e0_bytes);
        let element: String = if mandatory {
            let (_head, tail) = e0.split_at(8);
            assert(tail.spec_bytes() =~= eb.skip(8));
            tail.to_owned()
        } else {
            raw.clone()
        };
        proof {
            if mandatory {
                encode_utf8_decode_utf8(element@);
            }
            assert(mandatory == (eb.len() > 8 && eb.take(8) == expect_bytes()));
            assert(element@ == (if mandatory { decode_utf8(eb.skip(8)) } else { raw@ }));
        }
        if mandatory {
            let line = mandatory_line_string(self.depth, r, &element);
            self.push_trace(line);
        }
        if i >= self.tokens.len() - at {
            return StepOut::Stop(Some(ElemOut::Skipped(at)));
        }
        let q = at + i;
        let ghost t = ctx.tokens[q as int];
        assert(self.tokens@[q as int]@ == t);
        if *self.tokens[q].token() == element {
            let no_kids: Vec<Parsed> = Vec::new();
            assert(parsed_seq_view(no_kids@) =~= Seq::<ParsedV>::empty());
            let leaf = Parsed::new(q, 1, no_kids, self.tokens[q].string().clone());
            proof {
                reveal(elem_ok);
                assert(element_of(raw@) == element@);
            }
            return StepOut::Next(at, leaf);
        }
        let el = element.as_str();
        let el_bytes = el.as_bytes();
        let ghost elb = encode_utf8(element@);
        assert(el.spec_bytes() == elb);
        if el_bytes.len() == 0 || !el.is_char_boundary(1) {
            return StepOut::Stop(None);
        }
        let first = el_bytes[0];
        if first != 38 {
            self.set_broken(r, s);
            if mandatory {
                let msg = self.expected_message(name, q, &element);
                let ghost mb = self.messages@;
                self.messages.push(msg);
                assert(strings_view(self.messages@) =~= strings_view(mb).push(msg@));
            }
            return StepOut::Stop(Some(ElemOut::Broke(at)));
        }
        let (_amp, rest) = el.split_at(1);
        assert(rest.spec_bytes() =~= elb.skip(1));
        let sub = rest.to_owned();
        proof {
            encode_utf8_decode_utf8(sub@);
        }
        let ghost mid = self@;
        assert(frame(v0, mid)) by {
            broadcast use vstd::seq_lib::group_to_multiset_ensures;
            assert(frs_equiv(mid.frs, v0.frs));
        }
        let out = self.step_sub(name, r, &element, &sub, mandatory, i, s, at);
        proof {
            reveal(elem_ok);
            assert(element_of(raw@) == element@);
            assert(elb[0] == first);
            if !(out is Stop && out->Stop_0 is None) {
                lemma_forb_equiv(self@.frs, mid.frs);
                assert forall|j: int| #![trigger self@.frs[j]] 0 <= j < self@.frs.len() implies self@.frs[j].0 == v0.frs[j].0
                    && self@.frs[j].1.to_multiset() == v0.frs[j].1.to_multiset() by {
                    assert(mid.frs[j] == v0.frs[j]);
                }
            }
        }
        out
    }

    /// Parses the rule `sub` that `element` names, at token `at + i`.
    #[verifier::rlimit(60)]
    fn step_sub(
        &mut self,
        name: &String,
        r: &String,
        element: &String,
        sub: &String,
        mandatory: bool,
        i: usize,
        s: usize,
        at: usize,
    ) -> (out: StepOut)
        requires
            parser_wf(old(self)@),
            s <= at,
            at + i < old(self)@.ctx.tokens.len(),
            alt_set(old(self)@.ctx).contains(r@),
            !forb_set(old(self)@.frs).contains((r@, s as int)),
            sub@ == decode_utf8(encode_utf8(element@).skip(1)),
        ensures
            step_out_matches(
                out,
                sub_rule_s(
                    old(self)@.ctx,
                    forb_set(old(self)@.frs),
                    old(self)@.depth,
                    old(self)@.st,
                    name@,
                    r@,
                    element@,
                    mandatory,
                    i as int,
                    s as int,
                    at as int,
                ),
                final(self)@.st,
            ),
            !(out is Stop && out->Stop_0 is None) ==> frame(old(self)@, final(self)@),
            !(out is Stop && out->Stop_0 is None) ==> cache_step(
                old(self)@.st.cache,
                final(self)@.st.cache,
                forb_set(old(self)@.frs).insert((r@, s as int)),
                s as int,
            ),
            out matches StepOut::Next(a, p) ==> at <= a && a + i < old(self)@.ctx.tokens.len() && 1 <= p.count,
            out matches StepOut::Next(a, p) ==> tree_ok(old(self)@.ctx, p@, at + i) && node_end(p@) == a + i,
            out matches StepOut::Next(a, p) ==> p@.p__.len() > 0,
        decreases old(self)@.ctx.tokens.len() - s, unforbidden(old(self)@.ctx, forb_set(old(self)@.frs), s as int), 0int, 0int,
    {
        let ghost v0 = self@;
        let ghost ctx = v0.ctx;
        let ghost f = forb_set(v0.frs);
        let len = self.tokens.len();
        assert(ctx.tokens.len() == len);
        let q = at + i;
        proof {
            lemma_first_fr(self@.frs, r@);
            assert(all_alts(ctx.keys).to_set().contains(r@));
        }
        let fi = match self.find_forbidden(r) {
            Some(fi) => fi,
            None => {
                return StepOut::Stop(None);
            },
        };
        let ghost before = self@;
        self.forbidden_rules[fi].add_at(q);
        proof {
            lemma_add_at(before.frs, r@, fi as int, q);
            assert(self@.frs =~= before.frs.update(fi as int, (before.frs[fi as int].0, before.frs[fi as int].1.push(q))));
            assert(parser_wf(self@));
            if q == s {
                lemma_unforbidden_insert(ctx, f, r@, s as int);
            }
        }
        let res = self.parse_rec(sub, q);
        let o = match res {
            None => {
                return StepOut::Stop(None);
            },
            Some(o) => o,
        };
        let ghost mid = self@;
        assert(self.forbidden_rules@[fi as int].at@.contains(q)) by {
            broadcast use vstd::seq_lib::group_to_multiset_ensures;
            let pushed = before.frs[fi as int].1.push(q);
            let pf = before.frs.update(fi as int, (before.frs[fi as int].0, pushed));
            assert(pf[fi as int].1 == pushed);
            assert(mid.frs[fi as int].1.to_multiset() == pushed.to_multiset());
            assert(pushed[before.frs[fi as int].1.len() as int] == q);
            assert(pushed.contains(q));
            assert(pushed.to_multiset().count(q) > 0);
            assert(mid.frs[fi as int].1.contains(q));
            assert(mid.frs[fi as int].1 == self.forbidden_rules@[fi as int].at@);
        }
        self.forbidden_rules[fi].remove_at(q);
        proof {
            let ii = choose|ii: int|
                0 <= ii < mid.frs[fi as int].1.len() && mid.frs[fi as int].1[ii] == q && (forall|j: int|
                    0 <= j < ii ==> mid.frs[fi as int].1[j] != q) && self@.frs[fi as int].1 == mid.frs[fi as int].1.remove(ii);
            assert(self@.frs =~= mid.frs.update(fi as int, (mid.frs[fi as int].0, mid.frs[fi as int].1.remove(ii))));
            lemma_remove_restores(before.frs, mid.frs, fi as int, q, ii);
            lemma_forb_equiv(self@.frs, before.frs);
            assert(parser_wf(self@));
            lemma_cache_step_nested(before.st.cache, mid.st.cache, f, r@, q as int, s as int);
        }
        match o {
            Some(p) => {
                assert(p@.at == p.at && p@.count == p.count);
                assert(self@.ctx.tokens.len() == len);
                let at2 = p.at + p.count - 1 - i;
                StepOut::Next(at2, p)
            },
            None => {
                self.set_broken(r, s);
                if mandatory {
                    let msg = self.expected_message(name, q, element);
                    let ghost mb = self.messages@;
                    self.messages.push(msg);
                    assert(strings_view(self.messages@) =~= strings_view(mb).push(msg@));
                }
                StepOut::Stop(Some(ElemOut::Broke(at)))
            },
        }
    }

    /// Writes a trace line.
    fn push_trace(&mut self, line: String)
        ensures
            final(self)@ == (ParserV { st: St { trace: old(self)@.st.trace.push(line@), ..old(self)@.st }, ..old(self)@ }),
    {
        let ghost t = self.trace@;
        self.trace.push(line);
        assert(strings_view(self.trace@) =~= strings_view(t).push(line@));
    }

    /// The message for an element `element` that must match at token `q`.
    fn expected_message(&self, name: &String, q: usize, element: &String) -> (r: String)
        requires
            q < self.tokens@.len(),
        ensures
            r@ == expected_message(name@, self@.ctx.tokens[q as int], element@),
    {
        let mut msg = String::from_str("!!!! ");
        msg.append(name.as_str());
        msg.append(":: Syntax error at ");
        msg.append(self.line_col(q).as_str());
        msg.append(" ");
        msg.append(element.as_str());
        msg.append(" expected");
        msg
    }

    /// Parses `name` at `at_start`; `None` where this stops the program.
    #[verifier::rlimit(60)]
    fn parse_rec(&mut self, name: &String, at_start: usize) -> (r: Option<Option<Parsed>>)
        requires
            parser_wf(old(self)@),
        ensures
            (r is None) == (parse_outcome(old(self)@, name@, at_start as int) is Abort),
            r matches Some(o) ==> {
                &&& parse_outcome(old(self)@, name@, at_start as int) == ParseRes::Done(opt_view(o), final(self)@.st)
                &&& frame(old(self)@, final(self)@)
                &&& cache_step(old(self)@.st.cache, final(self)@.st.cache, forb_set(old(self)@.frs), at_start as int)
                &&& o matches Some(p) ==> 1 <= p.count && at_start <= p.at + p.count - 1 < old(self)@.ctx.tokens.len()
                &&& o matches Some(p) ==> tree_ok(old(self)@.ctx, p@, at_start as int)
                &&& o matches Some(p) ==> p@.p__.len() > 0 && exists|r: Seq<char>|
                    #[trigger] lookup(old(self)@.ctx.keys, name@).0.contains(r) && alt_node(old(self)@.ctx, r, p@)
            },
        decreases old(self)@.ctx.tokens.len() - at_start, unforbidden(old(self)@.ctx, forb_set(old(self)@.frs), at_start as int), 4int, 0int,
    {
        let ghost v0 = self@;
        let ghost ctx = v0.ctx;
        let ghost f = forb_set(v0.frs);
        let d_saved = self.depth;
        self.depth = if d_saved == usize::MAX {
            0
        } else {
            d_saved + 1
        };
        let depth = self.depth;
        assert(depth == next_depth(d_saved));
        let ghost v1 = self@;
        let (alts, terminal, nm): (Vec<String>, bool, String) = match self.find_key_index(name) {
            Some(i) => (clone_strings(&self.keys[i].1), false, name.clone()),
            None => {
                let mut tn = String::from_str("!Terminal:");
                tn.append(name.as_str());
                match self.find_key_index(&tn) {
                    Some(i) => (clone_strings(&self.keys[i].1), true, tn),
                    None => (Vec::new(), false, name.clone()),
                }
            },
        };
        let ghost av = strings_view(alts@);
        proof {
            assert((av, terminal, nm@) == lookup(ctx.keys, name@));
            lemma_find_key_alts(ctx.keys, name@);
            lemma_find_key_alts(ctx.keys, terminal_name(name@));
        }
        if terminal {
            let line = terminal_line_string(depth, name);
            self.push_trace(line);
        }
        let ghost st1 = self@.st;
        let ghost total = alts_s(ctx, f, depth, st1, name@, nm@, av, 0, at_start as int, at_start as int);
        assert(parse_outcome(v0, name@, at_start as int) == finish_parse(ctx, terminal, depth, st1, name@, total));
        let mut at: usize = at_start;
        let mut k: usize = 0;
        while k < alts.len()
            invariant
                0 <= k <= alts@.len(),
                av == strings_view(alts@),
                av == lookup(ctx.keys, name@).0,
                parser_wf(self@),
                self@.ctx == ctx,
                self.depth == depth,
                frs_equiv(self@.frs, v0.frs),
                extends(v0.st.messages, self@.st.messages),
                extends(v0.st.trace, self@.st.trace),
                v0.st.broken.subset_of(self@.st.broken),
                cache_step(v0.st.cache, self@.st.cache, f, at_start as int),
                forall|x: int| 0 <= x < av.len() ==> #[trigger] all_alts(ctx.keys).contains(av[x]),
                total == alts_s(ctx, f, depth, self@.st, name@, nm@, av, k as int, at_start as int, at as int),
                v0 == old(self)@,
                ctx == v0.ctx,
                f == forb_set(v0.frs),
                depth == next_depth(d_saved),
                d_saved == v0.depth,
                parse_outcome(v0, name@, at_start as int) == finish_parse(ctx, terminal, depth, st1, name@, total),
            decreases alts@.len() - k,
        {
            let r = &alts[k];
            assert(av[k as int] == r@);
            proof {
                lemma_forb_equiv(self@.frs, v0.frs);
                lemma_first_fr(self@.frs, r@);
            }
            let fidx = self.find_forbidden(r);
            let forbidden = match fidx {
                Some(fi) => self.forbidden_rules[fi].is_at(at_start),
                None => false,
            };
            proof {
                let fv = self@.frs;
                lemma_forb_equiv(fv, v0.frs);
                lemma_first_fr(fv, r@);
                match fidx {
                    Some(fi) => {
                        let atv = fv[fi as int].1;
                        assert(atv == self.forbidden_rules@[fi as int].at@);
                        if forbidden {
                            let j = choose|j: int| 0 <= j < atv.len() && atv[j] == at_start;
                            assert(atv[j] as int == at_start as int);
                            assert(forb_set(fv).contains((r@, at_start as int)));
                        } else if forb_set(fv).contains((r@, at_start as int)) {
                            let j = choose|j: int| 0 <= j < atv.len() && #[trigger] atv[j] as int == at_start as int;
                            assert(atv[j] == at_start);
                            assert(atv.contains(at_start));
                        }
                    },
                    None => {
                        assert(!forb_set(fv).contains((r@, at_start as int)));
                    },
                }
                assert(forbidden == f.contains((r@, at_start as int)));
            }
            if forbidden || self.is_broken(r, at_start) {
                k = k + 1;
                continue;
            }
            match self.find_cache(r, at_start) {
                Some(p) => {
                    proof {
                        reveal(remembered_ok);
                        assert(av.contains(r@));
                    }
                    self.depth = d_saved;
                    return Some(Some(p));
                },
                None => {},
            }
            let syntax = split_spaces(r);
            let count = syntax.len();
            assert(count == split_space(r@).len());
            if count > self.tokens.len() || at_start > self.tokens.len() - count {
                k = k + 1;
                continue;
            }
            proof {
                assert(split_space(r@).len() >= 1);
                assert(alt_set(ctx).contains(r@));
            }
            let ghost cur = self@;
            let res = self.try_alt(name, &nm, r, &syntax, at_start);
            proof {
                if res is Some {
                    lemma_forb_equiv(cur.frs, v0.frs);
                    lemma_cache_step_trans(v0.st.cache, cur.st.cache, self@.st.cache, f, at_start as int);
                }
            }
            match res {
                None => {
                    return None;
                },
                Some(ElemOut::Matched(p)) => {
                    proof {
                        assert(av.contains(r@));
                    }
                    self.depth = d_saved;
                    return Some(Some(p));
                },
                Some(ElemOut::Broke(at2)) => {
                    let ghost c1 = self@.st.cache;
                    self.insert_cache(r, at_start, None);
                    proof {
                        lemma_cache_step_insert(c1, (r@, at_start as int), None, f, at_start as int);
                        lemma_cache_step_trans(v0.st.cache, c1, self@.st.cache, f, at_start as int);
                    }
                    at = at2;
                },
                Some(ElemOut::Skipped(at2)) => {
                    at = at2;
                },
            }
            k = k + 1;
        }
        if terminal {
            if at < self.tokens.len() {
                let mut msg = decimal_string(depth);
                msg.append("::!!!! ");
                msg.append(name.as_str());
                msg.append(":: Syntax error at ");
                msg.append(self.line_col(at).as_str());
                msg.append(" unexpexted \"");
                msg.append(self.tokens[at].string().as_str());
                msg.append("\"");
                let ghost mb = self.messages@;
                self.messages.push(msg);
                assert(strings_view(self.messages@) =~= strings_view(mb).push(msg@));
            } else {
                return None;
            }
        }
        self.depth = d_saved;
        Some(None)
    }
}

impl Parser {
    /// Parses `name` from token `at_start`. The alternatives of `name` (or,
    /// where there are none, of `!Terminal:name`) are tried longest first.
    /// An alternative is a list of words separated by spaces: a word must
    /// equal the kind of the next token, or be `&` and the name of a rule
    /// parsed there; `!Expect:` before a word writes a syntax error message
    /// when it fails. The first alternative that matches gives the node; each
    /// outcome is remembered for its alternative and position, and an
    /// alternative is not tried again at a position where it failed or where
    /// it is already being tried. `rule` is not used.
    pub fn parse(&mut self, rule: String, name: String, at_start: usize) -> (r: Option<Parsed>)
        requires
            parser_wf(old(self)@),
            parse_outcome(old(self)@, name@, at_start as int) is Done,
        ensures
            parse_outcome(old(self)@, name@, at_start as int) == ParseRes::Done(opt_view(r), final(self)@.st),
            frame(old(self)@, final(self)@),
            cache_step(old(self)@.st.cache, final(self)@.st.cache, forb_set(old(self)@.frs), at_start as int),
            r matches Some(p) ==> 1 <= p.count && at_start <= p.at + p.count - 1 < old(self)@.ctx.tokens.len(),
            r matches Some(p) ==> tree_ok(old(self)@.ctx, p@, at_start as int),
            r matches Some(p) ==> p@.p__.len() > 0 && exists|alt: Seq<char>|
                #[trigger] lookup(old(self)@.ctx.keys, name@).0.contains(alt) && alt_node(old(self)@.ctx, alt, p@),
    {
        match self.parse_rec(&name, at_start) {
            Some(o) => o,
            None => {
                proof {
                    assert(false);
                }
                None
            },
        }
    }

    /// Parses as [`Parser::parse`] does, on every input: `None` where that
    /// parse would stop the program (a rule that calls itself at the same
    /// position with no entry to mark it, an alternative with no text in the
    /// grammar, a position past the tokens, a word that is not valid text at
    /// its `!Expect:` mark); otherwise `Some` of what `parse` returns.
    pub fn try_parse(&mut self, rule: String, name: String, at_start: usize) -> (r: Option<Option<Parsed>>)
        requires
            parser_wf(old(self)@),
        ensures
            (r is None) == (parse_outcome(old(self)@, name@, at_start as int) is Abort),
            r matches Some(o) ==> {
                &&& parse_outcome(old(self)@, name@, at_start as int) == ParseRes::Done(opt_view(o), final(self)@.st)
                &&& frame(old(self)@, final(self)@)
                &&& cache_step(old(self)@.st.cache, final(self)@.st.cache, forb_set(old(self)@.frs), at_start as int)
                &&& o matches Some(p) ==> 1 <= p.count && at_start <= p.at + p.count - 1 < old(self)@.ctx.tokens.len()
                &&& o matches Some(p) ==> tree_ok(old(self)@.ctx, p@, at_start as int)
                &&& o matches Some(p) ==> p@.p__.len() > 0 && exists|alt: Seq<char>|
                    #[trigger] lookup(old(self)@.ctx.keys, name@).0.contains(alt) && alt_node(old(self)@.ctx, alt, p@)
            },
    {
        self.parse_rec(&name, at_start)
    }

    /// The trace lines written so far, in order: for each rule found in its
    /// terminal form, each element marked `!Expect:` that was tried, and each
    /// alternative that matched.
    pub fn trace(&self) -> (r: &Vec<String>)
        ensures
            strings_view(r@) == self@.st.trace,
    {
        &self.trace
    }

    /// The syntax error messages written so far, in order.
    pub fn messages(&self) -> (r: &Vec<String>)
        ensures
            strings_view(r@) == self@.st.messages,
    {
        &self.messages
    }
}

} // verus!

//! The lexer: a table of token kinds, each with a regular expression, turns
//! a source text into a list of tokens ordered by their position.
use vstd::prelude::*;
use vstd::utf8::*;
use vstd::string::StringSliceAdditionalSpecFns;
use vstd::string::StringExecFns;

use crate::line_col;
use crate::pattern::{compile_pattern, find_spans, regex_compiles, regex_matches, spans_well_formed};
use crate::text::{
    lemma_text_lt_order, nonwhite_runs, nonwhite_spans, str_lt, text_lt,
    blank_range, decimal, decimal_string, line_col_of, prefix_chars, space_bytes, substring_bytes,
};

verus! {

/// A token found in the source text: its kind, the text it matched, its
/// byte range and the line and column of its first character.
#[derive(Clone, Debug)]
pub struct Token {
    token: String,
    string: String,
    start: usize,
    end: usize,
    line: usize,
    column: usize,
}

/// The mathematical value of a [`Token`].
pub struct TokenV {
    pub token: Seq<char>,
    pub string: Seq<char>,
    pub start: int,
    pub end: int,
    pub line: int,
    pub column: int,
}

impl View for Token {
    type V = TokenV;

    closed spec fn view(&self) -> TokenV {
        TokenV {
            token: self.token@,
            string: self.string@,
            start: self.start as int,
            end: self.end as int,
            line: self.line as int,
            column: self.column as int,
        }
    }
}

impl Token {
    pub fn new(token: String, string: String, start: usize, end: usize, line: usize, column: usize) -> (t: Token)
        ensures
            t@ == (TokenV {
                token: token@,
                string: string@,
                start: start as int,
                end: end as int,
                line: line as int,
                column: column as int,
            }),
    {
        Token { token, string, start, end, line, column }
    }

    pub fn start(&self) -> (r: usize)
        ensures
            r as int == self@.start,
    {
        self.start
    }

    pub fn line(&self) -> (r: usize)
        ensures
            r as int == self@.line,
    {
        self.line
    }

    pub fn column(&self) -> (r: usize)
        ensures
            r as int == self@.column,
    {
        self.column
    }

    pub fn end(&self) -> (r: usize)
        ensures
            r as int == self@.end,
    {
        self.end
    }

    pub fn string(&self) -> (r: &String)
        ensures
            r@ == self@.string,
    {
        &self.string
    }

    pub fn token(&self) -> (r: &String)
        ensures
            r@ == self@.token,
    {
        &self.token
    }
}

/// The values of a list of tokens.
pub open spec fn tokens_view(ts: Seq<Token>) -> Seq<TokenV> {
    ts.map_values(|t: Token| t@)
}

/// The table of token kinds: each kind with its regular expression, kept
/// in the order of the kinds' names (the order of strings), each name once.
/// The kinds are tried in this order.
pub struct Lexicon {
    tokens: Vec<(String, String)>,
}

impl View for Lexicon {
    type V = Seq<(Seq<char>, Seq<char>)>;

    closed spec fn view(&self) -> Seq<(Seq<char>, Seq<char>)> {
        pairs_of(self.tokens@)
    }
}

/// The values of a list of pairs of strings.
pub open spec fn pairs_of(v: Seq<(String, String)>) -> Seq<(Seq<char>, Seq<char>)> {
    v.map_values(|e: (String, String)| (e.0@, e.1@))
}

/// Kinds in strictly increasing order of their names.
pub open spec fn kinds_sorted(entries: Seq<(Seq<char>, Seq<char>)>) -> bool {
    forall|i: int, j: int| 0 <= i < j < entries.len() ==> text_lt(#[trigger] entries[i].0, #[trigger] entries[j].0)
}

/// Where `kind` belongs among `entries`: after every name before it and
/// before every name after it.
pub open spec fn kind_position(entries: Seq<(Seq<char>, Seq<char>)>, kind: Seq<char>, p: int) -> bool {
    &&& 0 <= p <= entries.len()
    &&& forall|i: int| 0 <= i < p ==> text_lt(#[trigger] entries[i].0, kind)
    &&& forall|i: int| p <= i < entries.len() ==> text_lt(kind, #[trigger] entries[i].0)
}

/// `entries` with `kind` given `pattern`: in place where the kind is there
/// already, otherwise inserted where its name belongs.
pub open spec fn lexicon_insert(
    entries: Seq<(Seq<char>, Seq<char>)>,
    kind: Seq<char>,
    pattern: Seq<char>,
) -> Seq<(Seq<char>, Seq<char>)> {
    if exists|j: int| 0 <= j < entries.len() && #[trigger] entries[j].0 == kind {
        let j = choose|j: int| 0 <= j < entries.len() && #[trigger] entries[j].0 == kind;
        entries.update(j, (kind, pattern))
    } else {
        let p = choose|p: int| kind_position(entries, kind, p);
        entries.insert(p, (kind, pattern))
    }
}

impl Lexicon {
    #[verifier::type_invariant]
    closed spec fn wf(self) -> bool {
        kinds_sorted(self@)
    }

    /// A table with no kinds.
    pub fn new() -> (l: Lexicon)
        ensures
            l@ == Seq::<(Seq<char>, Seq<char>)>::empty(),
    {
        let l = Lexicon { tokens: Vec::new() };
        assert(l@ =~= Seq::<(Seq<char>, Seq<char>)>::empty());
        l
    }

    /// Gives `kind` the expression `pattern`, as a sorted map does.
    pub fn insert(&mut self, kind: String, pattern: String)
        ensures
            final(self)@ == lexicon_insert(old(self)@, kind@, pattern@),
            kinds_sorted(final(self)@),
    {
        proof {
            use_type_invariant(&*self);
        }
        let ghost e = self@;
        let mut tokens: Vec<(String, String)> = Vec::new();
        std::mem::swap(&mut tokens, &mut self.tokens);
        assert(pairs_of(tokens@) == e);
        let mut i: usize = 0;
        while i < tokens.len() && str_lt(tokens[i].0.as_str(), kind.as_str())
            invariant
                0 <= i <= tokens@.len(),
                pairs_of(tokens@) == e,
                kinds_sorted(e),
                forall|x: int| 0 <= x < i ==> text_lt(#[trigger] e[x].0, kind@),
            decreases tokens@.len() - i,
        {
            assert(e[i as int].0 == tokens@[i as int].0@);
            i = i + 1;
        }
        proof {
            if i < tokens@.len() {
                assert(e[i as int].0 == tokens@[i as int].0@);
                assert(!text_lt(e[i as int].0, kind@));
            }
        }
        if i < tokens.len() && tokens[i].0 == kind {
            proof {
                assert(e[i as int].0 == kind@);
                let j = choose|j: int| 0 <= j < e.len() && #[trigger] e[j].0 == kind@;
                if j != i {
                    lemma_text_lt_order(e[j].0, e[i as int].0, kind@);
                    if j < i {
                        assert(text_lt(e[j].0, e[i as int].0));
                    } else {
                        assert(text_lt(e[i as int].0, e[j].0));
                    }
                }
            }
            tokens.set(i, (kind, pattern));
            proof {
                assert(pairs_of(tokens@) =~= e.update(i as int, (kind@, pattern@)));
                assert forall|a: int, b: int| 0 <= a < b < e.len() implies text_lt(
                    #[trigger] pairs_of(tokens@)[a].0,
                    #[trigger] pairs_of(tokens@)[b].0,
                ) by {
                    assert(pairs_of(tokens@)[a].0 == e[a].0);
                    assert(pairs_of(tokens@)[b].0 == e[b].0);
                }
            }
        } else {
            proof {
                assert forall|j: int| 0 <= j < e.len() implies #[trigger] e[j].0 != kind@ by {
                    lemma_text_lt_order(e[j].0, kind@, kind@);
                    if j >= i {
                        lemma_text_lt_order(kind@, e[i as int].0, e[j].0);
                        lemma_text_lt_order(e[i as int].0, kind@, kind@);
                        if j > i {
                            assert(text_lt(e[i as int].0, e[j].0));
                        }
                    }
                }
                assert forall|x: int| i <= x < e.len() implies text_lt(kind@, #[trigger] e[x].0) by {
                    lemma_text_lt_order(e[i as int].0, kind@, e[x].0);
                    lemma_text_lt_order(kind@, e[i as int].0, e[x].0);
                    if x > i {
                        assert(text_lt(e[i as int].0, e[x].0));
                    }
                }
                assert(kind_position(e, kind@, i as int));
                let p = choose|p: int| kind_position(e, kind@, p);
                if p < i {
                    lemma_text_lt_order(e[p].0, kind@, kind@);
                } else if p > i {
                    lemma_text_lt_order(e[i as int].0, kind@, kind@);
                }
                assert(p == i);
            }
            tokens.insert(i, (kind, pattern));
            proof {
                let n = e.insert(i as int, (kind@, pattern@));
                assert(pairs_of(tokens@) =~= n);
                assert forall|a: int, b: int| 0 <= a < b < n.len() implies text_lt(#[trigger] n[a].0, #[trigger] n[b].0) by {
                    if a < i && b < i {
                        assert(n[a] == e[a] && n[b] == e[b]);
                    } else if a < i && b == i {
                        assert(n[a] == e[a]);
                    } else if a < i {
                        assert(n[a] == e[a] && n[b] == e[b - 1]);
                        lemma_text_lt_order(e[a].0, kind@, e[b - 1].0);
                    } else if a == i {
                        assert(n[b] == e[b - 1]);
                    } else {
                        assert(n[a] == e[a - 1] && n[b] == e[b - 1]);
                    }
                }
            }
        }
        self.tokens = tokens;
    }

    /// The kinds with their expressions, in order.
    pub fn entries(&self) -> (r: &Vec<(String, String)>)
        ensures
            pairs_of(r@) == self@,
            kinds_sorted(self@),
    {
        proof {
            use_type_invariant(self);
        }
        &self.tokens
    }
}

/// The regular expression for what no token kind matched: the runs that
/// [`nonwhite_runs`] gives are its matches.
pub open spec fn leftover_pattern() -> Seq<char> {
    "([^\\s]+)"@
}

/// Line and column of byte offset `idx` in `text`.
pub open spec fn position_of(text: Seq<char>, idx: int) -> (int, int) {
    line_col_of(prefix_chars(text, idx))
}

/// Whether byte `i` lies in one of `spans`.
pub open spec fn in_some_span(spans: Seq<(usize, usize)>, i: int) -> bool {
    exists|k: int| 0 <= k < spans.len() && spans[k].0 <= i < #[trigger] spans[k].1
}

/// `bytes` with every byte that lies in one of `spans` replaced by a space.
pub open spec fn blank(bytes: Seq<u8>, spans: Seq<(usize, usize)>) -> Seq<u8> {
    Seq::new(bytes.len(), |i: int| if in_some_span(spans, i) { 32u8 } else { bytes[i] })
}

/// The tokens of kind `kind` for the matches `spans` in `scratch`.
pub open spec fn match_tokens(
    kind: Seq<char>,
    scratch: Seq<u8>,
    spans: Seq<(usize, usize)>,
    text: Seq<char>,
) -> Seq<TokenV> {
    Seq::new(
        spans.len(),
        |k: int|
            TokenV {
                token: kind,
                string: decode_utf8(scratch.subrange(spans[k].0 as int, spans[k].1 as int)),
                start: spans[k].0 as int,
                end: spans[k].1 as int,
                line: position_of(text, spans[k].0 as int).0,
                column: position_of(text, spans[k].0 as int).1,
            },
    )
}

/// The tokens found by the first `entries.len()` kinds, in the order found,
/// and the text with everything they matched blanked out (as bytes).
pub open spec fn scan(entries: Seq<(Seq<char>, Seq<char>)>, text: Seq<char>) -> (Seq<TokenV>, Seq<u8>)
    decreases entries.len(),
{
    if entries.len() == 0 {
        (seq![], encode_utf8(text))
    } else {
        let (tokens, scratch) = scan(entries.drop_last(), text);
        let spans = regex_matches(entries.last().1, decode_utf8(scratch));
        (tokens + match_tokens(entries.last().0, scratch, spans, text), blank(scratch, spans))
    }
}

/// Whether every start in `spans` is a character boundary of `text`.
pub open spec fn starts_on_boundaries(spans: Seq<(usize, usize)>, text: Seq<char>) -> bool {
    forall|k: int| 0 <= k < spans.len() ==> is_char_boundary(encode_utf8(text), #[trigger] spans[k].0 as int)
}

/// Whether scanning with `entries` runs to its end: every expression
/// compiles and every match starts on a character boundary of the text.
pub open spec fn scan_defined(entries: Seq<(Seq<char>, Seq<char>)>, text: Seq<char>) -> bool
    decreases entries.len(),
{
    entries.len() == 0 || {
        &&& scan_defined(entries.drop_last(), text)
        &&& regex_compiles(entries.last().1)
        &&& starts_on_boundaries(
            regex_matches(entries.last().1, decode_utf8(scan(entries.drop_last(), text).1)),
            text,
        )
    }
}

/// The runs of what no kind matched that are not white space.
pub open spec fn leftovers(entries: Seq<(Seq<char>, Seq<char>)>, text: Seq<char>) -> Seq<(usize, usize)> {
    nonwhite_runs(decode_utf8(scan(entries, text).1))
}

/// Whether `lex` runs to its end on these arguments.
pub open spec fn lex_defined(entries: Seq<(Seq<char>, Seq<char>)>, text: Seq<char>) -> bool {
    &&& scan_defined(entries, text)
    &&& starts_on_boundaries(leftovers(entries, text), text)
}

/// The report line for a piece of text that no kind matched.
pub open spec fn invalid_message(text: Seq<char>, scratch: Seq<u8>, span: (usize, usize)) -> Seq<char> {
    let (line, column) = position_of(text, span.0 as int);
    "lex invalid \""@ + decode_utf8(scratch.subrange(span.0 as int, span.1 as int)) + "\" at line:"@
        + decimal(line as nat) + " col:"@ + decimal(column as nat) + " index:"@ + decimal(span.0 as nat)
        + "\n"@
}

/// The report lines for all of `spans`, in order.
pub open spec fn invalid_report(text: Seq<char>, scratch: Seq<u8>, spans: Seq<(usize, usize)>) -> Seq<char>
    decreases spans.len(),
{
    if spans.len() == 0 {
        seq![]
    } else {
        invalid_report(text, scratch, spans.drop_last()) + invalid_message(text, scratch, spans.last())
    }
}

/// `t` placed into `sorted` after every token that does not start later.
pub open spec fn insert_by_start(sorted: Seq<TokenV>, t: TokenV) -> Seq<TokenV>
    decreases sorted.len(),
{
    if sorted.len() == 0 {
        seq![t]
    } else if sorted.last().start <= t.start {
        sorted.push(t)
    } else {
        insert_by_start(sorted.drop_last(), t).push(sorted.last())
    }
}

/// `ts` stably sorted by start.
pub open spec fn sort_by_start(ts: Seq<TokenV>) -> Seq<TokenV>
    decreases ts.len(),
{
    if ts.len() == 0 {
        seq![]
    } else {
        insert_by_start(sort_by_start(ts.drop_last()), ts.last())
    }
}

/// What `lex` returns: the report of whatever no kind matched, or else all
/// tokens sorted by start.
pub open spec fn lex_result(entries: Seq<(Seq<char>, Seq<char>)>, text: Seq<char>) -> Result<Seq<TokenV>, Seq<char>> {
    let (tokens, scratch) = scan(entries, text);
    let bad = leftovers(entries, text);
    if bad.len() > 0 {
        Err(invalid_report(text, scratch, bad))
    } else {
        Ok(sort_by_start(tokens))
    }
}

/// The value of a result of `lex`.
pub open spec fn lex_result_view(r: Result<Vec<Token>, String>) -> Result<Seq<TokenV>, Seq<char>> {
    match r {
        Ok(v) => Ok(tokens_view(v@)),
        Err(e) => Err(e@),
    }
}

/// Inserting at the first index from which every token starts later.
proof fn lemma_insert_by_start_index(sorted: Seq<TokenV>, t: TokenV, k: int)
    requires
        0 <= k <= sorted.len(),
        forall|i: int| k <= i < sorted.len() ==> #[trigger] sorted[i].start > t.start,
        k > 0 ==> sorted[k - 1].start <= t.start,
    ensures
        insert_by_start(sorted, t) == sorted.insert(k, t),
    decreases sorted.len(),
{
    if sorted.len() == 0 {
        assert(sorted.insert(k, t) =~= seq![t]);
    } else if sorted.last().start <= t.start {
        assert(sorted.insert(k, t) =~= sorted.push(t));
    } else {
        let init = sorted.drop_last();
        lemma_insert_by_start_index(init, t, k);
        assert(init.insert(k, t).push(sorted.last()) =~= sorted.insert(k, t));
    }
}

/// Stable insertion sort of tokens by their start.
pub fn sort_tokens(tokens: Vec<Token>) -> (r: Vec<Token>)
    ensures
        tokens_view(r@) == sort_by_start(tokens_view(tokens@)),
{
    let ghost orig = tokens_view(tokens@);
    let mut rest = tokens;
    let mut sorted: Vec<Token> = Vec::new();
    let ghost mut done: int = 0;
    while rest.len() > 0
        invariant
            0 <= done <= orig.len(),
            tokens_view(rest@) == orig.skip(done),
            rest@.len() == orig.len() - done,
            tokens_view(sorted@) == sort_by_start(orig.take(done)),
        decreases rest.len(),
    {
        let ghost old_rest = rest@;
        assert(old_rest[0]@ == tokens_view(old_rest)[0]);
        let t = rest.remove(0);
        assert(t@ == orig[done]);
        assert forall|i: int| 0 <= i < rest@.len() implies #[trigger] tokens_view(rest@)[i] == orig.skip(done + 1)[i] by {
            assert(rest@[i] == old_rest[i + 1]);
            assert(tokens_view(old_rest)[i + 1] == old_rest[i + 1]@);
        }
        assert(tokens_view(rest@) =~= orig.skip(done + 1));
        let mut k = sorted.len();
        while k > 0 && sorted[k - 1].start > t.start
            invariant
                0 <= k <= sorted.len(),
                forall|i: int| k <= i < sorted.len() ==> #[trigger] sorted@[i].start > t.start,
            decreases k,
        {
            k = k - 1;
        }
        let ghost before = tokens_view(sorted@);
        proof {
            lemma_insert_by_start_index(before, t@, k as int);
            assert(orig.take(done + 1).drop_last() =~= orig.take(done));
        }
        sorted.insert(k, t);
        assert(tokens_view(sorted@) =~= before.insert(k as int, t@));
        proof {
            done = done + 1;
        }
    }
    assert(orig.take(done) =~= orig);
    sorted
}

/// Scanning that runs to its end also runs to the end of each prefix.
proof fn lemma_scan_defined_prefix(entries: Seq<(Seq<char>, Seq<char>)>, text: Seq<char>, j: int)
    requires
        0 <= j <= entries.len(),
        scan_defined(entries, text),
    ensures
        scan_defined(entries.take(j), text),
    decreases entries.len() - j,
{
    if j == entries.len() {
        assert(entries.take(j) =~= entries);
    } else {
        lemma_scan_defined_prefix(entries, text, j + 1);
        assert(entries.take(j + 1).drop_last() =~= entries.take(j));
    }
}

/// Scanning keeps the length of the text in bytes.
proof fn lemma_scan_len(entries: Seq<(Seq<char>, Seq<char>)>, text: Seq<char>)
    ensures
        scan(entries, text).1.len() == encode_utf8(text).len(),
    decreases entries.len(),
{
    if entries.len() > 0 {
        lemma_scan_len(entries.drop_last(), text);
    }
}

/// Blanking one more range, that comes after all the others.
proof fn lemma_blank_step(bytes: Seq<u8>, spans: Seq<(usize, usize)>, j: int)
    requires
        0 <= j < spans.len(),
        spans_well_formed(spans, bytes),
    ensures
        blank(bytes, spans.take(j + 1)) =~= blank(bytes, spans.take(j)).subrange(0, spans[j].0 as int)
            + space_bytes((spans[j].1 - spans[j].0) as nat) + blank(bytes, spans.take(j)).subrange(
            spans[j].1 as int,
            bytes.len() as int,
        ),
{
    let cur = blank(bytes, spans.take(j));
    let nxt = blank(bytes, spans.take(j + 1));
    let (s, e) = spans[j];
    let rhs = cur.subrange(0, s as int) + space_bytes((e - s) as nat) + cur.subrange(e as int, bytes.len() as int);
    assert forall|i: int| 0 <= i < bytes.len() implies #[trigger] nxt[i] == rhs[i] by {
        if s <= i < e {
            assert(spans.take(j + 1)[j] == spans[j]);
            assert(in_some_span(spans.take(j + 1), i));
        } else {
            if in_some_span(spans.take(j + 1), i) {
                let k = choose|k: int| 0 <= k < spans.take(j + 1).len() && spans.take(j + 1)[k].0 <= i < #[trigger] spans.take(j + 1)[k].1;
                assert(k != j);
                assert(spans.take(j)[k] == spans[k]);
                assert(in_some_span(spans.take(j), i));
            }
            if in_some_span(spans.take(j), i) {
                let k = choose|k: int| 0 <= k < spans.take(j).len() && spans.take(j)[k].0 <= i < #[trigger] spans.take(j)[k].1;
                assert(spans.take(j + 1)[k] == spans[k]);
                assert(in_some_span(spans.take(j + 1), i));
            }
        }
    }
}

/// The bytes of a range that comes after the blanked ones are untouched.
proof fn lemma_blank_untouched(bytes: Seq<u8>, spans: Seq<(usize, usize)>, j: int, i: int)
    requires
        0 <= j < spans.len(),
        spans_well_formed(spans, bytes),
        spans[j].0 <= i < bytes.len(),
    ensures
        blank(bytes, spans.take(j))[i] == bytes[i],
{
    if in_some_span(spans.take(j), i) {
        let k = choose|k: int| 0 <= k < spans.take(j).len() && spans.take(j)[k].0 <= i < #[trigger] spans.take(j)[k].1;
        assert(spans.take(j)[k] == spans[k]);
        assert(spans[k].1 <= spans[j].0);
    }
}

/// Each token's text takes exactly the bytes from its start to its end, and
/// these lie within a text of `n` bytes.
pub open spec fn texts_fit_spans(ts: Seq<TokenV>, n: int) -> bool {
    forall|i: int|
        0 <= i < ts.len() ==> {
            &&& 0 <= #[trigger] ts[i].start <= ts[i].end <= n
            &&& encode_utf8(ts[i].string).len() == ts[i].end - ts[i].start
        }
}

proof fn lemma_texts_fit_spans_perm(a: Seq<TokenV>, b: Seq<TokenV>, n: int)
    requires
        texts_fit_spans(a, n),
        a.to_multiset() == b.to_multiset(),
    ensures
        texts_fit_spans(b, n),
{
    broadcast use vstd::seq_lib::group_to_multiset_ensures;
    assert forall|i: int| 0 <= i < b.len() implies {
        &&& 0 <= #[trigger] b[i].start <= b[i].end <= n
        &&& encode_utf8(b[i].string).len() == b[i].end - b[i].start
    } by {
        assert(b.to_multiset().count(b[i]) > 0);
        assert(a.contains(b[i]));
        let k = choose|k: int| 0 <= k < a.len() && a[k] == b[i];
        assert(a[k].start == b[i].start);
    }
}

/// The tokens of kind `kind` for the matches `spans` found in `scratch`
/// (what earlier kinds left of `text`), and `scratch` with those matches
/// blanked out; `None` where a match starts inside a character of `text`.
pub fn tokens_of_matches(
    kind: &String,
    scratch: &String,
    spans: &Vec<(usize, usize)>,
    text: &String,
) -> (r: Option<(Vec<Token>, String)>)
    requires
        encode_utf8(text@).len() < usize::MAX,
        encode_utf8(scratch@).len() == encode_utf8(text@).len(),
        spans_well_formed(spans@, encode_utf8(scratch@)),
    ensures
        r is Some <==> starts_on_boundaries(spans@, text@),
        r matches Some((ts, sc)) ==> {
            &&& tokens_view(ts@) == match_tokens(kind@, encode_utf8(scratch@), spans@, text@)
            &&& encode_utf8(sc@) == blank(encode_utf8(scratch@), spans@)
            &&& texts_fit_spans(tokens_view(ts@), encode_utf8(text@).len() as int)
        },
{
    broadcast use group_utf8_lib;
    let ghost tbytes = encode_utf8(text@);
    let ghost scr0 = encode_utf8(scratch@);
    let sc = scratch.clone();
    let mut out: String = scratch.clone();
    let mut tokens: Vec<Token> = Vec::new();
    let mut j: usize = 0;
    assert(spans@.take(0) =~= Seq::<(usize, usize)>::empty());
    assert(blank(scr0, spans@.take(0)) =~= scr0);
    assert(match_tokens(kind@, scr0, spans@.take(0), text@) =~= Seq::<TokenV>::empty());
    assert(tokens_view(tokens@) =~= Seq::<TokenV>::empty());
    while j < spans.len()
        invariant
            tbytes == encode_utf8(text@),
            tbytes.len() < usize::MAX,
            scr0 == encode_utf8(sc@),
            scr0 == encode_utf8(scratch@),
            scr0.len() == tbytes.len(),
            spans_well_formed(spans@, scr0),
            0 <= j <= spans@.len(),
            starts_on_boundaries(spans@.take(j as int), text@),
            encode_utf8(out@) == blank(scr0, spans@.take(j as int)),
            tokens_view(tokens@) == match_tokens(kind@, scr0, spans@.take(j as int), text@),
            texts_fit_spans(tokens_view(tokens@), tbytes.len() as int),
        decreases spans@.len() - j,
    {
        let (s, e) = spans[j];
        assert(spans@[j as int] == (s, e));
        if !text.as_str().is_char_boundary(s) {
            proof {
                assert(!starts_on_boundaries(spans@, text@));
            }
            return None;
        }
        let (line, column) = line_col(text.clone(), s);
        let string = substring_bytes(sc.as_str(), s, e);
        let t = Token::new(kind.clone(), string, s, e, line, column);
        let ghost cur = encode_utf8(out@);
        proof {
            encode_utf8_valid_utf8(sc@);
            encode_utf8_valid_utf8(out@);
            if s < scr0.len() {
                lemma_blank_untouched(scr0, spans@, j as int, s as int);
            }
            if e < scr0.len() {
                lemma_blank_untouched(scr0, spans@, j as int, e as int);
            }
            crate::text::lemma_boundary_by_byte(scr0, cur, s as int);
            crate::text::lemma_boundary_by_byte(scr0, cur, e as int);
        }
        out = blank_range(&out, s, e);
        let ghost before = tokens@;
        tokens.push(t);
        assert(tokens_view(tokens@) =~= tokens_view(before).push(t@));
        assert(texts_fit_spans(tokens_view(tokens@), tbytes.len() as int)) by {
            assert(tokens_view(tokens@).last() == t@);
            assert(encode_utf8(t@.string).len() == e - s);
        }
        proof {
            lemma_blank_step(scr0, spans@, j as int);
            assert(spans@.take(j + 1).drop_last() =~= spans@.take(j as int));
            assert(match_tokens(kind@, scr0, spans@.take(j + 1), text@) =~= match_tokens(
                kind@,
                scr0,
                spans@.take(j as int),
                text@,
            ).push(t@));
            assert forall|k: int| 0 <= k < spans@.take(j + 1).len() implies is_char_boundary(
                encode_utf8(text@),
                #[trigger] spans@.take(j + 1)[k].0 as int,
            ) by {
                if k < j {
                    assert(spans@.take(j + 1)[k] == spans@.take(j as int)[k]);
                }
            }
        }
        j = j + 1;
    }
    proof {
        assert(spans@.take(j as int) =~= spans@);
    }
    Some((tokens, out))
}

/// The report of the pieces `bad` of `scratch` (what the kinds left of
/// `text`) that no kind matched; `None` where a piece starts inside a
/// character of `text`.
pub fn leftover_report(text: &String, scratch: &String, bad: &Vec<(usize, usize)>) -> (r: Option<String>)
    requires
        encode_utf8(text@).len() < usize::MAX,
        encode_utf8(scratch@).len() == encode_utf8(text@).len(),
        spans_well_formed(bad@, encode_utf8(scratch@)),
    ensures
        r is Some <==> starts_on_boundaries(bad@, text@),
        r matches Some(e) ==> e@ == invalid_report(text@, encode_utf8(scratch@), bad@),
{
    broadcast use group_utf8_lib;
    let ghost tbytes = encode_utf8(text@);
    let ghost scr = encode_utf8(scratch@);
    let mut errors = String::new();
    let mut j: usize = 0;
    assert(bad@.take(0) =~= Seq::<(usize, usize)>::empty());
    while j < bad.len()
        invariant
            tbytes == encode_utf8(text@),
            tbytes.len() < usize::MAX,
            scr == encode_utf8(scratch@),
            scr.len() == tbytes.len(),
            spans_well_formed(bad@, scr),
            0 <= j <= bad@.len(),
            starts_on_boundaries(bad@.take(j as int), text@),
            errors@ == invalid_report(text@, scr, bad@.take(j as int)),
        decreases bad@.len() - j,
    {
        let (s, e) = bad[j];
        assert(bad@[j as int] == (s, e));
        if !text.as_str().is_char_boundary(s) {
            proof {
                assert(!starts_on_boundaries(bad@, text@));
            }
            return None;
        }
        let (line, column) = line_col(text.clone(), s);
        let piece = substring_bytes(scratch.as_str(), s, e);
        let line_s = decimal_string(line);
        let column_s = decimal_string(column);
        let index_s = decimal_string(s);
        errors.append("lex invalid \"");
        errors.append(piece.as_str());
        errors.append("\" at line:");
        errors.append(line_s.as_str());
        errors.append(" col:");
        errors.append(column_s.as_str());
        errors.append(" index:");
        errors.append(index_s.as_str());
        errors.append("\n");
        proof {
            assert(bad@.take(j + 1).drop_last() =~= bad@.take(j as int));
            assert(bad@.take(j + 1).last() == (s, e));
            assert forall|k: int| 0 <= k < bad@.take(j + 1).len() implies is_char_boundary(
                encode_utf8(text@),
                #[trigger] bad@.take(j + 1)[k].0 as int,
            ) by {
                if k < j {
                    assert(bad@.take(j + 1)[k] == bad@.take(j as int)[k]);
                }
            }
        }
        j = j + 1;
    }
    assert(bad@.take(j as int) =~= bad@);
    Some(errors)
}

/// Runs the lexer; `None` where the lexer could not run to its end (an
/// expression that does not compile, or a match that starts inside a
/// character of the text).
fn lex_checked(lexicon: &Lexicon, text: &String) -> (r: Option<Result<Vec<Token>, String>>)
    requires
        encode_utf8(text@).len() < usize::MAX,
    ensures
        r is Some <==> lex_defined(lexicon@, text@),
        r matches Some(res) ==> lex_result_view(res) == lex_result(lexicon@, text@),
        r matches Some(Ok(ts)) ==> texts_fit_spans(tokens_view(ts@), encode_utf8(text@).len() as int),
{
    broadcast use group_utf8_lib;
    let ghost entries = lexicon@;
    let ghost tbytes = encode_utf8(text@);
    let mut scratch: String = text.clone();
    let mut tokens: Vec<Token> = Vec::new();
    let n = lexicon.tokens.len();
    let mut i: usize = 0;
    assert(entries.take(0) =~= seq![]);
    while i < n
        invariant
            n == lexicon.tokens@.len() == entries.len(),
            entries == lexicon@,
            tbytes == encode_utf8(text@),
            tbytes.len() < usize::MAX,
            0 <= i <= n,
            scan_defined(entries.take(i as int), text@),
            encode_utf8(scratch@) == scan(entries.take(i as int), text@).1,
            tokens_view(tokens@) == scan(entries.take(i as int), text@).0,
            texts_fit_spans(tokens_view(tokens@), tbytes.len() as int),
        decreases n - i,
    {
        let ghost pre = entries.take(i as int);
        let ghost scr0 = encode_utf8(scratch@);
        proof {
            assert(entries.take(i + 1).drop_last() =~= pre);
            assert(entries.take(i + 1).last() == entries[i as int]);
            assert(entries[i as int] == (lexicon.tokens@[i as int].0@, lexicon.tokens@[i as int].1@));
            lemma_scan_len(pre, text@);
        }
        let kind = &lexicon.tokens[i].0;
        let pat = &lexicon.tokens[i].1;
        let compiled = compile_pattern(pat.as_str());
        let p = match compiled {
            Some(p) => p,
            None => {
                proof {
                    if lex_defined(entries, text@) {
                        lemma_scan_defined_prefix(entries, text@, i + 1);
                    }
                }
                return None;
            },
        };
        let sc = scratch.clone();
        let spans = find_spans(&p, sc.as_str());
        proof {
            encode_utf8_decode_utf8(sc@);
            assert(decode_utf8(scr0) == sc@);
        }
        let step = tokens_of_matches(kind, &scratch, &spans, text);
        let (found, blanked) = match step {
            Some(x) => x,
            None => {
                proof {
                    if lex_defined(entries, text@) {
                        lemma_scan_defined_prefix(entries, text@, i + 1);
                    }
                }
                return None;
            },
        };
        let ghost tb = tokens@;
        let mut found = found;
        tokens.append(&mut found);
        scratch = blanked;
        proof {
            assert(tokens_view(tokens@) =~= tokens_view(tb) + match_tokens(kind@, scr0, spans@, text@));
            assert(scan(entries.take(i + 1), text@).1 == blank(scr0, spans@));
            assert(texts_fit_spans(tokens_view(tokens@), tbytes.len() as int)) by {
                let a = tokens_view(tb);
                let b = match_tokens(kind@, scr0, spans@, text@);
                assert forall|x: int| 0 <= x < tokens_view(tokens@).len() implies {
                    &&& 0 <= #[trigger] tokens_view(tokens@)[x].start <= tokens_view(tokens@)[x].end <= tbytes.len()
                    &&& encode_utf8(tokens_view(tokens@)[x].string).len() == tokens_view(tokens@)[x].end - tokens_view(tokens@)[x].start
                } by {
                    if x < a.len() {
                        assert(tokens_view(tokens@)[x] == a[x]);
                    } else {
                        assert(tokens_view(tokens@)[x] == b[x - a.len()]);
                    }
                }
            }
        }
        i = i + 1;
    }
    assert(entries.take(n as int) =~= entries);
    let ghost scr = encode_utf8(scratch@);
    proof {
        encode_utf8_decode_utf8(scratch@);
        lemma_scan_len(entries, text@);
    }
    let bad = nonwhite_spans(&scratch);
    let errors = match leftover_report(text, &scratch, &bad) {
        Some(e) => e,
        None => {
            return None;
        },
    };
    if bad.len() > 0 {
        return Some(Err(errors));
    }
    let ghost found = tokens_view(tokens@);
    let sorted = sort_tokens(tokens);
    proof {
        lemma_sort_by_start_props(found);
        lemma_texts_fit_spans_perm(found, tokens_view(sorted@), tbytes.len() as int);
    }
    Some(Ok(sorted))
}

/// Lexes `text` with the kinds of `lexicon`, tried in order: each kind's
/// expression is matched against what earlier kinds left, each match becomes
/// a token and is blanked out. What is left that is not white space is
/// reported as an error; otherwise the tokens come sorted by their start.
pub fn lex(lexicon: Lexicon, text: String) -> (r: Result<Vec<Token>, String>)
    requires
        lex_defined(lexicon@, text@),
        encode_utf8(text@).len() < usize::MAX,
    ensures
        lex_result_view(r) == lex_result(lexicon@, text@),
        r matches Ok(ts) ==> texts_fit_spans(tokens_view(ts@), encode_utf8(text@).len() as int),
{
    match lex_checked(&lexicon, &text) {
        Some(r) => r,
        None => {
            proof {
                assert(false);
            }
            Err(String::new())
        },
    }
}

/// Lexes `text` as [`lex`] does where that runs to its end, and returns
/// `None` where it would not (an expression that does not compile, or a
/// match that starts inside a character of `text`).
pub fn try_lex(lexicon: Lexicon, text: String) -> (r: Option<Result<Vec<Token>, String>>)
    requires
        encode_utf8(text@).len() < usize::MAX,
    ensures
        r is Some <==> lex_defined(lexicon@, text@),
        r matches Some(res) ==> lex_result_view(res) == lex_result(lexicon@, text@),
        r matches Some(Ok(ts)) ==> texts_fit_spans(tokens_view(ts@), encode_utf8(text@).len() as int),
{
    lex_checked(&lexicon, &text)
}

/// `lex` succeeds exactly when everything the kinds left of the text (the
/// text with every token blanked out) is white space: tab, line feed,
/// vertical tab, form feed, carriage return, space, U+0085, U+00A0, U+1680,
/// U+2000 to U+200A, U+2028, U+2029, U+202F, U+205F or U+3000.
pub proof fn lemma_lex_ok_iff_only_white_left(entries: Seq<(Seq<char>, Seq<char>)>, text: Seq<char>)
    ensures
        lex_result(entries, text) is Ok <==> forall|j: int|
            0 <= j < decode_utf8(scan(entries, text).1).len() ==> {
                let u = #[trigger] decode_utf8(scan(entries, text).1)[j] as u32;
                ||| 9 <= u <= 13
                ||| u == 32
                ||| u == 0x85
                ||| u == 0xA0
                ||| u == 0x1680
                ||| 0x2000 <= u <= 0x200A
                ||| u == 0x2028
                ||| u == 0x2029
                ||| u == 0x202F
                ||| u == 0x205F
                ||| u == 0x3000
            },
{
    crate::text::lemma_no_runs_iff_white(decode_utf8(scan(entries, text).1));
}

/// Tokens in order of their start.
pub open spec fn sorted_by_start(ts: Seq<TokenV>) -> bool {
    forall|i: int, j: int| 0 <= i < j < ts.len() ==> #[trigger] ts[i].start <= #[trigger] ts[j].start
}

proof fn lemma_insert_by_start_props(sorted: Seq<TokenV>, t: TokenV)
    requires
        sorted_by_start(sorted),
    ensures
        sorted_by_start(insert_by_start(sorted, t)),
        insert_by_start(sorted, t).to_multiset() =~= sorted.to_multiset().insert(t),
    decreases sorted.len(),
{
    broadcast use vstd::seq_lib::group_to_multiset_ensures;
    if sorted.len() == 0 {
        assert(seq![t] =~= Seq::<TokenV>::empty().push(t));
    } else if sorted.last().start <= t.start {
    } else {
        let init = sorted.drop_last();
        let last = sorted.last();
        assert(init.push(last) =~= sorted);
        lemma_insert_by_start_props(init, t);
        let r = insert_by_start(init, t);
        assert forall|i: int| 0 <= i < r.len() implies #[trigger] r[i].start <= last.start by {
            assert(r.to_multiset().count(r[i]) > 0);
            if r[i] != t {
                assert(init.to_multiset().count(r[i]) > 0);
                assert(init.contains(r[i]));
                let k = choose|k: int| 0 <= k < init.len() && init[k] == r[i];
                assert(sorted[k] == init[k]);
            }
        }
    }
}

proof fn lemma_sort_by_start_props(ts: Seq<TokenV>)
    ensures
        sorted_by_start(sort_by_start(ts)),
        sort_by_start(ts).to_multiset() =~= ts.to_multiset(),
    decreases ts.len(),
{
    broadcast use vstd::seq_lib::group_to_multiset_ensures;
    if ts.len() > 0 {
        lemma_sort_by_start_props(ts.drop_last());
        lemma_insert_by_start_props(sort_by_start(ts.drop_last()), ts.last());
        assert(ts.drop_last().push(ts.last()) =~= ts);
    }
}

/// The tokens that `lex` returns come in order of their start and are
/// exactly the tokens found by the kinds, each one once.
pub proof fn lemma_lex_sorted(entries: Seq<(Seq<char>, Seq<char>)>, text: Seq<char>)
    ensures
        lex_result(entries, text) matches Ok(ts) ==> {
            &&& sorted_by_start(ts)
            &&& ts.to_multiset() == scan(entries, text).0.to_multiset()
        },
{
    lemma_sort_by_start_props(scan(entries, text).0);
}

/// Every token found by the kinds carries the line and column of its start.
proof fn lemma_scan_positions(entries: Seq<(Seq<char>, Seq<char>)>, text: Seq<char>)
    ensures
        forall|i: int|
            0 <= i < scan(entries, text).0.len() ==> {
                let t = #[trigger] scan(entries, text).0[i];
                (t.line, t.column) == position_of(text, t.start)
            },
    decreases entries.len(),
{
    if entries.len() > 0 {
        let init = entries.drop_last();
        lemma_scan_positions(init, text);
        let prev = scan(init, text).0;
        let all = scan(entries, text).0;
        assert forall|i: int| 0 <= i < all.len() implies {
            let t = #[trigger] all[i];
            (t.line, t.column) == position_of(text, t.start)
        } by {
            if i < prev.len() {
                assert(all[i] == prev[i]);
            }
        }
    }
}

/// Every token that `lex` returns carries the line and column, in the
/// text, of its first byte.
pub proof fn lemma_lex_positions(entries: Seq<(Seq<char>, Seq<char>)>, text: Seq<char>)
    ensures
        lex_result(entries, text) matches Ok(ts) ==> forall|i: int|
            0 <= i < ts.len() ==> (#[trigger] ts[i].line, ts[i].column) == position_of(text, ts[i].start),
{
    broadcast use vstd::seq_lib::group_to_multiset_ensures;
    let found = scan(entries, text).0;
    lemma_sort_by_start_props(found);
    lemma_scan_positions(entries, text);
    if let Ok(ts) = lex_result(entries, text) {
        assert forall|i: int| 0 <= i < ts.len() implies (#[trigger] ts[i].line, ts[i].column) == position_of(text, ts[i].start) by {
            assert(ts.to_multiset().count(ts[i]) > 0);
            assert(found.to_multiset().count(ts[i]) > 0);
            assert(found.contains(ts[i]));
            let k = choose|k: int| 0 <= k < found.len() && found[k] == ts[i];
        }
    }
}

} // verus!

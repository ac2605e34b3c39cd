//! Regular expressions, through the `regex` crate.
use vstd::prelude::*;
use vstd::utf8::*;
use vstd::string::StringSliceAdditionalSpecFns;

verus! {

#[verifier::external_type_specification]
#[verifier::external_body]
pub struct ExRegex(regex::Regex);

/// Whether `regex::Regex::new` accepts `pattern` (valid syntax, within the
/// crate's default size limit).
pub uninterp spec fn regex_compiles(pattern: Seq<char>) -> bool;

/// The byte ranges `(start, end)` of the successive matches that
/// `regex::Regex::find_iter` reports for `pattern` in `haystack`.
pub uninterp spec fn regex_matches(pattern: Seq<char>, haystack: Seq<char>) -> Seq<(usize, usize)>;

/// What the crate documents of every list of matches: each range lies in
/// the haystack, starts and ends on character boundaries, and the ranges come
/// in order without overlapping.
pub open spec fn spans_well_formed(spans: Seq<(usize, usize)>, bytes: Seq<u8>) -> bool {
    &&& forall|i: int|
        0 <= i < spans.len() ==> {
            &&& #[trigger] spans[i].0 <= spans[i].1 <= bytes.len()
            &&& is_char_boundary(bytes, spans[i].0 as int)
            &&& is_char_boundary(bytes, spans[i].1 as int)
        }
    &&& forall|i: int, j: int| 0 <= i < j < spans.len() ==> #[trigger] spans[i].1 <= #[trigger] spans[j].0
}

/// A compiled regular expression, with the pattern it was compiled from.
pub struct Pattern {
    re: regex::Regex,
    source: Ghost<Seq<char>>,
}

impl Pattern {
    pub closed spec fn source(&self) -> Seq<char> {
        self.source@
    }
}

/// Calls `regex::Regex::new`: `Some` exactly when the pattern compiles.
#[verifier::external_body]
pub(crate) fn compile_pattern(pattern: &str) -> (r: Option<Pattern>)
    ensures
        r is Some <==> regex_compiles(pattern@),
        r matches Some(p) ==> p.source() == pattern@,
{
    match regex::Regex::new(pattern) {
        Ok(re) => Some(Pattern { re, source: Ghost(pattern@) }),
        Err(_) => None,
    }
}

/// Calls `regex::Regex::find_iter` and keeps the byte range of each match.
#[verifier::external_body]
pub(crate) fn find_spans(p: &Pattern, haystack: &str) -> (r: Vec<(usize, usize)>)
    ensures
        r@ == regex_matches(p.source(), haystack@),
        spans_well_formed(r@, haystack.spec_bytes()),
{
    p.re.find_iter(haystack).map(|m| (m.start(), m.end())).collect()
}

} // verus!

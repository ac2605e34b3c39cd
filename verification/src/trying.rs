//! Pattern matching entry points.
use vstd::prelude::*;
use vstd::utf8::*;
use vstd::string::StringSliceAdditionalSpecFns;

use crate::pattern::{compile_pattern, find_spans, regex_compiles, regex_matches};
use crate::parser::strings_view;
use crate::text::substring_bytes;

verus! {

/// Whether `s` matches `re`: no match is ever reported.
pub fn is_matching(s: String, re: String) -> (r: bool)
    ensures
        !r,
{
    false
}

/// The texts of the byte ranges `spans` of `bytes`.
pub open spec fn span_texts(spans: Seq<(usize, usize)>, bytes: Seq<u8>) -> Seq<Seq<char>> {
    spans.map_values(|sp: (usize, usize)| decode_utf8(bytes.subrange(sp.0 as int, sp.1 as int)))
}

/// The words that `pattern` finds in `haystack`, one for each match in
/// order; `None` where the pattern does not compile.
pub fn matched_words(pattern: &str, haystack: &str) -> (r: Option<Vec<String>>)
    ensures
        r is Some <==> regex_compiles(pattern@),
        r matches Some(ws) ==> strings_view(ws@) == span_texts(
            regex_matches(pattern@, haystack@),
            haystack.spec_bytes(),
        ),
{
    let p = match compile_pattern(pattern) {
        Some(p) => p,
        None => {
            return None;
        },
    };
    let spans = find_spans(&p, haystack);
    let ghost bytes = haystack.spec_bytes();
    let mut words: Vec<String> = Vec::new();
    let mut i: usize = 0;
    while i < spans.len()
        invariant
            0 <= i <= spans@.len(),
            spans@ == regex_matches(pattern@, haystack@),
            crate::pattern::spans_well_formed(spans@, bytes),
            bytes == haystack.spec_bytes(),
            words@.len() == i,
            strings_view(words@) == span_texts(spans@, bytes).take(i as int),
        decreases spans@.len() - i,
    {
        let (a, b) = spans[i];
        assert(spans@[i as int].0 <= spans@[i as int].1 <= bytes.len());
        let w = substring_bytes(haystack, a, b);
        let ghost before = words@;
        words.push(w);
        proof {
            let texts = span_texts(spans@, bytes);
            assert(texts[i as int] == w@);
            assert(words@ == before.push(w));
            assert forall|j: int| 0 <= j <= i implies #[trigger] strings_view(words@)[j]
                == texts.take(i + 1)[j] by {
                if j < i {
                    assert(words@[j] == before[j]);
                    assert(strings_view(before)[j] == texts.take(i as int)[j]);
                }
            }
            assert(strings_view(words@) =~= texts.take(i + 1));
        }
        i = i + 1;
    }
    assert(span_texts(spans@, bytes).take(i as int) =~= span_texts(spans@, bytes));
    Some(words)
}

} // verus!

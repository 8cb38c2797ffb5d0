//! Fuzzy matching with nucleo, and the matching of model records from two
//! sources to one another.
use vstd::prelude::*;
use nucleo::pattern::{CaseMatching, Normalization, Pattern};
use nucleo::{Config, Matcher, Utf32String};

verus! {

broadcast use vstd::string::group_string_axioms;

/// What nucleo's pattern matcher reports for `pattern` (case-insensitive,
/// smart normalization) against `haystack`: the score and the matched
/// character positions, or `None` when it does not match.
pub uninterp spec fn nucleo_match(pattern: Seq<char>, haystack: Seq<char>) -> Option<(u32, Seq<u32>)>;

/// Runs `nucleo::pattern::Pattern::indices` for `pattern` parsed with
/// `Pattern::parse(pattern, CaseMatching::Ignore, Normalization::Smart)` on
/// `haystack`, with a fresh `Matcher` built from `Config::DEFAULT`.
/// Trusted: the result is what nucleo computes for these two texts, and an
/// empty pattern (no atoms) matches with score 0 and no positions, as
/// `Pattern::indices` returns `Some(0)` for a pattern without atoms.
#[verifier::external_body]
pub(crate) fn fuzzy_indices(pattern: &str, haystack: &str) -> (r: Option<(u32, Vec<u32>)>)
    ensures
        r is Some <==> nucleo_match(pattern@, haystack@) is Some,
        r is Some ==> nucleo_match(pattern@, haystack@) == Some((r.unwrap().0, r.unwrap().1@)),
        pattern@.len() == 0 ==> (r is Some && r.unwrap().0 == 0 && r.unwrap().1@.len() == 0),
{
    let pat = Pattern::parse(pattern, CaseMatching::Ignore, Normalization::Smart);
    let hay = Utf32String::from(haystack);
    let mut matcher = Matcher::new(Config::DEFAULT);
    let mut positions: Vec<u32> = Vec::new();
    pat.indices(hay.slice(..), &mut matcher, &mut positions).map(|score| (score, positions))
}

} // verus!

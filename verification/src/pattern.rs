//! Trusted boundary to the `regex` crate, which decides the free-form
//! message and function criteria of the filter engine.
use vstd::prelude::*;

verus! {

/// Whether `regex::Regex::new` accepts a pattern. Compilation succeeds or
/// fails by the pattern text alone.
pub uninterp spec fn regex_compiles(pattern: Seq<char>) -> bool;

/// What `regex::Regex::is_match` answers for the regex compiled from
/// `pattern`, run on `text`. The answer is a function of the two texts
/// alone.
pub uninterp spec fn regex_matches(pattern: Seq<char>, text: Seq<char>) -> bool;

/// Relies on `regex::Regex::new` and `regex::Regex::is_match`: `new` is
/// deterministic in the pattern text, and `is_match` in the pattern and
/// haystack texts. `None` reports a pattern that does not compile. One
/// call evaluates one regex criterion against one entry.
#[verifier::external_body]
pub(crate) fn regex_match(pattern: &str, text: &str) -> (r: Option<bool>)
    ensures
        r is Some <==> regex_compiles(pattern@),
        r matches Some(b) ==> b == regex_matches(pattern@, text@),
{
    match regex::Regex::new(pattern) {
        Ok(re) => Some(re.is_match(text)),
        Err(_) => None,
    }
}

} // verus!

//! The filter/skip predicate over dot-joined test paths: a pattern matches
//! as a regular expression, or as a plain substring when it does not compile
//! as one; a skip pattern beats a filter pattern.

use vstd::prelude::*;

use crate::strutil::spec_contains;

verus! {

/// Whether `pat` is a well-formed regular expression (it compiles).
pub uninterp spec fn regex_compiles(pat: Seq<char>) -> bool;

/// Whether the regular expression `pat` matches somewhere in `text`.
pub uninterp spec fn regex_matches(pat: Seq<char>, text: Seq<char>) -> bool;

/// Relies on regex::Regex::new and regex::Regex::is_match: whether a pattern
/// compiles, and whether it matches, depend on the pattern and the text alone.
#[verifier::external_body]
fn regex_is_match(pat: &str, text: &str) -> (r: Option<bool>)
    ensures
        r == if regex_compiles(pat@) {
            Some(regex_matches(pat@, text@))
        } else {
            None::<bool>
        },
{
    match regex::Regex::new(pat) {
        Ok(re) => Some(re.is_match(text)),
        Err(_) => None,
    }
}

/// A pattern applies to a text if it matches as a regular expression, or,
/// when it does not compile as one, if it occurs as a plain substring.
pub open spec fn spec_pattern_applies(pat: Seq<char>, text: Seq<char>) -> bool {
    if regex_compiles(pat) {
        regex_matches(pat, text)
    } else {
        spec_contains(text, pat)
    }
}

/// Evaluates a pattern against a text, as `spec_pattern_applies` states.
pub fn pattern_applies(pat: &str, text: &str) -> (r: bool)
    ensures
        r == spec_pattern_applies(pat@, text@),
{
    match regex_is_match(pat, text) {
        Some(b) => b,
        None => crate::strutil::contains_substring(text, pat),
    }
}

/// The skip decision for a dot-joined test path: a configured skip pattern
/// that applies wins; otherwise a configured filter pattern must apply for
/// the case to run.
pub open spec fn spec_should_skip(
    skip: Option<Seq<char>>,
    filter: Option<Seq<char>>,
    path: Seq<char>,
) -> bool {
    if skip is Some && spec_pattern_applies(skip.unwrap(), path) {
        true
    } else if filter is Some {
        !spec_pattern_applies(filter.unwrap(), path)
    } else {
        false
    }
}

/// Evaluates the skip-then-filter rule, as `spec_should_skip` states.
pub fn should_skip_path(
    skip: &Option<String>,
    filter: &Option<String>,
    path: &str,
) -> (r: bool)
    ensures
        r == spec_should_skip(skip.deep_view(), filter.deep_view(), path@),
{
    if let Some(s) = skip {
        if pattern_applies(s.as_str(), path) {
            return true;
        }
    }
    if let Some(f) = filter {
        return !pattern_applies(f.as_str(), path);
    }
    false
}

} // verus!

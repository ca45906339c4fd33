//! Regular expressions.

use vstd::prelude::*;

use crate::text::{contains_text, opt_text};

verus! {

/// What `regex` finds of a pattern in a text: the groups of the first match,
/// each with its text where it takes part; nothing where the pattern does not
/// match or is no regular expression.
pub uninterp spec fn captures_of(pattern: Seq<char>, s: Seq<char>) -> Option<
    Seq<Option<Seq<char>>>,
>;

/// The groups of a match, as characters.
pub open spec fn groups_view(v: Seq<Option<String>>) -> Seq<Option<Seq<char>>> {
    v.map_values(|g: Option<String>| opt_text(g))
}

/// The groups of an optional match, as characters.
pub open spec fn captures_view(o: Option<Vec<Option<String>>>) -> Option<Seq<Option<Seq<char>>>> {
    match o {
        Some(v) => Some(groups_view(v@)),
        None => None,
    }
}

/// `regex::Regex::new` and `Regex::captures`: the groups of the first match,
/// which depend on the pattern and the text alone. The first group is the whole
/// match and stands in the text; a pattern that is no regular expression matches
/// nothing. What matches what is left to the syntax of `regex`.
#[verifier::external_body]
pub(crate) fn captures(pattern: &str, s: &str) -> (r: Option<Vec<Option<String>>>)
    ensures
        captures_view(r) == captures_of(pattern@, s@),
        fault_of(pattern@) is Some ==> r is None,
        r matches Some(g) ==> g@.len() > 0 && (g@[0] matches Some(t) && contains_text(s@, t@)),
{
    let regex = regex::Regex::new(pattern).ok()?;
    let found = regex.captures(s)?;
    Some(found.iter().map(|g| g.map(|m| m.as_str().to_string())).collect())
}

/// What `regex` says against a pattern: nothing where it is a regular
/// expression.
pub uninterp spec fn fault_of(pattern: Seq<char>) -> Option<Seq<char>>;

/// `regex::Regex::new`: the text of its error, which depends on the pattern
/// alone.
#[verifier::external_body]
pub(crate) fn fault(pattern: &str) -> (r: Option<String>)
    ensures
        opt_text(r) == fault_of(pattern@),
{
    regex::Regex::new(pattern).err().map(|e| e.to_string())
}

} // verus!

//! Regular expressions, as the `regex` crate understands them.

use vstd::prelude::*;

verus! {

/// What the regular-expression engine makes of `pattern` on `text`: `None`
/// where it does not accept `pattern` as an expression, and otherwise whether
/// the expression matches anywhere in `text`.
pub uninterp spec fn search(pattern: Seq<char>, text: Seq<char>) -> Option<bool>;

/// Compiles `pattern` with `regex::Regex::new` and, where that succeeds, asks
/// `regex::Regex::is_match` whether it matches somewhere in `text`.
///
/// Nothing is proved of the engine. The contract only gives its answer a
/// name: both calls are functions of the two strings alone.
#[verifier::external_body]
pub(crate) fn find_match(pattern: &str, text: &str) -> (r: Option<bool>)
    ensures
        r == search(pattern@, text@),
{
    match regex::Regex::new(pattern) {
        Ok(expression) => Some(expression.is_match(text)),
        Err(_) => None,
    }
}

/// Whether an answer of the engine counts as a match: only a found match
/// does, a rejected expression never.
pub fn is_hit(answer: Option<bool>) -> (r: bool)
    ensures
        r == (answer == Some(true)),
{
    match answer {
        Some(found) => found,
        None => false,
    }
}

} // verus!

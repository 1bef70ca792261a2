//! The choice of the files that count, by shell-style patterns.

use glob::Pattern;
use vstd::prelude::*;

verus! {

/// A compiled pattern of the `glob` crate. Nothing of its contents is
/// known here.
#[verifier::external_type_specification]
#[verifier::external_body]
pub struct ExPattern(glob::Pattern);

/// Calls `glob::Pattern::matches`, which says whether the whole of `path`
/// matches the pattern under the crate's default options. Nothing is
/// claimed of the answer: on some systems it treats either separator of
/// paths as the other.
#[verifier::external_body]
fn pattern_matches(pattern: &Pattern, path: &str) -> (r: bool) {
    pattern.matches(path)
}

/// Whether some pattern matches the path: every pattern is asked, and
/// the answers are put together by `any_match`. Without patterns no
/// path matches.
pub fn should_tracking(patterns: &[Pattern], path: &str) -> (r: bool)
    ensures
        patterns@.len() == 0 ==> !r,
{
    let mut answers: Vec<bool> = Vec::new();
    let mut i: usize = 0;
    while i < patterns.len()
        invariant
            i <= patterns@.len(),
            answers@.len() == i,
        decreases patterns.len() - i,
    {
        answers.push(pattern_matches(&patterns[i], path));
        i += 1;
    }
    any_match(&answers)
}

/// Whether some answer is yes.
pub fn any_match(answers: &[bool]) -> (r: bool)
    ensures
        r == answers@.contains(true),
{
    let mut i: usize = 0;
    while i < answers.len()
        invariant
            i <= answers@.len(),
            !answers@.take(i as int).contains(true),
        decreases answers.len() - i,
    {
        if answers[i] {
            return true;
        }
        assert(answers@.take(i + 1) =~= answers@.take(i as int).push(false));
        i += 1;
    }
    assert(answers@.take(i as int) =~= answers@);
    false
}

} // verus!

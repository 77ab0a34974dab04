//! The answer to the confirmation asked before deleting anything.
use vstd::prelude::*;

verus! {

/// What `str::trim` leaves of a string.
pub uninterp spec fn trim_of(s: Seq<char>) -> Seq<char>;

/// Relies on `str::trim`: the string without its leading and trailing
/// whitespace, which depends on the characters alone.
#[verifier::external_body]
fn trimmed(s: &str) -> (r: &str)
    ensures
        r@ == trim_of(s@),
{
    s.trim()
}

/// Whether an already trimmed answer agrees: it is exactly `y`.
pub fn is_yes(answer: &str) -> (r: bool)
    ensures
        r == (answer@ == seq!['y']),
{
    let given = answer.to_owned();
    let yes = "y".to_owned();
    proof {
        reveal_strlit("y");
        assert("y"@ =~= seq!['y']);
    }
    given == yes
}

/// Whether the line typed at the prompt agrees to deletion: once trimmed, it
/// is exactly `y`. Any other answer declines.
pub fn confirms_deletion(response: &str) -> (r: bool)
    ensures
        r == (trim_of(response@) == seq!['y']),
{
    is_yes(trimmed(response))
}

} // verus!

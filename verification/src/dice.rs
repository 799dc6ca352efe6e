//! The library's one source of chance.

use rand::Rng;
use vstd::prelude::*;

verus! {

/// Draws one integer from `low..=high` with `rand::Rng::gen_range` on
/// `rand::thread_rng()`.
///
/// Trusted: the generator hands back a member of the range it was given. Its
/// draw is uniform over the range, which no clause here can express. An empty
/// range makes `gen_range` panic, hence the precondition.
#[verifier::external_body]
pub(crate) fn random_between(low: usize, high: usize) -> (drawn: usize)
    requires
        low <= high,
    ensures
        low <= drawn <= high,
{
    rand::thread_rng().gen_range(low..=high)
}

/// Draws an index into a collection of `count` items.
pub(crate) fn random_below(count: usize) -> (drawn: usize)
    requires
        count > 0,
    ensures
        drawn < count,
{
    random_between(0, count - 1)
}

/// Draws a decimal digit.
pub(crate) fn random_digit() -> (drawn: u8)
    ensures
        drawn < 10,
{
    random_between(0, 9) as u8
}

} // verus!

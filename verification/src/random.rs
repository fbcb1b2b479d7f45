//! The draws that the generator takes from its random source.
//!
//! Nothing here is proved: each function hands one call to the `rand` crate
//! and states what that crate documents of the result, whatever the source
//! yields.

use rand::rngs::StdRng;
use rand::seq::SliceRandom;
use rand::Rng;
use vstd::prelude::*;

verus! {

/// `rand::rngs::StdRng`, the random source. Nothing is said of what it
/// holds.
#[verifier::external_type_specification]
#[verifier::external_body]
pub struct ExStdRng(StdRng);

/// `Rng::gen_range` on the half-open range `low..high`: some integer of that
/// range. The call panics on an empty range, which `requires` leaves out.
#[verifier::external_body]
pub(crate) fn random_range(rng: &mut StdRng, low: i32, high: i32) -> (n: i32)
    requires
        low < high,
    ensures
        low <= n < high,
{
    rng.gen_range(low..high)
}

/// `Rng::gen_ratio`: `true` with a chance of `numerator` in `denominator`,
/// so always `true` when the two are equal and never when `numerator` is
/// zero. The call panics on a zero denominator and on a chance above one,
/// which `requires` leaves out.
#[verifier::external_body]
pub(crate) fn random_ratio(rng: &mut StdRng, numerator: u32, denominator: u32) -> (hit: bool)
    requires
        denominator > 0,
        numerator <= denominator,
    ensures
        numerator == denominator ==> hit,
        numerator == 0 ==> !hit,
{
    rng.gen_ratio(numerator, denominator)
}

/// `SliceRandom::choose` on the items of a vector: `None` when there is no
/// item, and otherwise one of the items.
#[verifier::external_body]
pub(crate) fn random_choice<T: Copy>(rng: &mut StdRng, items: &Vec<T>) -> (pick: Option<T>)
    ensures
        items@.len() == 0 ==> pick is None,
        items@.len() > 0 ==> pick is Some && items@.contains(pick.unwrap()),
{
    items.choose(rng).copied()
}

} // verus!

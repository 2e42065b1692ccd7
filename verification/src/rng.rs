//! Randomness for tie-breaking and secret generation.  Nothing is assumed
//! about the values drawn: every caller works for every outcome.

use vstd::prelude::*;

verus! {

/// Relies on rand::random: an arbitrary value of the type.  No property of
/// the drawn value is assumed.
pub assume_specification<T>[ rand::random::<T> ]() -> (r: T)
    where
        rand::distributions::Standard: rand::distributions::Distribution<T>,
;

/// A pseudo-random value below `bound`.
pub fn rand_below(bound: u64) -> (r: u64)
    requires
        bound >= 1,
    ensures
        r < bound,
{
    let x: u64 = rand::random::<u64>();
    x % bound
}

} // verus!

//! The simulator's one source of randomness.

use vstd::prelude::*;

verus! {

/// Relies on rand::random: a fresh pseudo-random value. Nothing is
/// promised of the result; callers state what holds of every outcome.
pub assume_specification<T>[ rand::random::<T> ]() -> (r: T)
    where
        rand::distributions::Standard: rand::distributions::Distribution<T>,
;

/// A pseudo-random integer below 100, for percentage draws.
pub fn random_percent() -> (r: u8)
    ensures
        r < 100,
{
    let x: u64 = rand::random::<u64>();
    (x % 100) as u8
}

/// A pseudo-random index below `bound`.
pub fn random_below(bound: usize) -> (r: usize)
    requires
        bound >= 1,
    ensures
        r < bound,
{
    let x: u64 = rand::random::<u64>();
    (x % (bound as u64)) as usize
}

} // verus!

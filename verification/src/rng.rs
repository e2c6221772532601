//! The simulation's only source of chance.
//!
//! One trusted wrapper draws a raw pseudorandom word; everything derived
//! from it (a roll under a bound, a point in a disc) is verified code that
//! takes the raw draw as an argument.

use vstd::prelude::*;

verus! {

/// Relies on rand::random: a fresh pseudorandom value. Nothing can be
/// promised of it; callers state what holds of every outcome.
#[verifier::external_body]
pub(crate) fn random_u64() -> u64 {
    rand::random::<u64>()
}

/// A draw strictly below `n`, from a raw draw.
pub fn draw_below(raw: u64, n: u64) -> (r: u64)
    requires
        n > 0,
    ensures
        r == raw as int % n as int,
        r < n,
{
    raw % n
}

/// A fresh draw strictly below `n`.
pub fn rand_below(n: u64) -> (r: u64)
    requires
        n > 0,
    ensures
        r < n,
{
    random_u64() % n
}

/// A fresh coordinate draw in `[-half, half]`.
pub fn rand_centered(half: i64) -> (r: i64)
    requires
        0 <= half <= 1000000000,
    ensures
        -half <= r <= half,
{
    let m: u64 = (2 * half + 1) as u64;
    (rand_below(m) as i64) - half
}

} // verus!

//! Fixed-point arithmetic on the unit interval.
//!
//! A quantity `q` in `[0, 1]` is stored as the integer `q * 1_000_000`,
//! rounded down. Products of two such quantities are rescaled by one division
//! by [`ONE`], so every formula below rounds exactly once.

use vstd::prelude::*;

verus! {

/// The fixed-point image of `1.0`.
pub const ONE: u32 = 1_000_000;

/// The fixed-point image of `0.5`.
pub const HALF: u32 = 500_000;

/// `x` limited to the unit interval.
pub open spec fn clamp_unit(x: int) -> int {
    if x < 0 {
        0
    } else if x > ONE {
        ONE as int
    } else {
        x
    }
}

/// Whether `x` lies in the unit interval.
pub open spec fn in_unit(x: int) -> bool {
    0 <= x <= ONE
}

/// Limits `x` to the unit interval.
pub fn clamp_to_unit(x: u64) -> (r: u32)
    ensures
        r == clamp_unit(x as int),
        in_unit(r as int),
{
    if x > ONE as u64 {
        ONE
    } else {
        x as u32
    }
}

} // verus!

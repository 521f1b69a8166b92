//! Fixed-point samples, clamping and volume percentages.
use vstd::prelude::*;

verus! {

/// The fixed-point value of a normalized 1.0.
pub const ONE: i32 = 1000000;

/// The smallest percentage, in units of `ONE`, that maps to full volume.
pub const FULL_PERCENT: i64 = 100000000;

/// `x` limited to `[lo, hi]`.
pub open spec fn clamp(x: int, lo: int, hi: int) -> int {
    if x < lo {
        lo
    } else if x > hi {
        hi
    } else {
        x
    }
}

/// `x` limited to the normalized range `[-ONE, ONE]`.
pub open spec fn clamp_unit(x: int) -> int {
    clamp(x, -ONE as int, ONE as int)
}

/// A normalized sample.
pub open spec fn is_sample(x: int) -> bool {
    -ONE <= x <= ONE
}

/// Division rounding toward zero, as integer division does at run time
/// (for a positive divisor).
pub open spec fn div_trunc(a: int, b: int) -> int {
    if a >= 0 {
        a / b
    } else {
        -((-a) / b)
    }
}

/// The volume that a percentage stands for: nothing at or below zero, full
/// volume at or above one hundred percent, a hundredth of it in between.
pub open spec fn percentage_volume(p: int) -> int {
    if p <= 0 {
        0
    } else if p >= FULL_PERCENT {
        ONE as int
    } else {
        p / 100
    }
}

/// Limits a wide intermediate value to a normalized sample.
pub fn clamp_sample(x: i128) -> (r: i32)
    ensures
        r == clamp_unit(x as int),
        is_sample(r as int),
{
    if x < -(ONE as i128) {
        -ONE
    } else if x > ONE as i128 {
        ONE
    } else {
        x as i32
    }
}

/// Turns a percentage (in units of `ONE`, so `50 * ONE` is fifty percent) into
/// a volume in `[0, ONE]`.
pub fn clamp_as_percentage(v: i64) -> (r: i32)
    ensures
        r == percentage_volume(v as int),
        0 <= r <= ONE,
{
    if v <= 0 {
        0
    } else if v >= FULL_PERCENT {
        ONE
    } else {
        (v / 100) as i32
    }
}

} // verus!

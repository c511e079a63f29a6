//! The fixed-point number model shared by every module: a value `v` stands
//! for the rational number `v / SCALE`.
use vstd::prelude::*;

verus! {

/// Number of fixed-point units in one: eight decimal places.
pub const SCALE: i128 = 100_000_000;

/// Whether a mathematical integer fits in an `i128`.
pub open spec fn fits_i128(x: int) -> bool {
    i128::MIN <= x <= i128::MAX
}

/// Absolute value of a mathematical integer.
pub open spec fn abs_int(x: int) -> int {
    if x < 0 { -x } else { x }
}

/// Division rounding toward zero, as Rust's `/` on signed integers does.
pub open spec fn tdiv(a: int, b: int) -> int {
    let q = abs_int(a) / abs_int(b);
    if (a < 0) == (b < 0) { q } else { -q }
}

/// Remainder of `tdiv`: it carries the sign of `a`, as Rust's `%` does.
pub open spec fn trem(a: int, b: int) -> int {
    a - b * tdiv(a, b)
}

/// The integer part of a fixed-point value (the fraction is cut toward zero).
pub open spec fn to_raw(x: i128) -> int {
    tdiv(x as int, SCALE as int)
}

/// A whole number turned into a fixed-point value, or `None` where the
/// product leaves the `i128` range (there the unchecked multiplication would
/// overflow).
pub open spec fn to_fixed(x: int) -> Option<Result<i128, &'static str>> {
    if fits_i128(x * SCALE) { Some(Ok((x * SCALE) as i128)) } else { None }
}

/// Integer part of a fixed-point value, as an exact computation.
pub fn raw_part(x: i128) -> (r: i128)
    ensures
        r == to_raw(x),
        -1_701_411_834_604_692_317_316_873_037_158 <= r <= 1_701_411_834_604_692_317_316_873_037_158,
{
    x / SCALE
}

/// A whole number turned into a fixed-point value.
pub fn fixed_from_raw(x: i128) -> (r: i128)
    requires
        fits_i128(x * SCALE),
    ensures
        r == x * SCALE,
{
    x * SCALE
}

} // verus!

//! Rounding as floating-point numbers are rounded.

use vstd::prelude::*;

verus! {

/// The integer nearest to a fraction, and the even one of two.
pub open spec fn nearest(num: int, den: int) -> int {
    let q = num / den;
    let r = num % den;
    if 2 * r > den || (2 * r == den && q % 2 == 1) {
        q + 1
    } else {
        q
    }
}

/// The integer nearest to a fraction, and the even one of two.
pub fn round_nearest(num: u128, den: u128) -> (r: u128)
    requires
        0 < den,
        num < 0x8000_0000_0000_0000_0000_0000_0000_0000,
    ensures
        r == nearest(num as int, den as int),
{
    let q: u128 = num / den;
    let r: u128 = num % den;
    if r > den - r || (r == den - r && q % 2 == 1) {
        proof {
            assert(q <= num) by (nonlinear_arith)
                requires
                    q == num / den,
                    den > 0,
            ;
        }
        q + 1
    } else {
        q
    }
}

/// Two to the 24.
pub const SINGLE_LIMIT: u64 = 0x100_0000;

/// The distance of the single-precision numbers around a number: the least
/// power of two, from `unit` on, of which the number holds less than 2^24.
pub open spec fn single_unit(n: int, unit: int) -> int
    decreases n - unit,
{
    if unit < 1 || n < SINGLE_LIMIT * unit {
        unit
    } else {
        single_unit(n, 2 * unit)
    }
}

/// The single-precision number nearest to a natural number.
pub open spec fn single_of(n: int) -> int {
    nearest(n, single_unit(n, 1)) * single_unit(n, 1)
}

/// A part of a whole is more than nine tenths, in single precision: past the
/// middle between the single-precision number nearest to 0.9, which is
/// 15099494 / 2^24, and the next one.
pub open spec fn past_nine_tenths(part: int, whole: int) -> bool {
    single_of(part) * 0x200_0000 > 30198989 * single_of(whole)
}

/// A power of two up to 2^8.
spec fn is_small_power(u: int) -> bool {
    u == 1 || u == 2 || u == 4 || u == 8 || u == 0x10 || u == 0x20 || u == 0x40 || u == 0x80 || u
        == 0x100
}

/// The single-precision number nearest to a number.
fn as_single(n: u32) -> (r: u128)
    ensures
        r == single_of(n as int),
        r <= 0x2_0000_0000,
{
    let mut unit: u128 = 1;
    while n as u128 >= SINGLE_LIMIT as u128 * unit
        invariant
            is_small_power(unit as int),
            single_unit(n as int, 1) == single_unit(n as int, unit as int),
        decreases 0x200 - unit,
    {
        unit = unit * 2;
    }
    let q: u128 = round_nearest(n as u128, unit);
    assert(n as int / unit as int <= SINGLE_LIMIT) by (nonlinear_arith)
        requires
            n < SINGLE_LIMIT * unit,
            unit >= 1,
    ;
    assert(q * unit <= 0x2_0000_0000) by (nonlinear_arith)
        requires
            0 <= q <= SINGLE_LIMIT + 1,
            1 <= unit <= 0x100,
    ;
    q * unit
}

/// Tells whether a part of a whole is more than nine tenths, in single
/// precision.
pub fn is_past_nine_tenths(part: u32, whole: u32) -> (r: bool)
    ensures
        r == past_nine_tenths(part as int, whole as int),
{
    let a: u128 = as_single(part);
    let b: u128 = as_single(whole);
    a * 0x200_0000 > 30198989 * b
}

} // verus!

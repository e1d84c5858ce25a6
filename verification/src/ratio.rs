//! Rounding of quotients of whole numbers.

use vstd::prelude::*;

verus! {

/// A quotient of two counts.
#[derive(Debug, Clone, Copy, PartialEq, Eq, Structural)]
pub struct Fraction {
    /// The count above the line.
    pub num: u32,
    /// The count below the line.
    pub den: u32,
}

/// `n / d` rounded to the nearest whole number, a half upwards, and kept
/// within `usize`. A quotient by zero is the largest number there is, but
/// nothing by zero is nothing.
pub open spec fn ratio_rounded(n: int, d: int) -> int {
    if d == 0 {
        if n == 0 {
            0
        } else {
            usize::MAX as int
        }
    } else {
        let q = (2 * n + d) / (2 * d);
        if q > usize::MAX {
            usize::MAX as int
        } else {
            q
        }
    }
}

/// `n / d` rounded up to a whole number and kept within `usize`.
pub open spec fn ratio_ceiled(n: int, d: int) -> int {
    let q = (n + d - 1) / d;
    if q > usize::MAX {
        usize::MAX as int
    } else {
        q
    }
}

/// The mean of `count` numbers that sum to `sum`, rounded to the nearest
/// whole number, a half away from zero.
pub open spec fn mean_rounded(sum: int, count: int) -> int {
    if sum >= 0 {
        (2 * sum + count) / (2 * count)
    } else {
        -((2 * (-sum) + count) / (2 * count))
    }
}

/// The product of three numbers.
pub fn product(a: u32, b: u32, c: u32) -> (p: u128)
    ensures
        p == a * b * c,
        p < 0x1_0000_0000_0000_0000_0000_0000,
{
    assert(a * b <= 0xffff_ffff * 0xffff_ffff) by (nonlinear_arith)
        requires
            a <= 0xffff_ffff,
            b <= 0xffff_ffff,
    ;
    let ab: u128 = (a as u128) * (b as u128);
    assert(ab * c <= 0xffff_ffff * 0xffff_ffff * 0xffff_ffff) by (nonlinear_arith)
        requires
            ab <= 0xffff_ffff * 0xffff_ffff,
            c <= 0xffff_ffff,
    ;
    ab * (c as u128)
}

/// Divides and rounds to the nearest whole number.
pub fn round_ratio(n: u128, d: u128) -> (q: usize)
    requires
        n < 0x1_0000_0000_0000_0000_0000_0000,
        d < 0x1_0000_0000_0000_0000_0000_0000,
    ensures
        q == ratio_rounded(n as int, d as int),
{
    if d == 0 {
        if n == 0 {
            0
        } else {
            usize::MAX
        }
    } else {
        let q: u128 = (2 * n + d) / (2 * d);
        if q > usize::MAX as u128 {
            usize::MAX
        } else {
            q as usize
        }
    }
}

/// Divides and rounds up.
pub fn ceil_ratio(n: u128, d: u128) -> (q: usize)
    requires
        n < 0x1_0000_0000_0000_0000_0000_0000,
        0 < d < 0x1_0000_0000_0000_0000_0000_0000,
    ensures
        q == ratio_ceiled(n as int, d as int),
{
    let q: u128 = (n + d - 1) / d;
    if q > usize::MAX as u128 {
        usize::MAX
    } else {
        q as usize
    }
}

/// The rounded mean of `count` scores that sum to `sum`.
pub fn round_mean(sum: i128, count: u64) -> (mean: i32)
    requires
        count > 0,
        -0x8000_0000 * count <= sum <= 0x7fff_ffff * count,
    ensures
        mean == mean_rounded(sum as int, count as int),
{
    let c: i128 = count as i128;
    if sum >= 0 {
        let q: i128 = (2 * sum + c) / (2 * c);
        assert(q <= 0x7fff_ffff) by (nonlinear_arith)
            requires
                q == (2 * sum + c) / (2 * c),
                0 <= sum <= 0x7fff_ffff * c,
                c > 0,
        ;
        assert(q >= 0) by (nonlinear_arith)
            requires
                q == (2 * sum + c) / (2 * c),
                0 <= sum,
                c > 0,
        ;
        q as i32
    } else {
        let q: i128 = (2 * (-sum) + c) / (2 * c);
        assert(q <= 0x8000_0000) by (nonlinear_arith)
            requires
                q == (2 * (-sum) + c) / (2 * c),
                0 < -sum <= 0x8000_0000 * c,
                c > 0,
        ;
        assert(q >= 0) by (nonlinear_arith)
            requires
                q == (2 * (-sum) + c) / (2 * c),
                0 <= -sum,
                c > 0,
        ;
        (-q) as i32
    }
}

} // verus!

//! Integer arithmetic that cannot overflow: sums taken in a wider register
//! and brought back to 64 bits.

use vstd::prelude::*;

verus! {

/// The integer that a 64-bit two's-complement register holds after `x` has
/// been added into it: `x` modulo 2^64, between -2^63 and 2^63 - 1.
pub open spec fn wrap64(x: int) -> int {
    let m = x % 0x1_0000_0000_0000_0000;
    if m >= 0x8000_0000_0000_0000 {
        m - 0x1_0000_0000_0000_0000
    } else {
        m
    }
}

/// The quotient of `sum` by `n`, rounded toward zero.
pub open spec fn mean(sum: int, n: int) -> int {
    if sum >= 0 {
        sum / n
    } else {
        -((-sum) / n)
    }
}

/// What a 64-bit register holds after `x` has been added into it.
pub fn wrap(x: i128) -> (wrapped: i64)
    requires
        i128::MIN < x,
    ensures
        wrapped == wrap64(x as int),
{
    let modulus: i128 = 0x1_0000_0000_0000_0000;
    let m: i128 = if x >= 0 {
        x % modulus
    } else {
        let k: i128 = (-x) % modulus;
        if k == 0 {
            0
        } else {
            modulus - k
        }
    };
    if m >= 0x8000_0000_0000_0000 {
        (m - modulus) as i64
    } else {
        m as i64
    }
}

/// The quotient of `sum` by `n`, rounded toward zero.
pub fn quotient(sum: i128, n: usize) -> (q: i64)
    requires
        n > 0,
        -0x8000_0000_0000_0000 * n <= sum <= 0x7fff_ffff_ffff_ffff * n,
    ensures
        q == mean(sum as int, n as int),
{
    let d: i128 = n as i128;
    if sum >= 0 {
        let q: i128 = sum / d;
        assert(q <= 0x7fff_ffff_ffff_ffff) by (nonlinear_arith)
            requires
                q == sum as int / d as int,
                0 <= sum <= 0x7fff_ffff_ffff_ffff * d,
                d > 0,
        ;
        assert(q >= 0) by (nonlinear_arith)
            requires
                q == sum as int / d as int,
                0 <= sum,
                d > 0,
        ;
        q as i64
    } else {
        let p: i128 = -sum;
        let q: i128 = p / d;
        assert(q <= 0x8000_0000_0000_0000) by (nonlinear_arith)
            requires
                q == p as int / d as int,
                0 <= p <= 0x8000_0000_0000_0000 * d,
                d > 0,
        ;
        assert(q >= 0) by (nonlinear_arith)
            requires
                q == p as int / d as int,
                0 <= p,
                d > 0,
        ;
        (-q) as i64
    }
}

} // verus!

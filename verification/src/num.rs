//! Bounded arithmetic shared by the engine's decisions.

use vstd::prelude::*;

verus! {

pub open spec fn min_of(a: int, b: int) -> int {
    if a <= b {
        a
    } else {
        b
    }
}

pub open spec fn max_of(a: int, b: int) -> int {
    if a >= b {
        a
    } else {
        b
    }
}

/// A number kept between two bounds.
pub open spec fn clamp_of(value: int, low: int, high: int) -> int {
    if value < low {
        low
    } else if value > high {
        high
    } else {
        value
    }
}

/// The quotient of two numbers, rounded up.
pub open spec fn div_ceil_of(a: int, b: int) -> int {
    a / b + if a % b == 0 {
        0int
    } else {
        1int
    }
}

pub fn min_u64(a: u64, b: u64) -> (result: u64)
    ensures
        result == min_of(a as int, b as int),
{
    if a <= b {
        a
    } else {
        b
    }
}

pub fn max_u64(a: u64, b: u64) -> (result: u64)
    ensures
        result == max_of(a as int, b as int),
{
    if a >= b {
        a
    } else {
        b
    }
}

pub fn clamp_usize(value: usize, low: usize, high: usize) -> (result: usize)
    requires
        low <= high,
    ensures
        result == clamp_of(value as int, low as int, high as int),
{
    if value < low {
        low
    } else if value > high {
        high
    } else {
        value
    }
}

/// The product of two numbers, or the largest number where it does not fit.
pub fn saturating_mul_u64(a: u64, b: u64) -> (result: u64)
    ensures
        result == min_of(a * b, u64::MAX as int),
{
    match a.checked_mul(b) {
        Some(product) => product,
        None => u64::MAX,
    }
}

pub fn div_ceil(a: u64, b: u64) -> (quotient: u64)
    requires
        b > 0,
    ensures
        quotient == div_ceil_of(a as int, b as int),
        quotient <= a,
{
    if a % b == 0 {
        proof {
            assert(a / b <= a) by (nonlinear_arith)
                requires
                    b >= 1,
            ;
        }
        a / b
    } else {
        proof {
            if b == 1 {
                assert(a % 1 == 0);
            }
            if a == 0 {
                assert(0int % (b as int) == 0) by (nonlinear_arith)
                    requires
                        b >= 1,
                ;
            }
            assert(a / b < a) by (nonlinear_arith)
                requires
                    b >= 2,
                    a >= 1,
            ;
        }
        a / b + 1
    }
}

pub fn div_ceil_usize(a: usize, b: usize) -> (quotient: usize)
    requires
        b > 0,
    ensures
        quotient == div_ceil_of(a as int, b as int),
        quotient <= a,
{
    let wide: u64 = div_ceil(a as u64, b as u64);
    wide as usize
}

/// A 64-bit number as an index, where it fits.
pub fn to_usize(value: u64) -> (result: Option<usize>)
    ensures
        match result {
            Some(index) => index == value,
            None => value > usize::MAX,
        },
{
    if value <= usize::MAX as u64 {
        Some(value as usize)
    } else {
        None
    }
}

/// Counting in blocks covers a number, and one block less does not.
pub proof fn lemma_div_ceil(a: int, b: int)
    requires
        a >= 0,
        b > 0,
    ensures
        div_ceil_of(a, b) * b >= a,
        div_ceil_of(a, b) >= 0,
        a > 0 ==> (div_ceil_of(a, b) - 1) * b < a && div_ceil_of(a, b) > 0,
        forall|k: int| 0 <= k && k * b < a ==> #[trigger] (k * b) < a && k < div_ceil_of(a, b),
        forall|k: int| 0 <= k < div_ceil_of(a, b) ==> #[trigger] (k * b) < a,
{
    vstd::arithmetic::div_mod::lemma_fundamental_div_mod(a, b);
    let q = a / b;
    let r = a % b;
    assert(a == b * q + r);
    assert(0 <= r < b) by {
        vstd::arithmetic::div_mod::lemma_mod_bound(a, b);
    }
    assert(q >= 0) by (nonlinear_arith)
        requires
            a >= 0,
            b > 0,
            q == a / b,
    ;
    let c = div_ceil_of(a, b);
    assert(c * b >= a) by (nonlinear_arith)
        requires
            a == b * q + r,
            0 <= r < b,
            c == q + if r == 0 { 0int } else { 1int },
    ;
    if a > 0 {
        assert((c - 1) * b < a && c > 0) by (nonlinear_arith)
            requires
                a == b * q + r,
                a > 0,
                b > 0,
                q >= 0,
                0 <= r < b,
                c == q + if r == 0 { 0int } else { 1int },
        ;
    }
    assert forall|k: int| 0 <= k && k * b < a implies #[trigger] (k * b) < a && k < c by {
        assert(k < c) by (nonlinear_arith)
            requires
                k * b < a,
                c * b >= a,
                b > 0,
        ;
    }
    assert forall|k: int| 0 <= k < c implies #[trigger] (k * b) < a by {
        assert(a > 0) by {
            if a == 0 {
                assert(q == 0 && r == 0) by (nonlinear_arith)
                    requires
                        0 == b * q + r,
                        b > 0,
                        q >= 0,
                        0 <= r < b,
                ;
            }
        }
        assert(k * b < a) by (nonlinear_arith)
            requires
                k <= c - 1,
                (c - 1) * b < a,
                b > 0,
        ;
    }
}

} // verus!

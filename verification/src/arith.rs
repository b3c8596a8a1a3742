//! Integer operations with exact contracts.
use vstd::prelude::*;

verus! {

/// `value`, or the nearest `i64` to it.
pub open spec fn clamp_i64(value: int) -> int {
    if value < i64::MIN {
        i64::MIN as int
    } else if value > i64::MAX {
        i64::MAX as int
    } else {
        value
    }
}

/// `a - b`, held to the range of `i64`.
pub fn saturating_difference(a: i64, b: i64) -> (difference: i64)
    ensures
        difference == clamp_i64(a - b),
{
    match a.checked_sub(b) {
        Some(difference) => difference,
        None => if a < b {
            i64::MIN
        } else {
            i64::MAX
        },
    }
}

/// `a / b`, rounded up.
pub open spec fn ceil_div(a: int, b: int) -> int {
    if a % b == 0 {
        a / b
    } else {
        a / b + 1
    }
}

/// `a / b`, rounded up.
pub fn divide_up(a: u64, b: u64) -> (quotient: u64)
    requires
        b > 0,
    ensures
        quotient == ceil_div(a as int, b as int),
{
    let whole: u64 = a / b;
    if a % b == 0 {
        whole
    } else {
        assert(whole < u64::MAX) by (nonlinear_arith)
            requires
                b > 0,
                whole == a / b,
                a % b != 0,
        ;
        whole + 1
    }
}

/// The rounded-up quotient is the least whole number of parts of size `b` that hold `a`.
pub proof fn law_rounds_up(a: int, b: int)
    requires
        a >= 0,
        b > 0,
    ensures
        a <= ceil_div(a, b) * b,
        (ceil_div(a, b) - 1) * b < a,
        ceil_div(a, b) >= 0,
{
    let q = a / b;
    vstd::arithmetic::div_mod::lemma_fundamental_div_mod(a, b);
    assert(q >= 0) by (nonlinear_arith)
        requires
            q == a / b,
            a >= 0,
            b > 0,
    ;
    assert(b * q == q * b && (q + 1) * b == q * b + b && (q - 1) * b == q * b - b)
        by (nonlinear_arith);
}

/// Of all `i64` none is nearer to a number than the one it is held to.
pub proof fn law_clamp_is_nearest(value: int, other: i64)
    ensures
        i64::MIN <= clamp_i64(value) <= i64::MAX,
        i64::MIN <= value <= i64::MAX ==> clamp_i64(value) == value,
        value < i64::MIN ==> clamp_i64(value) <= other,
        value > i64::MAX ==> clamp_i64(value) >= other,
{
}

} // verus!

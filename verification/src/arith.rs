//! Rounded division of integers.
use vstd::prelude::*;

verus! {

/// The least integer that is not below `a / b`, for a positive `b`.
pub open spec fn ceil_div(a: int, b: int) -> int
    recommends
        b > 0,
{
    (a + b - 1) / b
}

/// The greatest integer that is not above `a / b`, for a `b` other than
/// zero.
pub open spec fn floor_div(a: int, b: int) -> int
    recommends
        b != 0,
{
    if b > 0 {
        a / b
    } else {
        (-a) / (-b)
    }
}

/// Rounding a quotient up gives nothing positive exactly where the dividend
/// is not positive, and overshoots the dividend by less than the divisor.
pub proof fn lemma_ceil_div(a: int, b: int)
    requires
        b > 0,
    ensures
        ceil_div(a, b) <= 0 <==> a <= 0,
        a <= ceil_div(a, b) * b < a + b,
{
    let q = (a + b - 1) / b;
    let r = (a + b - 1) % b;
    assert(a + b - 1 == q * b + r && 0 <= r < b) by (nonlinear_arith)
        requires
            b > 0,
            q == (a + b - 1) / b,
            r == (a + b - 1) % b,
    ;
    assert(q <= 0 <==> a <= 0) by (nonlinear_arith)
        requires
            b > 0,
            a + b - 1 == q * b + r,
            0 <= r < b,
    ;
}

/// The floor of a quotient is the one integer `q` with
/// `q * b <= a < (q + 1) * b`, for a positive `b`.
pub proof fn lemma_floor_div_bounds(a: int, b: int)
    requires
        b > 0,
    ensures
        floor_div(a, b) * b <= a < (floor_div(a, b) + 1) * b,
{
    let q = a / b;
    let r = a % b;
    assert(a == q * b + r && 0 <= r < b && (q + 1) * b == q * b + b) by (nonlinear_arith)
        requires
            b > 0,
            q == a / b,
            r == a % b,
    ;
}

/// Rounding the quotient of a negative dividend down is rounding that of
/// its opposite up.
proof fn lemma_floor_of_negative(a: int, b: int)
    requires
        a < 0,
        b > 0,
    ensures
        a / b == -((-a + b - 1) / b),
{
    let q = (-a + b - 1) / b;
    let r = (-a + b - 1) % b;
    assert(-a + b - 1 == q * b + r && 0 <= r < b) by (nonlinear_arith)
        requires
            b > 0,
            q == (-a + b - 1) / b,
            r == (-a + b - 1) % b,
    ;
    assert(a == (-q) * b + (b - 1 - r)) by (nonlinear_arith)
        requires
            -a + b - 1 == q * b + r,
    ;
    vstd::arithmetic::div_mod::lemma_fundamental_div_mod_converse(a, b, -q, b - 1 - r);
}

/// The quotient of `num` by `den`, rounded down.
pub(crate) fn div_floor(num: i64, den: i64) -> (q: i64)
    requires
        den != 0,
        -0x4000_0000_0000_0000 <= num <= 0x4000_0000_0000_0000,
        -0x4000_0000_0000_0000 <= den <= 0x4000_0000_0000_0000,
    ensures
        q == floor_div(num as int, den as int),
{
    let (n, d): (i64, i64) = if den < 0 {
        (-num, -den)
    } else {
        (num, den)
    };
    if n >= 0 {
        n / d
    } else {
        proof {
            lemma_floor_of_negative(n as int, d as int);
        }
        let up: u64 = ((-n) as u64 + d as u64 - 1) / (d as u64);
        -(up as i64)
    }
}

} // verus!

use vstd::prelude::*;
use crate::error::SensorError;

verus! {

/// Scale of the fixed-point factors: one is written `1_000_000`.
pub const MICRO: u32 = 1_000_000;

/// The least whole number of microradians that is not below a quarter turn
/// (π/2 rad is 1 570 796.33 µrad). A whole angle is below a quarter turn
/// exactly when it is below this.
pub const QUARTER_TURN: u32 = 1_570_797;

/// The least whole number of microradians that is not below a full turn
/// (2π rad is 6 283 185.31 µrad). A whole angle is below a full turn exactly
/// when it is below this.
pub const FULL_TURN: u32 = 6_283_186;

/// 4π in parts per million, rounded to the nearest (4π is 12.566 370 6).
pub const FOUR_PI: u32 = 12_566_371;

/// The solid angle of the whole sphere, 4π sr, in units of 10⁻¹⁸ sr,
/// rounded down. A whole solid angle in these units is at most 4π sr exactly
/// when it is at most this.
pub const FULL_SPHERE: u64 = 12_566_370_614_359_172_953;

/// Whether a number fits the widest machine integer.
pub open spec fn fits(value: int) -> bool {
    i128::MIN <= value <= i128::MAX
}

/// A computation that ends as its mathematical model says: with the model's
/// error, or with the model's value, which then fits the machine type.
pub open spec fn realizes(outcome: Result<i128, SensorError>, model: Result<int, SensorError>) -> bool {
    match model {
        Ok(value) => i128::MIN <= value <= i128::MAX && outcome == Ok::<i128, SensorError>(
            value as i128,
        ),
        Err(reason) => outcome == Err::<i128, SensorError>(reason),
    }
}

/// A computation of two numbers that ends as its mathematical model says:
/// with the model's error, or with the model's pair of values.
pub open spec fn realizes_pair(
    outcome: Result<(i128, i128), SensorError>,
    model: Result<(int, int), SensorError>,
) -> bool {
    match model {
        Ok((first, second)) => outcome matches Ok(pair) && pair.0 == first && pair.1 == second,
        Err(reason) => outcome == Err::<(i128, i128), SensorError>(reason),
    }
}

/// An evaluator of a function of an angle (a sine or a cosine): it may be
/// called at every angle, given in microradians.
pub open spec fn on_every_angle<S: Fn(u64) -> i32>(f: &S) -> bool {
    forall|angle: u64| call_requires(f, (angle,))
}

/// The quotient `num / den` rounded toward negative infinity, for a
/// denominator of either sign.
pub open spec fn floor_ratio(num: int, den: int) -> int
    recommends
        den != 0,
{
    if den > 0 {
        num / den
    } else {
        (-num) / (-den)
    }
}

/// Divides with rounding toward negative infinity, by a denominator of
/// either sign.
pub(crate) fn floor_ratio_of(num: i128, den: i128) -> (q: i128)
    requires
        den != 0,
        num > i128::MIN,
        den > i128::MIN,
    ensures
        q == floor_ratio(num as int, den as int),
{
    if den > 0 {
        floor_div(num, den)
    } else {
        floor_div(-num, -den)
    }
}

/// Divides by a positive number with rounding toward negative infinity,
/// which is what `/` means in the contracts of this crate.
pub(crate) fn floor_div(num: i128, den: i128) -> (q: i128)
    requires
        den > 0,
    ensures
        q == (num as int) / (den as int),
{
    if num >= 0 {
        num / den
    } else {
        // num = -(below + 1), so the floor is -(below / den) - 1.
        let below: i128 = -(num + 1);
        let q: i128 = below / den;
        let r: i128 = below % den;
        proof {
            vstd::arithmetic::div_mod::lemma_fundamental_div_mod(below as int, den as int);
            vstd::arithmetic::div_mod::lemma_mod_bound(below as int, den as int);
            assert(num == (-q - 1) * den + (den - r - 1)) by (nonlinear_arith)
                requires
                    below == den * q + r,
                    num == -(below + 1),
            ;
            vstd::arithmetic::div_mod::lemma_fundamental_div_mod_converse_div(
                num as int,
                den as int,
                -q - 1,
                den - r - 1,
            );
        }
        -q - 1
    }
}

/// The product of two bounded numbers.
pub(crate) fn times(x: i128, y: i128, Ghost(bx): Ghost<int>, Ghost(by): Ghost<int>) -> (product: i128)
    requires
        -bx <= x <= bx,
        -by <= y <= by,
        bx * by <= i128::MAX,
    ensures
        product == x * y,
        -(bx * by) <= product <= bx * by,
{
    assert(-(bx * by) <= x * y <= bx * by) by (nonlinear_arith)
        requires
            -bx <= x <= bx,
            -by <= y <= by,
    ;
    x * y
}

/// A quotient by a whole number other than zero is no larger in magnitude
/// than what is divided, give or take the rounding.
pub(crate) proof fn lemma_floor_ratio_magnitude(num: int, den: int)
    requires
        den != 0,
    ensures
        num >= 0 ==> -num - 1 <= floor_ratio(num, den) <= num,
        num < 0 ==> num <= floor_ratio(num, den) <= -num,
{
    let n = if den > 0 { num } else { -num };
    let d = if den > 0 { den } else { -den };
    vstd::arithmetic::div_mod::lemma_fundamental_div_mod(n, d);
    vstd::arithmetic::div_mod::lemma_mod_bound(n, d);
    let q = n / d;
    let r = n % d;
    assert(n == d * q + r);
    if n >= 0 {
        assert(0 <= q <= n) by (nonlinear_arith)
            requires
                n == d * q + r,
                0 <= r < d,
                n >= 0,
                d >= 1,
        ;
    } else {
        assert(n <= q < 0) by (nonlinear_arith)
            requires
                n == d * q + r,
                0 <= r < d,
                n < 0,
                d >= 1,
        ;
    }
}

/// `root` is the square root of `n` rounded down.
pub open spec fn is_floor_sqrt(n: int, root: int) -> bool {
    0 <= root && root * root <= n < (root + 1) * (root + 1)
}

/// The square root rounded down, by bisection.
pub fn isqrt(n: u128) -> (root: u64)
    ensures
        is_floor_sqrt(n as int, root as int),
{
    let mut low: u128 = 0;
    let mut high: u128 = 0x1_0000_0000_0000_0000;
    assert(low * low <= n < high * high) by (nonlinear_arith)
        requires
            low == 0,
            high == 0x1_0000_0000_0000_0000,
            n <= u128::MAX,
    ;
    while high - low > 1
        invariant
            low < high <= 0x1_0000_0000_0000_0000,
            low * low <= n < high * high,
        decreases high - low,
    {
        let mid: u128 = low + (high - low) / 2;
        assert(mid * mid < 0x1_0000_0000_0000_0000 * 0x1_0000_0000_0000_0000) by (nonlinear_arith)
            requires
                0 <= mid < 0x1_0000_0000_0000_0000,
        ;
        if mid * mid <= n {
            low = mid;
        } else {
            high = mid;
        }
    }
    low as u64
}

} // verus!

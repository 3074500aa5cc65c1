//! Fixed-point scalar arithmetic: signed 64-bit values with 16 fractional
//! bits. `ONE` represents the real number one. All operations are exact
//! integer computations, and each executable function's contract pins its
//! result to a spec-level mirror of the same computation.

use vstd::prelude::*;

verus! {

/// The fixed-point unit: values are interpreted as multiples of 1/ONE.
pub const ONE: i64 = 65536;

/// pi in fixed point (rounded to the nearest representable value).
pub const PI_FX: i64 = 205887;

/// pi/2 in fixed point.
pub const HALF_PI_FX: i64 = 102944;

/// 2*pi in fixed point, kept equal to `2 * PI_FX` so that the half-circle
/// split of `sin_fx` is exact.
pub const TWO_PI_FX: i64 = 411774;

/// ln 2 in fixed point.
pub const LN2_FX: i64 = 45426;

/// Truncating (toward zero) quotient by a positive divisor: the spec-level
/// counterpart of the executable sign/magnitude division below.
pub open spec fn div_t(a: int, b: int) -> int {
    if a >= 0 {
        a / b
    } else {
        -((-a) / b)
    }
}

/// Truncating division of a signed value by a positive one.
pub fn div_s(a: i64, b: i64) -> (r: i64)
    requires
        0 < b,
        -0x4000_0000_0000_0000 < a < 0x4000_0000_0000_0000,
    ensures
        r == div_t(a as int, b as int),
{
    if a >= 0 {
        a / b
    } else {
        -((-a) / b)
    }
}

/// The product of two values bounded in magnitude is bounded by the product
/// of the bounds.
pub proof fn lemma_mul_le(a: int, aa: int, b: int, bb: int)
    by (nonlinear_arith)
    requires
        -aa <= a <= aa,
        -bb <= b <= bb,
        0 <= aa,
        0 <= bb,
    ensures
        -(aa * bb) <= a * b <= aa * bb,
{
}

/// Fixed-point multiplication: the exact product scaled back down, truncated
/// toward zero.
pub open spec fn fmul_s(a: int, b: int) -> int {
    div_t(a * b, ONE as int)
}

/// Fixed-point multiplication of values small enough that the intermediate
/// product cannot overflow.
pub fn fmul(a: i64, b: i64) -> (r: i64)
    requires
        -0x4000_0000 <= a <= 0x4000_0000,
        -0x4000_0000 <= b <= 0x4000_0000,
    ensures
        r == fmul_s(a as int, b as int),
        -0x4000_0000 * 0x4000_0000 <= a * b <= 0x4000_0000 * 0x4000_0000,
{
    proof {
        lemma_mul_le(a as int, 0x4000_0000, b as int, 0x4000_0000);
    }
    let p: i64 = a * b;
    div_s(p, ONE)
}

/// Fixed-point multiplication by a factor of at most one does not grow a
/// non-negative value.
pub proof fn lemma_fmul_le_left(a: int, b: int)
    requires
        0 <= a,
        0 <= b <= ONE,
    ensures
        0 <= fmul_s(a, b) <= a,
{
    assert(0 <= a * b && a * b <= ONE * a) by (nonlinear_arith)
        requires
            0 <= a,
            0 <= b <= ONE,
    ;
    lemma_div_nonneg_le(a * b, ONE as int);
    lemma_div_bound(a * b, ONE as int, a);
}

/// `r` is the floor of the square root of `x`.
pub open spec fn is_sqrt_floor(x: int, r: int) -> bool {
    0 <= r && r * r <= x && x < (r + 1) * (r + 1)
}

/// The floor of the square root of a non-negative value.
pub open spec fn sqrt_floor(x: int) -> int {
    choose|r: int| is_sqrt_floor(x, r)
}

/// The floor of a square root is unique.
pub proof fn lemma_sqrt_floor_unique(x: int, r1: int, r2: int)
    requires
        is_sqrt_floor(x, r1),
        is_sqrt_floor(x, r2),
    ensures
        r1 == r2,
{
    if r1 < r2 {
        assert((r1 + 1) * (r1 + 1) <= r2 * r2) by (nonlinear_arith)
            requires
                0 <= r1 + 1 <= r2,
        ;
    }
    if r2 < r1 {
        assert((r2 + 1) * (r2 + 1) <= r1 * r1) by (nonlinear_arith)
            requires
                0 <= r2 + 1 <= r1,
        ;
    }
}

/// A witness pins `sqrt_floor` down.
pub proof fn lemma_sqrt_floor_eq(x: int, r: int)
    requires
        is_sqrt_floor(x, r),
    ensures
        sqrt_floor(x) == r,
{
    assert(is_sqrt_floor(x, sqrt_floor(x)));
    lemma_sqrt_floor_unique(x, sqrt_floor(x), r);
}

/// Every non-negative value has a square-root floor, so `sqrt_floor`
/// denotes it.
pub proof fn lemma_sqrt_floor_exists(x: int)
    requires
        0 <= x,
    ensures
        is_sqrt_floor(x, sqrt_floor(x)),
    decreases x,
{
    if x == 0 {
        assert(is_sqrt_floor(0, 0));
        lemma_sqrt_floor_eq(0, 0);
    } else {
        lemma_sqrt_floor_exists(x - 1);
        let r = sqrt_floor(x - 1);
        if x < (r + 1) * (r + 1) {
            assert(is_sqrt_floor(x, r));
            lemma_sqrt_floor_eq(x, r);
        } else {
            assert(is_sqrt_floor(x, r + 1)) by (nonlinear_arith)
                requires
                    is_sqrt_floor(x - 1, r),
                    (r + 1) * (r + 1) <= x,
            ;
            lemma_sqrt_floor_eq(x, r + 1);
        }
    }
}

/// Integer square root by bisection.
pub fn isqrt(x: u128) -> (r: u128)
    requires
        x < 0x4000_0000_0000_0000_0000_0000_0000_0000,
    ensures
        is_sqrt_floor(x as int, r as int),
        r == sqrt_floor(x as int),
        r < 0x8000_0000_0000_0000,
{
    let mut lo: u128 = 0;
    let mut hi: u128 = 0x8000_0000_0000_0000;
    while lo + 1 < hi
        invariant
            lo < hi <= 0x8000_0000_0000_0000,
            lo * lo <= x,
            x < hi * hi,
        decreases hi - lo,
    {
        let mid: u128 = lo + (hi - lo) / 2;
        proof {
            assert(mid * mid <= 0x4000_0000_0000_0000_0000_0000_0000_0000) by (nonlinear_arith)
                requires
                    mid <= 0x8000_0000_0000_0000u128,
            ;
        }
        if mid * mid <= x {
            lo = mid;
        } else {
            hi = mid;
        }
    }
    proof {
        lemma_sqrt_floor_eq(x as int, lo as int);
    }
    lo
}

/// A non-negative value divided by a positive one stays between zero and
/// the dividend.
pub proof fn lemma_div_nonneg_le(a: int, b: int)
    by (nonlinear_arith)
    requires
        0 <= a,
        1 <= b,
    ensures
        0 <= a / b <= a,
{
}

/// Dividing a larger non-negative value by the same positive divisor gives
/// a larger (or equal) quotient.
pub proof fn lemma_div_ordered(a: int, b: int, d: int)
    by (nonlinear_arith)
    requires
        0 <= a <= b,
        1 <= d,
    ensures
        a / d <= b / d,
{
}

/// A non-negative value bounded by `d * c` divides by `d` to at most `c`.
pub proof fn lemma_div_bound(a: int, d: int, c: int)
    by (nonlinear_arith)
    requires
        0 <= a,
        1 <= d,
        0 <= c,
        a <= d * c,
    ensures
        a / d <= c,
{
}

/// A non-negative value at least as large as its positive divisor divides
/// to at least one.
pub proof fn lemma_div_ge_one(a: int, b: int)
    by (nonlinear_arith)
    requires
        1 <= b <= a,
    ensures
        1 <= a / b,
{
}

/// Scaling up by `ONE` and dividing by `ONE` returns the value unchanged.
pub proof fn lemma_fx_cancel(u: int)
    by (nonlinear_arith)
    ensures
        div_t(ONE * u, ONE as int) == u,
        div_t(u * ONE, ONE as int) == u,
{
}

/// Integer square root of a non-negative fixed-point value at squared scale
/// (the argument carries two scale factors, the result one).
pub fn isqrt_i64(x: i64) -> (r: i64)
    requires
        0 <= x,
    ensures
        is_sqrt_floor(x as int, r as int),
        r == sqrt_floor(x as int),
        0 <= r,
        r * r <= x,
{
    let r: u128 = isqrt(x as u128);
    proof {
        assert(r * r <= x);
        if r > 0x1_0000_0000u128 {
            assert(r * r > 0x1_0000_0000_0000_0000) by (nonlinear_arith)
                requires
                    r > 0x1_0000_0000u128,
            ;
        }
    }
    r as i64
}

/// Rational approximation of the sine on the first half circle
/// (Bhaskara's formula), evaluated in exact fixed-point arithmetic.
pub open spec fn sin_half_s(x: int) -> int {
    (16 * (x * (PI_FX - x)) * ONE) / (5 * PI_FX * PI_FX - 4 * (x * (PI_FX - x)))
}

/// Sine of an angle in the first half circle.
pub fn sin_half(x: i64) -> (r: i64)
    requires
        0 <= x <= PI_FX,
    ensures
        r == sin_half_s(x as int),
        0 <= r <= ONE,
{
    proof {
        lemma_mul_le(x as int, PI_FX as int, (PI_FX - x) as int, PI_FX as int);
    }
    let u: i64 = x * (PI_FX - x);
    proof {
        assert(0 <= u) by (nonlinear_arith)
            requires
                u == x * (PI_FX - x),
                0 <= x,
                x <= PI_FX,
        ;
        assert(4 * u <= PI_FX * PI_FX) by (nonlinear_arith)
            requires
                u == x * (PI_FX - x),
        ;
    }
    let num: i64 = 16 * u * ONE;
    let den: i64 = 5 * PI_FX * PI_FX - 4 * u;
    proof {
        assert(num <= den * ONE) by (nonlinear_arith)
            requires
                num == 16 * u * ONE,
                den == 5 * PI_FX * PI_FX - 4 * u,
                4 * u <= PI_FX * PI_FX,
                0 <= u,
        ;
        lemma_div_bound(num as int, den as int, ONE as int);
        lemma_div_nonneg_le(num as int, den as int);
    }
    num / den
}

/// Sine over a full turn: the second half circle is the negated first half.
pub open spec fn sin_s(x: int) -> int {
    if x <= PI_FX {
        sin_half_s(x)
    } else {
        -sin_half_s(x - PI_FX)
    }
}

/// Sine of an angle in `[0, TWO_PI_FX]`.
pub fn sin_fx(x: i64) -> (r: i64)
    requires
        0 <= x <= TWO_PI_FX,
    ensures
        r == sin_s(x as int),
        -ONE <= r <= ONE,
{
    if x <= PI_FX {
        sin_half(x)
    } else {
        -sin_half(x - PI_FX)
    }
}

/// Cosine as the sine of the angle advanced by a quarter turn.
pub open spec fn cos_s(x: int) -> int {
    if x + HALF_PI_FX <= TWO_PI_FX {
        sin_s(x + HALF_PI_FX)
    } else {
        sin_s(x + HALF_PI_FX - TWO_PI_FX)
    }
}

/// Cosine of an angle in `[0, TWO_PI_FX]`.
pub fn cos_fx(x: i64) -> (r: i64)
    requires
        0 <= x <= TWO_PI_FX,
    ensures
        r == cos_s(x as int),
        -ONE <= r <= ONE,
{
    let y: i64 = x + HALF_PI_FX;
    if y <= TWO_PI_FX {
        sin_fx(y)
    } else {
        sin_fx(y - TWO_PI_FX)
    }
}

/// Powers of two.
pub open spec fn pow2(k: int) -> int
    decreases k,
{
    if k <= 0 {
        1
    } else {
        2 * pow2(k - 1)
    }
}

/// Powers of two grow monotonically.
pub proof fn lemma_pow2_mono(a: int, b: int)
    requires
        0 <= a <= b,
    ensures
        pow2(a) <= pow2(b),
        1 <= pow2(a),
    decreases b,
{
    if a < b {
        lemma_pow2_mono(a, b - 1);
    } else {
        if a > 0 {
            lemma_pow2_mono(a - 1, a - 1);
        }
    }
}

/// Cubic Taylor polynomial of `exp(-x)` on `[0, LN2_FX)`, in exact
/// fixed-point arithmetic.
pub open spec fn exp_neg_poly_s(x: int) -> int {
    ONE - x + (x * x) / (2 * ONE) - (x * x * x) / (6 * ONE * ONE)
}

/// `exp(-x)` for a non-negative fixed-point argument: range reduction by
/// ln 2, a cubic polynomial on the remainder, then a power-of-two scaling.
pub open spec fn exp_neg_s(x: int) -> int {
    if x / (LN2_FX as int) >= 32 {
        0
    } else {
        exp_neg_poly_s(x - (x / (LN2_FX as int)) * LN2_FX) / pow2(x / (LN2_FX as int))
    }
}

/// Decaying exponential for Beer-Lambert attenuation.
pub fn exp_neg(x: i64) -> (r: i64)
    requires
        0 <= x,
    ensures
        r == exp_neg_s(x as int),
        0 <= r <= ONE,
        x == 0 ==> r == ONE,
{
    let k: i64 = x / LN2_FX;
    if k >= 32 {
        0
    } else {
        let rem: i64 = x - k * LN2_FX;
        proof {
            lemma_mul_le(rem as int, LN2_FX as int, rem as int, LN2_FX as int);
        }
        let r2: i64 = rem * rem;
        proof {
            assert(0 <= r2) by (nonlinear_arith)
                requires
                    r2 == rem * rem,
            ;
            lemma_mul_le(r2 as int, (LN2_FX * LN2_FX) as int, rem as int, LN2_FX as int);
        }
        let r3: i64 = r2 * rem;
        proof {
            assert(0 <= r3) by (nonlinear_arith)
                requires
                    r3 == r2 * rem,
                    0 <= r2,
                    0 <= rem,
            ;
        }
        let t2: i64 = r2 / (2 * ONE);
        let t3: i64 = r3 / (6 * ONE * ONE);
        proof {
            lemma_div_nonneg_le(r2 as int, (2 * ONE) as int);
            lemma_div_nonneg_le(r3 as int, (6 * ONE * ONE) as int);
            assert(r2 <= (2 * ONE) * rem) by (nonlinear_arith)
                requires
                    r2 == rem * rem,
                    0 <= rem <= 2 * ONE,
            ;
            lemma_div_bound(r2 as int, (2 * ONE) as int, rem as int);
            lemma_div_bound(r3 as int, (6 * ONE * ONE) as int, 3638);
        }
        let p: i64 = ONE - rem + t2 - t3;
        let mut pw: i64 = 1;
        let mut i: i64 = 0;
        while i < k
            invariant
                0 <= i <= k <= 31,
                pw == pow2(i as int),
                1 <= pw,
                pw <= 0x8000_0000,
        decreases k - i,
        {
            proof {
                lemma_pow2_mono(i as int + 1, 31);
                assert(pow2(31) == 0x8000_0000) by {
                    reveal_with_fuel(pow2, 32);
                }
            }
            pw = pw * 2;
            i = i + 1;
        }
        proof {
            lemma_div_nonneg_le(p as int, pw as int);
        }
        p / pw
    }
}

} // verus!

//! Saturating fixed-point scalar arithmetic.
//!
//! A scalar is an `i64` holding a real quantity scaled by [`SCALE`]: one
//! world unit is `SCALE` ticks.  Every operation is total: results that
//! would leave the `i64` range saturate to the nearest bound, and products
//! and quotients are truncated toward zero to the nearest tick.  Each
//! executable operation carries an exact contract phrased with the spec
//! functions of this module, so callers know the result to the tick.
use vstd::prelude::*;

verus! {

/// Number of ticks in one world unit.
pub const SCALE: i64 = 1_000_000;

/// The scalar one, in ticks.
pub const ONE: i64 = 1_000_000;

/// Saturate a mathematical integer into the `i64` range.
pub open spec fn sat64(x: int) -> int {
    if x > i64::MAX as int {
        i64::MAX as int
    } else if x < i64::MIN as int {
        i64::MIN as int
    } else {
        x
    }
}

/// [`sat64`], carried back into the machine type.
pub open spec fn sat_i64(x: int) -> i64 {
    sat64(x) as i64
}

/// Magnitude of an integer.
pub open spec fn mag(x: int) -> int {
    if x >= 0 {
        x
    } else {
        -x
    }
}

/// Division truncating toward zero (the scheme the executable operations
/// use), meaningful for a positive divisor.
pub open spec fn tdiv(a: int, b: int) -> int {
    if a >= 0 {
        a / b
    } else {
        -((-a) / b)
    }
}

/// Fixed-point sum.
pub open spec fn fadd(a: int, b: int) -> int {
    sat64(a + b)
}

/// Fixed-point difference.
pub open spec fn fsub(a: int, b: int) -> int {
    sat64(a - b)
}

/// Fixed-point negation.
pub open spec fn fneg(a: int) -> int {
    sat64(-a)
}

/// Fixed-point product: exact product in ticks squared, brought back to
/// ticks by truncation toward zero, then saturated.
pub open spec fn fmul(a: int, b: int) -> int {
    sat64(tdiv(a * b, SCALE as int))
}

/// Fixed-point quotient for a positive divisor.
pub open spec fn fdiv(a: int, b: int) -> int {
    sat64(tdiv(a * (SCALE as int), b))
}

/// Clamp `v` to the symmetric interval `[-e, e]` (for `e >= 0`).
pub open spec fn sclamp(v: int, e: int) -> int {
    if v > e {
        e
    } else if v < -e {
        -e
    } else {
        v
    }
}

/// `r` is the floor of the square root of `n`.
pub open spec fn is_floor_sqrt(n: int, r: int) -> bool {
    0 <= r && r * r <= n && n < (r + 1) * (r + 1)
}

/// The floor of the square root of a nonnegative integer.
pub open spec fn floor_sqrt(n: int) -> int {
    choose|r: int| is_floor_sqrt(n, r)
}

/// Every nonnegative integer has a floor square root.
pub proof fn lemma_floor_sqrt_exists(n: int)
    requires
        n >= 0,
    ensures
        is_floor_sqrt(n, floor_sqrt(n)),
    decreases n,
{
    if n == 0 {
        assert(is_floor_sqrt(0, 0));
    } else {
        lemma_floor_sqrt_exists(n - 1);
        let r = floor_sqrt(n - 1);
        if n < (r + 1) * (r + 1) {
            assert(is_floor_sqrt(n, r));
        } else {
            assert(n == (r + 1) * (r + 1));
            assert((r + 1) * (r + 1) < (r + 2) * (r + 2)) by (nonlinear_arith)
                requires
                    r >= 0,
            ;
            assert(is_floor_sqrt(n, r + 1));
        }
    }
    assert(exists|q: int| is_floor_sqrt(n, q));
}

/// The floor square root is unique.
pub proof fn lemma_floor_sqrt_unique(n: int, r1: int, r2: int)
    requires
        is_floor_sqrt(n, r1),
        is_floor_sqrt(n, r2),
    ensures
        r1 == r2,
{
    if r1 < r2 {
        assert((r1 + 1) * (r1 + 1) <= r2 * r2) by (nonlinear_arith)
            requires
                0 <= r1,
                r1 < r2,
        ;
    }
    if r2 < r1 {
        assert((r2 + 1) * (r2 + 1) <= r1 * r1) by (nonlinear_arith)
            requires
                0 <= r2,
                r2 < r1,
        ;
    }
}

/// A value whose floor square root is witnessed satisfies the definition.
pub proof fn lemma_floor_sqrt_is(n: int, r: int)
    requires
        is_floor_sqrt(n, r),
    ensures
        floor_sqrt(n) == r,
{
    assert(is_floor_sqrt(n, floor_sqrt(n))) by {
        assert(exists|q: int| is_floor_sqrt(n, q));
    }
    lemma_floor_sqrt_unique(n, floor_sqrt(n), r);
}


/// Truncating division is exact on multiples of the divisor.
pub proof fn lemma_tdiv_factor(x: int, d: int)
    requires
        d > 0,
    ensures
        tdiv(x * d, d) == x,
{
    if x >= 0 {
        vstd::arithmetic::div_mod::lemma_div_multiples_vanish(x, d);
        assert(x * d == d * x) by (nonlinear_arith);
    } else {
        vstd::arithmetic::div_mod::lemma_div_multiples_vanish(-x, d);
        assert(-(x * d) == d * (-x)) by (nonlinear_arith);
        assert(x * d < 0) by (nonlinear_arith)
            requires
                x < 0,
                d > 0,
        ;
    }
}

/// Multiplying by one tick of one is the identity on in-range scalars.
pub proof fn lemma_fmul_one(a: int)
    requires
        i64::MIN <= a <= i64::MAX,
    ensures
        fmul(a, ONE as int) == a,
        fmul(ONE as int, a) == a,
{
    lemma_tdiv_factor(a, SCALE as int);
    assert(a * (ONE as int) == (ONE as int) * a) by (nonlinear_arith);
}

/// Multiplying by minus one tick of one negates an in-range scalar.
pub proof fn lemma_fmul_neg_one(a: int)
    requires
        -(i64::MAX as int) <= a <= i64::MAX,
    ensures
        fmul(a, -(ONE as int)) == -a,
        fmul(-(ONE as int), a) == -a,
{
    lemma_tdiv_factor(-a, SCALE as int);
    assert(a * (-(ONE as int)) == (-a) * (SCALE as int)) by (nonlinear_arith);
    assert((-(ONE as int)) * a == (-a) * (SCALE as int)) by (nonlinear_arith);
}

/// Dividing a nonzero scalar by its own magnitude gives a signed one.
pub proof fn lemma_fdiv_self_signed(x: int)
    requires
        x != 0,
        i64::MIN <= x <= i64::MAX,
    ensures
        fdiv(x, mag(x)) == if x > 0 {
            ONE as int
        } else {
            -(ONE as int)
        },
{
    if x > 0 {
        lemma_tdiv_factor(SCALE as int, x);
        assert(x * (SCALE as int) == (SCALE as int) * x) by (nonlinear_arith);
    } else {
        lemma_tdiv_factor(-(SCALE as int), -x);
        assert(x * (SCALE as int) == (-(SCALE as int)) * (-x)) by (nonlinear_arith);
    }
}


/// Flooring and ceiling against a positive divisor respect order.
pub proof fn lemma_floor_le_ceil(a: int, b: int, d: int)
    requires
        d > 0,
        a <= b,
    ensures
        a / d <= -((-b) / d),
{
    vstd::arithmetic::div_mod::lemma_div_is_ordered(a, b, d);
    vstd::arithmetic::div_mod::lemma_fundamental_div_mod(b, d);
    vstd::arithmetic::div_mod::lemma_fundamental_div_mod(-b, d);
    assert(b / d + (-b) / d <= 0) by (nonlinear_arith)
        requires
            d > 0,
            b == d * (b / d) + b % d,
            -b == d * ((-b) / d) + (-b) % d,
            0 <= b % d < d,
            0 <= (-b) % d < d,
    ;
}

/// The floor of `a / d` stays within one divisor of `a`.
pub proof fn lemma_floor_bound(a: int, d: int)
    requires
        d > 0,
    ensures
        d * (a / d) <= a < d * (a / d) + d,
{
    vstd::arithmetic::div_mod::lemma_fundamental_div_mod(a, d);
    vstd::arithmetic::div_mod::lemma_mod_division_less_than_divisor(a, d);
}

/// The ceiling of `a / d` stays within one divisor of `a`.
pub proof fn lemma_ceil_bound(a: int, d: int)
    requires
        d > 0,
    ensures
        a <= d * (-((-a) / d)) < a + d,
{
    vstd::arithmetic::div_mod::lemma_fundamental_div_mod(-a, d);
    assert(d * (-((-a) / d)) == -(d * ((-a) / d))) by (nonlinear_arith);
    vstd::arithmetic::div_mod::lemma_mod_division_less_than_divisor(-a, d);
}

/// Saturating addition.
pub fn fx_add(a: i64, b: i64) -> (r: i64)
    ensures
        r == fadd(a as int, b as int),
{
    let s: i128 = a as i128 + b as i128;
    if s > i64::MAX as i128 {
        i64::MAX
    } else if s < i64::MIN as i128 {
        i64::MIN
    } else {
        s as i64
    }
}

/// Saturating subtraction.
pub fn fx_sub(a: i64, b: i64) -> (r: i64)
    ensures
        r == fsub(a as int, b as int),
{
    let s: i128 = a as i128 - b as i128;
    if s > i64::MAX as i128 {
        i64::MAX
    } else if s < i64::MIN as i128 {
        i64::MIN
    } else {
        s as i64
    }
}

/// Saturating negation.
pub fn fx_neg(a: i64) -> (r: i64)
    ensures
        r == fneg(a as int),
{
    if a == i64::MIN {
        i64::MAX
    } else {
        -a
    }
}

/// Saturating magnitude.
pub fn fx_abs(a: i64) -> (r: i64)
    ensures
        r == sat64(mag(a as int)),
{
    if a == i64::MIN {
        i64::MAX
    } else if a < 0 {
        -a
    } else {
        a
    }
}

/// Split an `i64` into sign and magnitude.
fn split_mag(a: i64) -> (m: u128)
    ensures
        m == mag(a as int),
{
    if a < 0 {
        (-(a as i128)) as u128
    } else {
        a as u128
    }
}

/// Carry a truncated nonnegative quotient back to a signed saturated value.
fn signed_sat(neg: bool, q: u128) -> (r: i64)
    ensures
        r == sat64(if neg { -(q as int) } else { q as int }),
{
    if neg {
        if q >= 9223372036854775808u128 {
            i64::MIN
        } else {
            -(q as i64)
        }
    } else {
        if q > i64::MAX as u128 {
            i64::MAX
        } else {
            q as i64
        }
    }
}

/// Saturating fixed-point multiplication.
pub fn fx_mul(a: i64, b: i64) -> (r: i64)
    ensures
        r == fmul(a as int, b as int),
{
    proof {
        assert((a as int) * (b as int) <= 0x40000000000000000000000000000000int
            && (a as int) * (b as int) >= -0x40000000000000000000000000000000int)
            by (nonlinear_arith)
            requires
                -0x8000000000000000 <= a as int <= 0x7fffffffffffffff,
                -0x8000000000000000 <= b as int <= 0x7fffffffffffffff,
        ;
    }
    let p: i128 = (a as i128) * (b as i128);
    let neg: bool = p < 0;
    let m: u128 = if neg {
        (-p) as u128
    } else {
        p as u128
    };
    let q: u128 = m / (SCALE as u128);
    proof {
        if p >= 0 {
            assert(q == (a * b) / (SCALE as int));
        } else {
            assert(q == (-(a * b)) / (SCALE as int));
        }
    }
    signed_sat(neg, q)
}

/// Saturating fixed-point division by a positive divisor.
pub fn fx_div(a: i64, b: i64) -> (r: i64)
    requires
        b > 0,
    ensures
        r == fdiv(a as int, b as int),
{
    let ma: u128 = split_mag(a);
    let num: u128 = ma * (SCALE as u128);
    proof {
        assert(ma * (SCALE as u128) <= 0x8000000000000000u128 * 1_000_000u128)
            by (nonlinear_arith)
            requires
                ma <= 0x8000000000000000u128,
        ;
        assert(num == mag(a as int) * (SCALE as int));
        if a >= 0 {
            assert(mag(a as int) * (SCALE as int) == (a as int) * (SCALE as int));
        } else {
            assert(mag(a as int) * (SCALE as int) == -((a as int) * (SCALE as int)))
                by (nonlinear_arith)
                requires
                    a < 0,
                    mag(a as int) == -(a as int),
            ;
        }
    }
    let q: u128 = num / (b as u128);
    signed_sat(a < 0, q)
}

/// Floor square root; the input may use the full `u128` range.
pub fn isqrt(n: u128) -> (r: u64)
    ensures
        is_floor_sqrt(n as int, r as int),
        r == floor_sqrt(n as int),
{
    let mut lo: u128 = 0;
    let mut hi: u128 = 0x1_0000_0000_0000_0000u128;
    while lo + 1 < hi
        invariant
            0 <= lo < hi <= 0x1_0000_0000_0000_0000u128,
            lo * lo <= n,
            n < hi * hi,
        decreases hi - lo,
    {
        let mid: u128 = lo + (hi - lo) / 2;
        proof {
            assert(mid * mid < 0x1_0000_0000_0000_0000_0000_0000_0000_0000int)
                by (nonlinear_arith)
                requires
                    0 <= mid < 0x1_0000_0000_0000_0000u128,
            ;
        }
        let sq: u128 = mid * mid;
        if sq <= n {
            lo = mid;
        } else {
            hi = mid;
        }
    }
    proof {
        assert(is_floor_sqrt(n as int, lo as int));
        lemma_floor_sqrt_is(n as int, lo as int);
    }
    lo as u64
}

/// Fixed-point square root of a nonnegative scalar.
pub fn fx_sqrt(a: i64) -> (r: i64)
    requires
        a >= 0,
    ensures
        r == floor_sqrt((a as int) * (SCALE as int)),
        r >= 0,
{
    proof {
        assert((a as int) * (SCALE as int) <= 0x7fffffffffffffffint * 0x100000int * 16)
            by (nonlinear_arith)
            requires
                0 <= a as int <= 0x7fffffffffffffff,
        ;
    }
    let n: u128 = (a as u128) * (SCALE as u128);
    let r: u64 = isqrt(n);
    proof {
        let ri = r as int;
        let ni = n as int;
        assert(ri * ri <= ni < (ri + 1) * (ri + 1));
        assert(ri < 0x8000000000000000int) by (nonlinear_arith)
            requires
                0 <= ri,
                ri * ri <= ni,
                ni < 0x4000000000000000000000000000000int,
        ;
    }
    r as i64
}

/// Floor of `a / SCALE`: the cell that tick coordinate `a` falls in.
pub fn cell_floor(a: i64) -> (r: i64)
    ensures
        r == (a as int) / (SCALE as int),
{
    if a >= 0 {
        ((a as u64) / (SCALE as u64)) as i64
    } else {
        let m: u64 = if a == i64::MIN {
            0x8000000000000000u64
        } else {
            (-a) as u64
        };
        let q: u64 = (m + (SCALE as u64) - 1) / (SCALE as u64);
        proof {
            let ai = a as int;
            let s = SCALE as int;
            vstd::arithmetic::div_mod::lemma_fundamental_div_mod(-ai, s);
            vstd::arithmetic::div_mod::lemma_fundamental_div_mod(ai, s);
            assert(q == (m as int + s - 1) / s);
            assert((m as int + s - 1) / s == -(ai / s)) by (nonlinear_arith)
                requires
                    s == 1_000_000,
                    m == -ai,
                    ai < 0,
                    -ai == s * ((-ai) / s) + (-ai) % s,
                    ai == s * (ai / s) + ai % s,
                    0 <= (-ai) % s < s,
                    0 <= ai % s < s,
            ;
        }
        -(q as i64)
    }
}

/// Ceiling of `a / SCALE`: one past the cell below tick coordinate `a`.
pub fn cell_ceil(a: i64) -> (r: i64)
    ensures
        r == -((-(a as int)) / (SCALE as int)),
{
    if a <= 0 {
        let m: u64 = if a == i64::MIN {
            0x8000000000000000u64
        } else {
            (-a) as u64
        };
        -((m / (SCALE as u64)) as i64)
    } else {
        let q: u64 = ((a as u64) + (SCALE as u64) - 1) / (SCALE as u64);
        proof {
            let ai = a as int;
            let s = SCALE as int;
            vstd::arithmetic::div_mod::lemma_fundamental_div_mod(-ai, s);
            vstd::arithmetic::div_mod::lemma_fundamental_div_mod(ai, s);
            assert((ai + s - 1) / s == -((-ai) / s)) by (nonlinear_arith)
                requires
                    s == 1_000_000,
                    ai > 0,
                    -ai == s * ((-ai) / s) + (-ai) % s,
                    ai == s * (ai / s) + ai % s,
                    0 <= (-ai) % s < s,
                    0 <= ai % s < s,
            ;
        }
        q as i64
    }
}

/// Half of a nonnegative scalar, truncated to the tick.
pub fn fx_half(a: i64) -> (r: i64)
    requires
        a >= 0,
    ensures
        r == (a as int) / 2,
{
    ((a as u64) / 2u64) as i64
}

/// Clamp to a symmetric interval around zero.
pub fn fx_clamp(v: i64, e: i64) -> (r: i64)
    requires
        e >= 0,
    ensures
        r == sclamp(v as int, e as int),
{
    if v > e {
        e
    } else if v < -e {
        -e
    } else {
        v
    }
}

} // verus!

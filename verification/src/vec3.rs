//! Three-component fixed-point vectors.
//!
//! Positions, velocities, impulses and corrections are all values of
//! [`V3`]: three saturating fixed-point scalars (see [`crate::fx`]).
//! Each executable operation is pinned to the matching spec function, so
//! vector expressions in contracts mean exactly what the code computes.
use vstd::prelude::*;
use crate::fx::{
    SCALE, ONE, sat64, sat_i64, mag, fadd, fmul, fdiv, sclamp, floor_sqrt, is_floor_sqrt,
    fx_add, fx_sub, fx_neg, fx_abs, fx_mul, fx_div, fx_sqrt, fx_clamp,
};

verus! {

/// A vector of three fixed-point scalars.
#[derive(Clone, Copy, PartialEq, Eq, Structural, Debug)]
pub struct V3 {
    pub x: i64,
    pub y: i64,
    pub z: i64,
}

/// The zero vector.
pub open spec fn v_zero() -> V3 {
    V3 { x: 0, y: 0, z: 0 }
}

/// Component-wise saturating sum.
pub open spec fn v_add(a: V3, b: V3) -> V3 {
    V3 { x: sat_i64(a.x + b.x), y: sat_i64(a.y + b.y), z: sat_i64(a.z + b.z) }
}

/// Component-wise saturating difference.
pub open spec fn v_sub(a: V3, b: V3) -> V3 {
    V3 { x: sat_i64(a.x - b.x), y: sat_i64(a.y - b.y), z: sat_i64(a.z - b.z) }
}

/// Component-wise saturating negation.
pub open spec fn v_neg(a: V3) -> V3 {
    V3 { x: sat_i64(-a.x), y: sat_i64(-a.y), z: sat_i64(-a.z) }
}

/// Scale every component by the fixed-point scalar `s`.
pub open spec fn v_scale(a: V3, s: int) -> V3 {
    V3 {
        x: sat_i64(fmul(a.x as int, s)),
        y: sat_i64(fmul(a.y as int, s)),
        z: sat_i64(fmul(a.z as int, s)),
    }
}

/// Fixed-point dot product.
pub open spec fn v_dot(a: V3, b: V3) -> int {
    fadd(fadd(fmul(a.x as int, b.x as int), fmul(a.y as int, b.y as int)), fmul(
        a.z as int,
        b.z as int,
    ))
}

/// Component-wise clamp of `v` to the box `[-e, e]`.
pub open spec fn v_clamp(v: V3, e: V3) -> V3 {
    V3 {
        x: sclamp(v.x as int, e.x as int) as i64,
        y: sclamp(v.y as int, e.y as int) as i64,
        z: sclamp(v.z as int, e.z as int) as i64,
    }
}

/// Component-wise half of a vector with nonnegative components.
pub open spec fn v_half(s: V3) -> V3 {
    V3 { x: ((s.x as int) / 2) as i64, y: ((s.y as int) / 2) as i64, z: ((s.z as int) / 2) as i64 }
}

/// Euclidean norm of a vector, in ticks.  A vector on a coordinate axis
/// gets the exact magnitude of its one nonzero component; elsewhere the
/// norm is the floor square root of the dot product, carried to ticks.
pub open spec fn v_norm(d: V3) -> int {
    if d.y == 0 && d.z == 0 {
        sat64(mag(d.x as int))
    } else if d.x == 0 && d.z == 0 {
        sat64(mag(d.y as int))
    } else if d.x == 0 && d.y == 0 {
        sat64(mag(d.z as int))
    } else {
        floor_sqrt(v_dot(d, d) * (SCALE as int))
    }
}

/// Unit vector along `d` (each component divided by the norm).  A vector
/// whose norm is zero has no direction; the unit along the positive x
/// axis stands in for it, the documented fallback for degenerate
/// contact normals.
pub open spec fn v_unit(d: V3) -> V3 {
    let n = v_norm(d);
    if n == 0 {
        V3 { x: ONE, y: 0, z: 0 }
    } else {
        V3 {
            x: sat_i64(fdiv(d.x as int, n)),
            y: sat_i64(fdiv(d.y as int, n)),
            z: sat_i64(fdiv(d.z as int, n)),
        }
    }
}

/// A square is never negative, also after fixed-point truncation.
pub proof fn lemma_fmul_square_nonneg(a: int)
    ensures
        fmul(a, a) >= 0,
{
    assert(a * a >= 0) by (nonlinear_arith);
    assert((a * a) / (SCALE as int) >= 0) by {
        vstd::arithmetic::div_mod::lemma_div_pos_is_pos(a * a, SCALE as int);
    }
}

/// The dot product of a vector with itself is never negative.
pub proof fn lemma_dot_self_nonneg(d: V3)
    ensures
        v_dot(d, d) >= 0,
{
    lemma_fmul_square_nonneg(d.x as int);
    lemma_fmul_square_nonneg(d.y as int);
    lemma_fmul_square_nonneg(d.z as int);
}

/// The norm is never negative.
pub proof fn lemma_norm_nonneg(d: V3)
    ensures
        v_norm(d) >= 0,
{
    lemma_dot_self_nonneg(d);
    if !(d.y == 0 && d.z == 0) && !(d.x == 0 && d.z == 0) && !(d.x == 0 && d.y == 0) {
        let n = v_dot(d, d) * (SCALE as int);
        assert(n >= 0) by {
            vstd::arithmetic::mul::lemma_mul_nonnegative(v_dot(d, d), SCALE as int);
        }
        assert(is_floor_sqrt(n, floor_sqrt(n))) by {
            crate::fx::lemma_floor_sqrt_exists(n);
        }
    }
}

impl V3 {
    /// The zero vector.
    pub fn zero() -> (r: V3)
        ensures
            r == v_zero(),
    {
        V3 { x: 0, y: 0, z: 0 }
    }

    /// Build a vector from whole world units.
    pub fn from_units(x: i64, y: i64, z: i64) -> (r: V3)
        requires
            -0x7fffffffff < x < 0x7fffffffff,
            -0x7fffffffff < y < 0x7fffffffff,
            -0x7fffffffff < z < 0x7fffffffff,
        ensures
            r == (V3 { x: (x * SCALE as int) as i64, y: (y * SCALE as int) as i64, z: (z * SCALE
                as int) as i64 }),
    {
        proof {
            assert(x * (SCALE as int) < 0x8000000000000000int && x * (SCALE as int)
                > -0x8000000000000000int && y * (SCALE as int) < 0x8000000000000000int && y * (
            SCALE as int) > -0x8000000000000000int && z * (SCALE as int) < 0x8000000000000000int
                && z * (SCALE as int) > -0x8000000000000000int) by (nonlinear_arith)
                requires
                    -0x7fffffffff < x < 0x7fffffffff,
                    -0x7fffffffff < y < 0x7fffffffff,
                    -0x7fffffffff < z < 0x7fffffffff,
            ;
        }
        V3 { x: x * SCALE, y: y * SCALE, z: z * SCALE }
    }

    /// Component-wise saturating sum.
    pub fn add(self, b: V3) -> (r: V3)
        ensures
            r == v_add(self, b),
    {
        V3 { x: fx_add(self.x, b.x), y: fx_add(self.y, b.y), z: fx_add(self.z, b.z) }
    }

    /// Component-wise saturating difference.
    pub fn sub(self, b: V3) -> (r: V3)
        ensures
            r == v_sub(self, b),
    {
        V3 { x: fx_sub(self.x, b.x), y: fx_sub(self.y, b.y), z: fx_sub(self.z, b.z) }
    }

    /// Component-wise saturating negation.
    pub fn neg(self) -> (r: V3)
        ensures
            r == v_neg(self),
    {
        V3 { x: fx_neg(self.x), y: fx_neg(self.y), z: fx_neg(self.z) }
    }

    /// Scale every component by the fixed-point scalar `s`.
    pub fn scale(self, s: i64) -> (r: V3)
        ensures
            r == v_scale(self, s as int),
    {
        V3 { x: fx_mul(self.x, s), y: fx_mul(self.y, s), z: fx_mul(self.z, s) }
    }

    /// Fixed-point dot product.
    pub fn dot(self, b: V3) -> (r: i64)
        ensures
            r == v_dot(self, b),
    {
        fx_add(fx_add(fx_mul(self.x, b.x), fx_mul(self.y, b.y)), fx_mul(self.z, b.z))
    }

    /// Component-wise half, for a vector with nonnegative components.
    pub fn half(self) -> (r: V3)
        requires
            self.x >= 0,
            self.y >= 0,
            self.z >= 0,
        ensures
            r == v_half(self),
            r.x >= 0 && r.y >= 0 && r.z >= 0,
    {
        V3 { x: crate::fx::fx_half(self.x), y: crate::fx::fx_half(self.y), z: crate::fx::fx_half(self.z) }
    }

    /// Component-wise clamp to the box `[-e, e]`.
    pub fn clamp_box(self, e: V3) -> (r: V3)
        requires
            e.x >= 0,
            e.y >= 0,
            e.z >= 0,
        ensures
            r == v_clamp(self, e),
    {
        V3 {
            x: fx_clamp(self.x, e.x),
            y: fx_clamp(self.y, e.y),
            z: fx_clamp(self.z, e.z),
        }
    }

    /// Euclidean norm, in ticks.
    pub fn norm(self) -> (r: i64)
        ensures
            r == v_norm(self),
            r >= 0,
    {
        if self.y == 0 && self.z == 0 {
            fx_abs(self.x)
        } else if self.x == 0 && self.z == 0 {
            fx_abs(self.y)
        } else if self.x == 0 && self.y == 0 {
            fx_abs(self.z)
        } else {
            let d2 = self.dot(self);
            proof {
                lemma_dot_self_nonneg(self);
            }
            fx_sqrt(d2)
        }
    }

    /// Norm together with the unit vector along `self`; the unit along
    /// the positive x axis stands in for the direction of a vector of
    /// zero norm.
    pub fn norm_unit(self) -> (r: (i64, V3))
        ensures
            r.0 == v_norm(self),
            r.0 >= 0,
            r.1 == v_unit(self),
    {
        let n = self.norm();
        if n == 0 {
            (n, V3 { x: ONE, y: 0, z: 0 })
        } else {
            (n, V3 { x: fx_div(self.x, n), y: fx_div(self.y, n), z: fx_div(self.z, n) })
        }
    }
}

} // verus!

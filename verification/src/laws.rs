//! Laws of the collision solver, proved against the step model.
//!
//! Each proof function here states a property of the narrow-phase
//! responses defined in [`crate::model`], under explicit bounds that
//! keep the fixed-point arithmetic away from saturation (a scalar that
//! saturates at the edge of the `i64` range no longer follows the exact
//! algebra these laws describe).
use vstd::prelude::*;
use crate::fx::{
    SCALE, ONE, mag, fadd, fsub, fneg, fmul, fdiv, tdiv, lemma_tdiv_factor, lemma_fmul_one,
    lemma_fmul_neg_one, lemma_fdiv_self_signed,
};
use crate::vec3::{V3, v_zero, v_add, v_sub, v_neg, v_scale, v_dot, v_norm, v_unit};
use crate::model::{
    pair_response, wall_response, contact, inv_mass, Bodies, spheres_contact, pair_active,
    slot_cellbox, sphere_cellbox, sphere_contrib, pair_deltas, sphere_manifold_upto,
    sphere_manifold, m_acc, m_zero,
};
use crate::index::{CellBox, boxes_overlap};
use crate::vec3::{lemma_fmul_square_nonneg, lemma_dot_self_nonneg, lemma_norm_nonneg};
use crate::fx::{floor_sqrt, lemma_floor_sqrt_exists, lemma_floor_bound, lemma_ceil_bound};

verus! {

/// Magnitude bound under which the laws' chains of fixed-point
/// operations stay exact: well below the saturation range.
pub const LAW_BOUND: i64 = 0x400_0000_0000_0000;

/// Two overlapping spheres whose relative velocity already points
/// apart receive no velocity change and no positional correction from
/// the sphere-sphere phase.
pub proof fn law_separating_no_impulse(
    pi: V3,
    pj: V3,
    vi: V3,
    vj: V3,
    ri: int,
    rj: int,
    mi: int,
    mj: int,
    e: int,
    pc: int,
)
    requires
        contact(pi, pj, ri, rj),
        v_dot(v_sub(vj, vi), v_unit(v_sub(pj, pi))) >= 0,
    ensures
        pair_response(pi, pj, vi, vj, ri, rj, mi, mj, e, pc).0 == v_zero(),
        pair_response(pi, pj, vi, vj, ri, rj, mi, mj, e, pc).1 == v_zero(),
        pair_response(pi, pj, vi, vj, ri, rj, mi, mj, e, pc).2 == v_zero(),
        pair_response(pi, pj, vi, vj, ri, rj, mi, mj, e, pc).3 == v_zero(),
{
}

/// Elastic head-on collision: two spheres of mass one on a collision
/// course along the x axis, with restitution one, swap the velocity
/// components along that axis, exactly, and their other velocity
/// components are untouched.
pub proof fn law_head_on_swap(pi: V3, pj: V3, vi: V3, vj: V3, ri: i64, rj: i64, pc: int)
    requires
        pi.y == pj.y,
        pi.z == pj.z,
        pi.x != pj.x,
        mag(pi.x as int) < LAW_BOUND,
        mag(pj.x as int) < LAW_BOUND,
        mag(vi.x as int) < LAW_BOUND,
        mag(vj.x as int) < LAW_BOUND,
        1 <= ri < LAW_BOUND,
        1 <= rj < LAW_BOUND,
        contact(pi, pj, ri as int, rj as int),
        (pj.x > pi.x && vj.x < vi.x) || (pj.x < pi.x && vj.x > vi.x),
    ensures
        ({
            let r = pair_response(
                pi,
                pj,
                vi,
                vj,
                ri as int,
                rj as int,
                ONE as int,
                ONE as int,
                ONE as int,
                pc,
            );
            &&& v_add(vi, r.0).x == vj.x
            &&& v_add(vj, r.1).x == vi.x
            &&& r.0.y == 0 && r.0.z == 0
            &&& r.1.y == 0 && r.1.z == 0
        }),
{
    let d = v_sub(pj, pi);
    let dx = d.x as int;
    assert(dx == pj.x - pi.x);
    assert(d.y == 0 && d.z == 0);
    let dist = v_norm(d);
    assert(dist == mag(dx));
    let rsum = fadd(ri as int, rj as int);
    assert(dist <= rsum);
    let n = v_unit(d);
    assert(dist > 0);
    lemma_fdiv_self_signed(dx);
    let sgn: int = if dx > 0 {
        1
    } else {
        -1
    };
    assert(n.x as int == sgn * (ONE as int)) by {
        if dx > 0 {
            assert(fdiv(dx, dist) == ONE as int);
        } else {
            assert(fdiv(dx, dist) == -(ONE as int));
        }
    }
    assert(n.y == 0 && n.z == 0) by {
        assert(tdiv(0int * (SCALE as int), dist) == 0int / dist);
        vstd::arithmetic::div_mod::lemma_div_of0(dist);
    }
    let rel = v_sub(vj, vi);
    let rv = rel.x as int;
    assert(rv == vj.x - vi.x);
    let van = v_dot(rel, n);
    assert(van == sgn * rv) by {
        if dx > 0 {
            lemma_fmul_one(rv);
        } else {
            lemma_fmul_neg_one(rv);
        }
        assert(fmul(rel.y as int, 0) == 0) by {
            assert((rel.y as int) * 0 == 0) by (nonlinear_arith);
            vstd::arithmetic::div_mod::lemma_div_of0(SCALE as int);
        }
        assert(fmul(rel.z as int, 0) == 0) by {
            assert((rel.z as int) * 0 == 0) by (nonlinear_arith);
            vstd::arithmetic::div_mod::lemma_div_of0(SCALE as int);
        }
    }
    assert(van < 0);
    let invm = inv_mass(ONE as int);
    assert(invm == ONE as int) by {
        lemma_tdiv_factor(SCALE as int, SCALE as int);
    }
    let invsum = fadd(invm, invm);
    assert(invsum == 2 * (ONE as int));
    let twoe = fadd(ONE as int, ONE as int);
    assert(twoe == 2 * (ONE as int));
    let prod = fmul(twoe, van);
    assert(prod == 2 * van) by {
        assert(twoe * van == (2 * van) * (SCALE as int)) by (nonlinear_arith)
            requires
                twoe == 2 * (SCALE as int),
        ;
        lemma_tdiv_factor(2 * van, SCALE as int);
    }
    let imp = fdiv(fneg(prod), invsum);
    assert(imp == -van) by {
        assert(fneg(prod) == -2 * van);
        assert((-2 * van) * (SCALE as int) == (-van) * invsum) by (nonlinear_arith)
            requires
                invsum == 2 * (SCALE as int),
        ;
        lemma_tdiv_factor(-van, invsum);
    }
    let impulse = v_scale(n, imp);
    assert(impulse.x as int == -rv) by {
        if dx > 0 {
            lemma_fmul_one(imp);
        } else {
            lemma_fmul_neg_one(imp);
        }
    }
    assert(impulse.y == 0 && impulse.z == 0) by {
        assert(0int * imp == 0) by (nonlinear_arith);
        vstd::arithmetic::div_mod::lemma_div_of0(SCALE as int);
    }
    let dvi = v_neg(v_scale(impulse, invm));
    let dvj = v_scale(impulse, invm);
    assert(dvi.x as int == rv && dvj.x as int == -rv) by {
        lemma_fmul_one(impulse.x as int);
    }
    assert(dvi.y == 0 && dvi.z == 0 && dvj.y == 0 && dvj.z == 0) by {
        assert(0int * invm == 0) by (nonlinear_arith);
        vstd::arithmetic::div_mod::lemma_div_of0(SCALE as int);
    }
    let r = pair_response(
        pi,
        pj,
        vi,
        vj,
        ri as int,
        rj as int,
        ONE as int,
        ONE as int,
        ONE as int,
        pc,
    );
    assert(r.0 == dvi && r.1 == dvj);
    assert(v_add(vi, dvi).x == vj.x);
    assert(v_add(vj, dvj).x == vi.x);
}

/// Wall containment: a sphere moving frontally into a wall face along
/// the x axis, with restitution one, has the sign of its velocity
/// component along the wall normal reversed exactly, the other
/// components untouched.
pub proof fn law_wall_reflection(p: V3, v: V3, rad: i64, wc: V3, wsz: V3, pc: int)
    requires
        wsz.x >= 0 && wsz.y >= 0 && wsz.z >= 0,
        mag(p.x as int) < LAW_BOUND,
        mag(p.y as int) < LAW_BOUND,
        mag(p.z as int) < LAW_BOUND,
        mag(wc.x as int) < LAW_BOUND,
        mag(wc.y as int) < LAW_BOUND,
        mag(wc.z as int) < LAW_BOUND,
        wsz.x < LAW_BOUND && wsz.y < LAW_BOUND && wsz.z < LAW_BOUND,
        1 <= rad < LAW_BOUND,
        mag(v.x as int) < LAW_BOUND,
        // the sphere faces the wall's x face: inside the band on y, z,
        // outside the box on x
        mag((wc.y - p.y) as int) <= (wsz.y as int) / 2,
        mag((wc.z - p.z) as int) <= (wsz.z as int) / 2,
        mag((wc.x - p.x) as int) > (wsz.x as int) / 2,
        // penetrating: within one radius of the face
        mag((wc.x - p.x) as int) - (wsz.x as int) / 2 <= rad,
        // moving toward the wall
        (wc.x > p.x && v.x > 0) || (wc.x < p.x && v.x < 0),
    ensures
        ({
            let r = wall_response(p, v, rad as int, wc, wsz, ONE as int, pc);
            &&& v_add(v, r.0).x == -v.x
            &&& r.0.y == 0 && r.0.z == 0
        }),
{
    let n = v_sub(wc, p);
    let nx = n.x as int;
    assert(nx == wc.x - p.x);
    let ext = crate::vec3::v_half(wsz);
    assert(ext.x as int == (wsz.x as int) / 2);
    let closest = crate::vec3::v_clamp(n, ext);
    assert(closest.y == n.y && closest.z == n.z);
    let sgn: int = if nx > 0 {
        1
    } else {
        -1
    };
    assert(closest.x as int == sgn * (ext.x as int)) by {
        if nx > 0 {
            assert(nx > ext.x as int);
            assert(sgn * (ext.x as int) == ext.x as int) by (nonlinear_arith)
                requires
                    sgn == 1,
            ;
        } else {
            assert(nx < -(ext.x as int));
            assert(sgn * (ext.x as int) == -(ext.x as int)) by (nonlinear_arith)
                requires
                    sgn == -1,
            ;
        }
    }
    let nv = v_sub(n, closest);
    assert(nv.y == 0 && nv.z == 0);
    assert(nv.x as int == nx - sgn * (ext.x as int));
    assert(nv.x != 0) by {
        if nx > 0 {
            assert(nv.x as int == nx - (ext.x as int)) by (nonlinear_arith)
                requires
                    sgn == 1,
                    nv.x as int == nx - sgn * (ext.x as int),
            ;
        } else {
            assert(nv.x as int == nx + (ext.x as int)) by (nonlinear_arith)
                requires
                    sgn == -1,
                    nv.x as int == nx - sgn * (ext.x as int),
            ;
        }
    }
    assert(nv != v_zero());
    let dist = v_norm(nv);
    assert(dist == mag(nv.x as int));
    assert(dist == mag(nx) - (ext.x as int)) by {
        if nx > 0 {
            assert(nv.x as int == nx - (ext.x as int)) by (nonlinear_arith)
                requires
                    sgn == 1,
                    nv.x as int == nx - sgn * (ext.x as int),
            ;
        } else {
            assert(nv.x as int == nx + (ext.x as int)) by (nonlinear_arith)
                requires
                    sgn == -1,
                    nv.x as int == nx - sgn * (ext.x as int),
            ;
        }
    }
    assert(dist <= rad);
    let unit = v_unit(nv);
    lemma_fdiv_self_signed(nv.x as int);
    assert(unit.x as int == sgn * (ONE as int));
    assert(unit.y == 0 && unit.z == 0) by {
        assert(tdiv(0int * (SCALE as int), dist) == 0int / dist);
        vstd::arithmetic::div_mod::lemma_div_of0(dist);
    }
    let van = v_dot(v, unit);
    assert(van == sgn * (v.x as int)) by {
        if nx > 0 {
            lemma_fmul_one(v.x as int);
        } else {
            lemma_fmul_neg_one(v.x as int);
        }
        assert(fmul(v.y as int, 0) == 0) by {
            assert((v.y as int) * 0 == 0) by (nonlinear_arith);
            vstd::arithmetic::div_mod::lemma_div_of0(SCALE as int);
        }
        assert(fmul(v.z as int, 0) == 0) by {
            assert((v.z as int) * 0 == 0) by (nonlinear_arith);
            vstd::arithmetic::div_mod::lemma_div_of0(SCALE as int);
        }
    }
    assert(van > 0);
    let twoe = fadd(ONE as int, ONE as int);
    let prod = fmul(twoe, van);
    assert(prod == 2 * van) by {
        assert(twoe * van == (2 * van) * (SCALE as int)) by (nonlinear_arith)
            requires
                twoe == 2 * (SCALE as int),
        ;
        lemma_tdiv_factor(2 * van, SCALE as int);
    }
    let dv = v_neg(v_scale(unit, prod));
    assert(dv.x as int == -2 * (v.x as int)) by {
        if nx > 0 {
            lemma_fmul_one(prod);
        } else {
            lemma_fmul_neg_one(prod);
        }
    }
    assert(dv.y == 0 && dv.z == 0) by {
        assert(0int * prod == 0) by (nonlinear_arith);
        vstd::arithmetic::div_mod::lemma_div_of0(SCALE as int);
    }
    let r = wall_response(p, v, rad as int, wc, wsz, ONE as int, pc);
    assert(r.0 == dv);
    assert(v_add(v, dv).x == -v.x);
}

/// Magnitude bound for the broad-phase law: far beyond the index's
/// working region, yet small enough that squared distances do not
/// saturate.
pub const SOUND_BOUND: i64 = 0x100_0000_0000;

/// The sphere in slot `k` lies within the broad-phase law's bounds.
pub open spec fn slot_in_sound_bounds(b: Bodies, k: int) -> bool {
    &&& mag(b.pos[k].x as int) < SOUND_BOUND
    &&& mag(b.pos[k].y as int) < SOUND_BOUND
    &&& mag(b.pos[k].z as int) < SOUND_BOUND
    &&& 1 <= b.rad[k] < SOUND_BOUND
}

/// No component of a vector reaches a whole cell beyond its norm.
proof fn lemma_norm_dominates_components(d: V3)
    requires
        mag(d.x as int) <= 2 * SOUND_BOUND,
        mag(d.y as int) <= 2 * SOUND_BOUND,
        mag(d.z as int) <= 2 * SOUND_BOUND,
    ensures
        mag(d.x as int) < v_norm(d) + SCALE,
        mag(d.y as int) < v_norm(d) + SCALE,
        mag(d.z as int) < v_norm(d) + SCALE,
{
    let sc = SCALE as int;
    lemma_norm_nonneg(d);
    if d.y == 0 && d.z == 0 {
        assert(v_norm(d) == mag(d.x as int));
    } else if d.x == 0 && d.z == 0 {
        assert(v_norm(d) == mag(d.y as int));
    } else if d.x == 0 && d.y == 0 {
        assert(v_norm(d) == mag(d.z as int));
    } else {
        let dot = v_dot(d, d);
        lemma_dot_self_nonneg(d);
        let n = dot * sc;
        assert(n >= 0) by (nonlinear_arith)
            requires
                dot >= 0,
                sc > 0,
                n == dot * sc,
        ;
        lemma_floor_sqrt_exists(n);
        let norm = floor_sqrt(n);
        assert(norm * norm <= n < (norm + 1) * (norm + 1));
        assert(v_norm(d) == norm);
        assert forall|c: int| mag(c) <= 2 * SOUND_BOUND && (c == d.x as int || c == d.y as int
            || c == d.z as int) implies mag(c) < norm + sc by {
            let t = fmul(c, c);
            let k2 = (2 * SOUND_BOUND as int) * (2 * SOUND_BOUND as int);
            assert(c * c <= k2) by (nonlinear_arith)
                requires
                    mag(c) <= 2 * SOUND_BOUND,
                    k2 == (2 * SOUND_BOUND as int) * (2 * SOUND_BOUND as int),
                    mag(c) == if c >= 0 { c } else { -c as int },
            ;
            assert(c * c >= 0) by (nonlinear_arith);
            assert(tdiv(c * c, sc) == (c * c) / sc);
            assert((c * c) / sc <= i64::MAX as int) by {
                vstd::arithmetic::div_mod::lemma_div_is_ordered(c * c, k2, sc);
                assert(k2 == 0x400000000000000000000int) by (nonlinear_arith)
                    requires
                        k2 == (2 * SOUND_BOUND as int) * (2 * SOUND_BOUND as int),
                ;
                assert(k2 / sc <= i64::MAX as int);
            }
            assert((c * c) / sc >= 0) by {
                vstd::arithmetic::div_mod::lemma_div_pos_is_pos(c * c, sc);
            }
            assert(t == (c * c) / sc);
            assert(t * sc > c * c - sc) by {
                lemma_floor_bound(c * c, sc);
                assert(sc * ((c * c) / sc) == ((c * c) / sc) * sc) by (nonlinear_arith);
            }
            lemma_fmul_square_nonneg(d.x as int);
            lemma_fmul_square_nonneg(d.y as int);
            lemma_fmul_square_nonneg(d.z as int);
            assert(dot >= t);
            assert(n >= t * sc) by (nonlinear_arith)
                requires
                    dot >= t,
                    n == dot * sc,
                    sc > 0,
            ;
            assert((norm + 1) * (norm + 1) > c * c - sc);
            assert(mag(c) < norm + sc) by (nonlinear_arith)
                requires
                    (norm + 1) * (norm + 1) > c * c - sc,
                    norm >= 0,
                    sc == 1_000_000,
                    mag(c) == if c >= 0 { c } else { -c as int },
            ;
        }
    }
}

/// Broad-phase soundness: within the bounds, any two spheres in
/// contact are paired by the broad phase — their indexed cell boxes
/// overlap, so index-filtered candidate pairs lose no contact that a
/// brute-force all-pairs distance check would find.
pub proof fn law_broad_phase_sound(b: Bodies, i: int, j: int)
    requires
        0 <= i < b.pos.len(),
        0 <= j < b.pos.len(),
        slot_in_sound_bounds(b, i),
        slot_in_sound_bounds(b, j),
        spheres_contact(b, i, j),
    ensures
        pair_active(b, i, j),
{
    let sc = SCALE as int;
    let pi = b.pos[i];
    let pj = b.pos[j];
    let ri = b.rad[i] as int;
    let rj = b.rad[j] as int;
    let d = v_sub(pj, pi);
    assert(d.x as int == pj.x - pi.x && d.y as int == pj.y - pi.y && d.z as int == pj.z - pi.z);
    let rsum = fadd(ri, rj);
    assert(rsum == ri + rj);
    let dist = v_norm(d);
    assert(dist <= rsum);
    lemma_norm_dominates_components(d);
    assert(mag(d.x as int) < rsum + sc);
    assert(mag(d.y as int) < rsum + sc);
    let bi = slot_cellbox(b, i);
    let bj = slot_cellbox(b, j);
    // exact cell coordinates (the saturating sums stay in range)
    assert(bi.x0 as int == (pi.x - ri) / sc && bi.x1 as int == -((-(pi.x + ri)) / sc)
        && bi.y0 as int == (pi.y - ri) / sc && bi.y1 as int == -((-(pi.y + ri)) / sc)) by {
        lemma_cell_exact(pi, b.rad[i]);
    }
    assert(bj.x0 as int == (pj.x - rj) / sc && bj.x1 as int == -((-(pj.x + rj)) / sc)
        && bj.y0 as int == (pj.y - rj) / sc && bj.y1 as int == -((-(pj.y + rj)) / sc)) by {
        lemma_cell_exact(pj, b.rad[j]);
    }
    lemma_cells_meet(pi.x as int, ri, pj.x as int, rj, pj.x - pi.x);
    lemma_cells_meet(pj.x as int, rj, pi.x as int, ri, pi.x - pj.x);
    lemma_cells_meet(pi.y as int, ri, pj.y as int, rj, pj.y - pi.y);
    lemma_cells_meet(pj.y as int, rj, pi.y as int, ri, pi.y - pj.y);
}

/// Within the bounds, the cell coordinates of a sphere's box are the
/// plain floors and ceilings of its extent.
proof fn lemma_cell_exact(p: V3, r: i64)
    requires
        mag(p.x as int) < SOUND_BOUND,
        mag(p.y as int) < SOUND_BOUND,
        1 <= r < SOUND_BOUND,
    ensures
        sphere_cellbox(p, r).x0 as int == (p.x - r) / (SCALE as int),
        sphere_cellbox(p, r).x1 as int == -((-(p.x + r)) / (SCALE as int)),
        sphere_cellbox(p, r).y0 as int == (p.y - r) / (SCALE as int),
        sphere_cellbox(p, r).y1 as int == -((-(p.y + r)) / (SCALE as int)),
{
    let sc = SCALE as int;
    assert(fsub(p.x as int, r as int) == p.x - r);
    assert(fadd(p.x as int, r as int) == p.x + r);
    assert(fsub(p.y as int, r as int) == p.y - r);
    assert(fadd(p.y as int, r as int) == p.y + r);
    lemma_floor_bound(p.x - r, sc);
    lemma_floor_bound(p.y - r, sc);
    lemma_ceil_bound(p.x + r, sc);
    lemma_ceil_bound(p.y + r, sc);
    assert(-0x8000000000000000 <= (p.x - r) / sc <= 0x7fffffffffffffff) by (nonlinear_arith)
        requires
            sc == 1_000_000,
            mag(p.x as int) < SOUND_BOUND,
            1 <= r < SOUND_BOUND,
            SOUND_BOUND == 0x100_0000_0000,
            sc * ((p.x - r) / sc) <= p.x - r < sc * ((p.x - r) / sc) + sc,
    ;
    assert(-0x8000000000000000 <= (p.y - r) / sc <= 0x7fffffffffffffff) by (nonlinear_arith)
        requires
            sc == 1_000_000,
            mag(p.y as int) < SOUND_BOUND,
            1 <= r < SOUND_BOUND,
            SOUND_BOUND == 0x100_0000_0000,
            sc * ((p.y - r) / sc) <= p.y - r < sc * ((p.y - r) / sc) + sc,
    ;
    assert(-0x8000000000000000 <= -((-(p.x + r)) / sc) <= 0x7fffffffffffffff)
        by (nonlinear_arith)
        requires
            sc == 1_000_000,
            mag(p.x as int) < SOUND_BOUND,
            1 <= r < SOUND_BOUND,
            SOUND_BOUND == 0x100_0000_0000,
            p.x + r <= sc * (-((-(p.x + r)) / sc)) < p.x + r + sc,
    ;
    assert(-0x8000000000000000 <= -((-(p.y + r)) / sc) <= 0x7fffffffffffffff)
        by (nonlinear_arith)
        requires
            sc == 1_000_000,
            mag(p.y as int) < SOUND_BOUND,
            1 <= r < SOUND_BOUND,
            SOUND_BOUND == 0x100_0000_0000,
            p.y + r <= sc * (-((-(p.y + r)) / sc)) < p.y + r + sc,
    ;
}

/// On one axis: if the separation is less than the radii sum plus one
/// cell, the first sphere's ceiling cell reaches the second's floor
/// cell.
proof fn lemma_cells_meet(pa: int, ra: int, pb: int, rb: int, delta: int)
    requires
        ra >= 1,
        rb >= 1,
        delta == pb - pa,
        mag(delta) < ra + rb + SCALE,
    ensures
        (pb - rb) / (SCALE as int) <= -((-(pa + ra)) / (SCALE as int)),
{
    let sc = SCALE as int;
    lemma_floor_bound(pb - rb, sc);
    lemma_ceil_bound(pa + ra, sc);
    let lo = (pb - rb) / sc;
    let hi = -((-(pa + ra)) / sc);
    assert(sc * lo <= pb - rb);
    assert(sc * hi >= pa + ra);
    assert(lo <= hi) by (nonlinear_arith)
        requires
            sc == 1_000_000,
            sc * lo <= pb - rb,
            sc * hi >= pa + ra,
            mag(pb - pa) < ra + rb + sc,
            mag(pb - pa) == if pb - pa >= 0 { pb - pa } else { pa - pb },
    ;
}


/// Broad-phase exactness: within the bounds, a pair is in contact and
/// paired by the broad phase exactly when it is in contact — the set
/// of pairs flagged by the index-filtered sweep is the set a
/// brute-force all-pairs distance check flags.
pub proof fn law_broad_phase_exact(b: Bodies, i: int, j: int)
    requires
        0 <= i < b.pos.len(),
        0 <= j < b.pos.len(),
        slot_in_sound_bounds(b, i),
        slot_in_sound_bounds(b, j),
    ensures
        (pair_active(b, i, j) && spheres_contact(b, i, j)) <==> spheres_contact(b, i, j),
{
    if spheres_contact(b, i, j) {
        law_broad_phase_sound(b, i, j);
    }
}

/// Contribution of partner `t` to slot `k` under a brute-force
/// all-pairs sweep: like [`sphere_contrib`] but with no broad-phase
/// filter.
pub open spec fn all_pairs_contrib(b: Bodies, k: int, t: int) -> (V3, V3) {
    if t < k {
        let d = pair_deltas(b, t, k);
        (d.1, d.3)
    } else if t > k {
        let d = pair_deltas(b, k, t);
        (d.0, d.2)
    } else {
        (v_zero(), v_zero())
    }
}

/// Brute-force manifold of slot `k` over the partners below `bound`.
pub open spec fn all_pairs_manifold_upto(b: Bodies, k: int, bound: int) -> crate::model::Manifold
    decreases bound,
{
    if bound <= 0 {
        m_zero()
    } else {
        let m = all_pairs_manifold_upto(b, k, bound - 1);
        let c = all_pairs_contrib(b, k, bound - 1);
        m_acc(m, c.0, c.1)
    }
}

/// Brute-force manifold of slot `k` over all partners.
pub open spec fn all_pairs_manifold(b: Bodies, k: int) -> crate::model::Manifold {
    all_pairs_manifold_upto(b, k, b.pos.len() as int)
}

proof fn lemma_folds_agree(b: Bodies, k: int, bound: int)
    requires
        forall|t: int| 0 <= t < b.pos.len() ==> #[trigger] slot_in_sound_bounds(b, t),
        0 <= k < b.pos.len(),
        0 <= bound <= b.pos.len(),
    ensures
        sphere_manifold_upto(b, k, bound) == all_pairs_manifold_upto(b, k, bound),
    decreases bound,
{
    if bound > 0 {
        lemma_folds_agree(b, k, bound - 1);
        let t = bound - 1;
        if t != k {
            let lo = if t < k {
                t
            } else {
                k
            };
            let hi = if t < k {
                k
            } else {
                t
            };
            if !pair_active(b, lo, hi) {
                if spheres_contact(b, lo, hi) {
                    law_broad_phase_sound(b, lo, hi);
                }
                assert(!spheres_contact(b, lo, hi));
                assert(pair_deltas(b, lo, hi).0 == v_zero() && pair_deltas(b, lo, hi).1
                    == v_zero() && pair_deltas(b, lo, hi).2 == v_zero() && pair_deltas(
                    b,
                    lo,
                    hi,
                ).3 == v_zero());
            }
            assert(sphere_contrib(b, k, t) == all_pairs_contrib(b, k, t));
        }
    }
}

/// Broad-phase completeness at the outcome: within the bounds, the
/// sphere-sphere phase run on the index-filtered candidate pairs leaves
/// every sphere with exactly the manifold a brute-force all-pairs sweep
/// would leave.
pub proof fn law_broad_phase_manifolds(b: Bodies, k: int)
    requires
        forall|t: int| 0 <= t < b.pos.len() ==> #[trigger] slot_in_sound_bounds(b, t),
        0 <= k < b.pos.len(),
    ensures
        sphere_manifold(b, k) == all_pairs_manifold(b, k),
{
    lemma_folds_agree(b, k, b.pos.len() as int);
}


} // verus!

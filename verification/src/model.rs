//! Mathematical model of one simulation step.
//!
//! Every quantity the step computes — contact normals, impulses,
//! positional corrections, the two per-sphere accumulation passes and the
//! integrator — is written out here as a spec function over a
//! [`StateModel`], the ghost image of the simulation state, or over its
//! manifold-free projection [`Bodies`].  The executable step's contract
//! says that the state after the call equals this model applied to the
//! state before it, to the tick.
use vstd::prelude::*;
use crate::fx::{SCALE, ONE, mag, fadd, fsub, fneg, fmul, fdiv};
use crate::vec3::{V3, v_zero, v_add, v_sub, v_neg, v_scale, v_dot, v_clamp, v_half, v_norm, v_unit};
use crate::index::{CellBox, boxes_overlap};

verus! {

/// Pending response accumulated for one sphere during a step: the
/// velocity change and the positional correction the integrator will
/// apply.  Reset to zero at the start of every step.
#[derive(Clone, Copy, PartialEq, Eq, Structural, Debug)]
pub struct Manifold {
    pub vel_change: V3,
    pub pos_correction: V3,
}

/// The zero manifold.
pub open spec fn m_zero() -> Manifold {
    Manifold { vel_change: v_zero(), pos_correction: v_zero() }
}

/// Add a velocity-change and position-correction pair onto a manifold.
pub open spec fn m_acc(m: Manifold, dv: V3, dp: V3) -> Manifold {
    Manifold {
        vel_change: v_add(m.vel_change, dv),
        pos_correction: v_add(m.pos_correction, dp),
    }
}

/// Accumulating a zero response leaves a manifold unchanged.
pub proof fn lemma_m_acc_zero(m: Manifold)
    ensures
        m_acc(m, v_zero(), v_zero()) == m,
{
}

/// Ghost image of the whole simulation state.
#[verifier::ext_equal]
pub ghost struct StateModel {
    /// Sphere centers, by storage slot.
    pub pos: Seq<V3>,
    /// Sphere velocities.
    pub vel: Seq<V3>,
    /// Sphere radii (positive).
    pub rad: Seq<i64>,
    /// Sphere masses (positive).
    pub mass: Seq<i64>,
    /// Manifolds left by the most recent step.
    pub manifolds: Seq<Manifold>,
    /// Wall centers.
    pub wall_pos: Seq<V3>,
    /// Wall full extents (nonnegative).
    pub wall_size: Seq<V3>,
    /// Restitution coefficient, in `[0, ONE]`.
    pub restitution: int,
    /// Positional-correction percentage, in `[0, ONE]`.
    pub correction: int,
}

/// What the collision solver reads: the body columns and the two
/// coefficients.  Manifolds and walls are carried separately, so the
/// solver's meaning is visibly independent of the manifolds it writes.
#[verifier::ext_equal]
pub ghost struct Bodies {
    pub pos: Seq<V3>,
    pub vel: Seq<V3>,
    pub rad: Seq<i64>,
    pub mass: Seq<i64>,
    pub e: int,
    pub pc: int,
}

impl StateModel {
    /// The solver-relevant projection of this state.
    pub open spec fn bodies(&self) -> Bodies {
        Bodies {
            pos: self.pos,
            vel: self.vel,
            rad: self.rad,
            mass: self.mass,
            e: self.restitution,
            pc: self.correction,
        }
    }
}

/// The conservative cell box of a sphere: its extent on the two indexed
/// axes, floored and ceiled to the integer cell grid.
pub open spec fn sphere_cellbox(p: V3, r: i64) -> CellBox {
    CellBox {
        x0: (fsub(p.x as int, r as int) / (SCALE as int)) as i64,
        y0: (fsub(p.y as int, r as int) / (SCALE as int)) as i64,
        x1: (-((-fadd(p.x as int, r as int)) / (SCALE as int))) as i64,
        y1: (-((-fadd(p.y as int, r as int)) / (SCALE as int))) as i64,
    }
}


/// A sphere's cell box is never empty: it overlaps itself.
pub proof fn lemma_cellbox_self_overlap(p: V3, r: i64)
    requires
        r >= 0,
    ensures
        boxes_overlap(sphere_cellbox(p, r), sphere_cellbox(p, r)),
{
    let sc = SCALE as int;
    assert(fsub(p.x as int, r as int) <= fadd(p.x as int, r as int));
    assert(fsub(p.y as int, r as int) <= fadd(p.y as int, r as int));
    crate::fx::lemma_floor_le_ceil(fsub(p.x as int, r as int), fadd(p.x as int, r as int), sc);
    crate::fx::lemma_floor_le_ceil(fsub(p.y as int, r as int), fadd(p.y as int, r as int), sc);
}

/// The cell box of the sphere in slot `k`.
pub open spec fn slot_cellbox(b: Bodies, k: int) -> CellBox {
    sphere_cellbox(b.pos[k], b.rad[k])
}

/// Whether the broad phase pairs slots `i` and `j`: their indexed cell
/// boxes overlap on both indexed axes.
pub open spec fn pair_active(b: Bodies, i: int, j: int) -> bool {
    boxes_overlap(slot_cellbox(b, i), slot_cellbox(b, j))
}

/// Inverse mass of a body, in ticks.
pub open spec fn inv_mass(m: int) -> int {
    fdiv(ONE as int, m)
}

/// Whether two spheres are in contact: the distance between the centers
/// does not exceed the sum of the radii.
pub open spec fn contact(pi: V3, pj: V3, ri: int, rj: int) -> bool {
    v_norm(v_sub(pj, pi)) <= fadd(ri, rj)
}

/// Whether the spheres in slots `i` and `j` are in contact.
pub open spec fn spheres_contact(b: Bodies, i: int, j: int) -> bool {
    contact(b.pos[i], b.pos[j], b.rad[i] as int, b.rad[j] as int)
}

/// Narrow-phase response of a sphere pair (the first sphere being the
/// lower slot): velocity changes and positional corrections for the
/// two, all zero when the pair is not in contact, already separating
/// along the contact normal, or jointly immovable.  The contact normal
/// of coinciding centers falls back to the positive x axis (see
/// [`v_unit`]).
pub open spec fn pair_response(
    pi: V3,
    pj: V3,
    vi: V3,
    vj: V3,
    ri: int,
    rj: int,
    mi: int,
    mj: int,
    e: int,
    pc: int,
) -> (V3, V3, V3, V3) {
    let d = v_sub(pj, pi);
    let dist = v_norm(d);
    let rsum = fadd(ri, rj);
    if dist > rsum {
        (v_zero(), v_zero(), v_zero(), v_zero())
    } else {
        let n = v_unit(d);
        let rel = v_sub(vj, vi);
        let van = v_dot(rel, n);
        if van >= 0 {
            (v_zero(), v_zero(), v_zero(), v_zero())
        } else {
            let invi = inv_mass(mi);
            let invj = inv_mass(mj);
            let invsum = fadd(invi, invj);
            if invsum <= 0 {
                (v_zero(), v_zero(), v_zero(), v_zero())
            } else {
                let imp = fdiv(fneg(fmul(fadd(ONE as int, e), van)), invsum);
                let impulse = v_scale(n, imp);
                let dvi = v_neg(v_scale(impulse, invi));
                let dvj = v_scale(impulse, invj);
                let pen = fsub(rsum, dist);
                let corr = fmul(fdiv(pen, invsum), pc);
                let cvec = v_scale(n, corr);
                let dpi = v_neg(v_scale(cvec, invi));
                let dpj = v_scale(cvec, invj);
                (dvi, dvj, dpi, dpj)
            }
        }
    }
}

/// Narrow-phase response of the pair in slots `i < j`.
pub open spec fn pair_deltas(b: Bodies, i: int, j: int) -> (V3, V3, V3, V3) {
    pair_response(
        b.pos[i],
        b.pos[j],
        b.vel[i],
        b.vel[j],
        b.rad[i] as int,
        b.rad[j] as int,
        b.mass[i] as int,
        b.mass[j] as int,
        b.e,
        b.pc,
    )
}

/// Contact normal for a sphere center strictly inside a wall box: the
/// axis of least penetration, pointing from the sphere deeper into the
/// box (ties broken x before y before z; a centered sphere points +x).
pub open spec fn inside_unit(n: V3, ext: V3) -> V3 {
    let px = ext.x - mag(n.x as int);
    let py = ext.y - mag(n.y as int);
    let pz = ext.z - mag(n.z as int);
    if px <= py && px <= pz {
        V3 { x: if n.x >= 0 { ONE } else { (-1_000_000i64) }, y: 0, z: 0 }
    } else if py <= pz {
        V3 { x: 0, y: if n.y >= 0 { ONE } else { (-1_000_000i64) }, z: 0 }
    } else {
        V3 { x: 0, y: 0, z: if n.z >= 0 { ONE } else { (-1_000_000i64) } }
    }
}

/// Distance from a sphere center to a wall together with the contact
/// normal (pointing from the sphere toward the wall).  A center inside
/// the box has distance zero and the least-penetration fallback normal.
pub open spec fn wall_dist_unit(p: V3, wc: V3, wsz: V3) -> (int, V3) {
    let n = v_sub(wc, p);
    let ext = v_half(wsz);
    let closest = v_clamp(n, ext);
    let nv = v_sub(n, closest);
    if nv == v_zero() {
        (0, inside_unit(n, ext))
    } else {
        (v_norm(nv), v_unit(nv))
    }
}

/// Narrow-phase response of one sphere against one wall: zero without
/// contact or when the sphere does not move toward the wall; otherwise
/// the velocity component along the wall normal is reflected scaled by
/// restitution (the wall is immovable, so the sphere's mass drops out),
/// and the penetration scaled by the correction percentage is
/// accumulated against the normal.
pub open spec fn wall_response(p: V3, v: V3, rad: int, wc: V3, wsz: V3, e: int, pc: int) -> (
    V3,
    V3,
) {
    let du = wall_dist_unit(p, wc, wsz);
    let dist = du.0;
    let unit = du.1;
    if dist > rad {
        (v_zero(), v_zero())
    } else {
        let van = v_dot(v, unit);
        if van <= 0 {
            (v_zero(), v_zero())
        } else {
            let dv = v_neg(v_scale(unit, fmul(fadd(ONE as int, e), van)));
            let pen = fsub(rad, dist);
            let dp = v_neg(v_scale(unit, fmul(pen, pc)));
            (dv, dp)
        }
    }
}

/// Response of the sphere in slot `k` to the wall at index `w`.
pub open spec fn wall_deltas(b: Bodies, wc: Seq<V3>, wsz: Seq<V3>, k: int, w: int) -> (V3, V3) {
    wall_response(b.pos[k], b.vel[k], b.rad[k] as int, wc[w], wsz[w], b.e, b.pc)
}

/// Contribution of partner slot `t` to the manifold of slot `k` in the
/// sphere-sphere phase.  A pair contributes only when the broad phase
/// pairs it; the pair is evaluated with its lower slot first.
pub open spec fn sphere_contrib(b: Bodies, k: int, t: int) -> (V3, V3) {
    if t < k && pair_active(b, t, k) {
        let d = pair_deltas(b, t, k);
        (d.1, d.3)
    } else if t > k && pair_active(b, k, t) {
        let d = pair_deltas(b, k, t);
        (d.0, d.2)
    } else {
        (v_zero(), v_zero())
    }
}

/// Manifold of slot `k` after the sphere-sphere phase has taken in the
/// partners below `bound`, in slot order.
pub open spec fn sphere_manifold_upto(b: Bodies, k: int, bound: int) -> Manifold
    decreases bound,
{
    if bound <= 0 {
        m_zero()
    } else {
        let m = sphere_manifold_upto(b, k, bound - 1);
        let c = sphere_contrib(b, k, bound - 1);
        m_acc(m, c.0, c.1)
    }
}

/// Manifold of slot `k` after the whole sphere-sphere phase.
pub open spec fn sphere_manifold(b: Bodies, k: int) -> Manifold {
    sphere_manifold_upto(b, k, b.pos.len() as int)
}

/// Manifold of slot `k` after the sphere-wall phase has taken in the
/// walls below `bound`, in wall order, starting from `m`.
pub open spec fn wall_manifold_upto(
    b: Bodies,
    wc: Seq<V3>,
    wsz: Seq<V3>,
    k: int,
    m: Manifold,
    bound: int,
) -> Manifold
    decreases bound,
{
    if bound <= 0 {
        m
    } else {
        let prev = wall_manifold_upto(b, wc, wsz, k, m, bound - 1);
        let c = wall_deltas(b, wc, wsz, k, bound - 1);
        m_acc(prev, c.0, c.1)
    }
}


/// Before any partner is taken in, a manifold is zero.
pub proof fn lemma_sphere_upto_zero(b: Bodies, k: int)
    ensures
        sphere_manifold_upto(b, k, 0) == m_zero(),
{
}

/// Taking in an active pair `i < j` adds the pair's response to both
/// accumulating manifolds.
pub proof fn lemma_sphere_step_active(b: Bodies, i: int, j: int)
    requires
        0 <= i < j,
        pair_active(b, i, j),
    ensures
        sphere_manifold_upto(b, i, j + 1) == m_acc(
            sphere_manifold_upto(b, i, j),
            pair_deltas(b, i, j).0,
            pair_deltas(b, i, j).2,
        ),
        sphere_manifold_upto(b, j, i + 1) == m_acc(
            sphere_manifold_upto(b, j, i),
            pair_deltas(b, i, j).1,
            pair_deltas(b, i, j).3,
        ),
{
    assert(sphere_contrib(b, i, j) == (pair_deltas(b, i, j).0, pair_deltas(b, i, j).2));
    assert(sphere_contrib(b, j, i) == (pair_deltas(b, i, j).1, pair_deltas(b, i, j).3));
}

/// A pair the broad phase does not pair leaves both manifolds alone.
pub proof fn lemma_sphere_step_inactive(b: Bodies, i: int, j: int)
    requires
        0 <= i < j,
        !pair_active(b, i, j),
    ensures
        sphere_manifold_upto(b, i, j + 1) == sphere_manifold_upto(b, i, j),
        sphere_manifold_upto(b, j, i + 1) == sphere_manifold_upto(b, j, i),
{
    assert(sphere_contrib(b, i, j) == (v_zero(), v_zero()));
    assert(sphere_contrib(b, j, i) == (v_zero(), v_zero()));
    lemma_m_acc_zero(sphere_manifold_upto(b, i, j));
    lemma_m_acc_zero(sphere_manifold_upto(b, j, i));
}

/// Taking in one more wall adds that wall's response.
pub proof fn lemma_wall_step(b: Bodies, wc: Seq<V3>, wsz: Seq<V3>, k: int, m: Manifold, w: int)
    requires
        w >= 0,
    ensures
        wall_manifold_upto(b, wc, wsz, k, m, w + 1) == m_acc(
            wall_manifold_upto(b, wc, wsz, k, m, w),
            wall_deltas(b, wc, wsz, k, w).0,
            wall_deltas(b, wc, wsz, k, w).1,
        ),
{
}

/// The complete manifold of slot `k` for one step: the sphere-sphere
/// phase followed by the sphere-wall phase.
pub open spec fn step_manifold(s: StateModel, k: int) -> Manifold {
    wall_manifold_upto(
        s.bodies(),
        s.wall_pos,
        s.wall_size,
        k,
        sphere_manifold(s.bodies(), k),
        s.wall_pos.len() as int,
    )
}

/// Velocity of slot `k` after integration: the accumulated velocity
/// change applied to the old velocity.
pub open spec fn step_vel(s: StateModel, k: int) -> V3 {
    v_add(s.vel[k], step_manifold(s, k).vel_change)
}

/// Position of slot `k` after integration with timestep `dt`:
/// semi-implicit Euler — the updated velocity, not the old one, carries
/// the position — plus the accumulated positional correction.
pub open spec fn step_pos(s: StateModel, k: int, dt: int) -> V3 {
    v_add(s.pos[k], v_add(v_scale(step_vel(s, k), dt), step_manifold(s, k).pos_correction))
}

/// The whole state after one step: positions and velocities integrated,
/// manifolds as accumulated this step, everything else unchanged.
pub open spec fn step_model(s: StateModel, dt: int) -> StateModel {
    StateModel {
        pos: Seq::new(s.pos.len(), |k: int| step_pos(s, k, dt)),
        vel: Seq::new(s.vel.len(), |k: int| step_vel(s, k)),
        manifolds: Seq::new(s.pos.len(), |k: int| step_manifold(s, k)),
        ..s
    }
}

} // verus!

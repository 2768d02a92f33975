//! The simulation state: entity store, wall store and spatial index,
//! with the per-step reindexing pass.
//!
//! Sphere attributes live in parallel columns addressed by a dense slot
//! index; a sphere's external id is its slot plus one, assigned on
//! creation, starting at one and never reused (entities are append-only).
//! Each slot owns one entry in the spatial index; immediately after the
//! per-step reindex the entry's box is the sphere's current cell box, so
//! broad-phase queries see a conservative superset of every contact.
use vstd::prelude::*;
use crate::fx::ONE;
use crate::vec3::{V3, v_zero};
use crate::index::{CellBox, Entry, SpatialIndex, boxes_overlap};
use crate::model::{
    Manifold, StateModel, m_zero, m_acc, lemma_m_acc_zero, sphere_cellbox, slot_cellbox, pair_active,
    pair_response, pair_deltas, wall_response, wall_deltas, inside_unit, sphere_contrib,
    sphere_manifold_upto, sphere_manifold, wall_manifold_upto, step_manifold, step_vel, step_pos,
    step_model, lemma_sphere_upto_zero, lemma_sphere_step_active, lemma_sphere_step_inactive,
    lemma_wall_step,
};
use crate::fx::{fx_add, fx_sub, fx_neg, fx_mul, fx_div};

verus! {

/// External identifier of a sphere: assigned on creation, starting at
/// one, monotone, never reused.
pub type EntityId = usize;

/// Attributes of a sphere to be added to the store.
#[derive(Clone, Copy, PartialEq, Eq, Structural, Debug)]
pub struct NewBall {
    pub id: EntityId,
    pub pos: V3,
    pub vel: V3,
    pub radius: i64,
    pub mass: i64,
}

/// Some entry of `es` carries payload `k`.
pub open spec fn seq_has_payload(es: Seq<Entry>, k: int) -> bool {
    exists|i: int| 0 <= i < es.len() && #[trigger] es[i].payload == k
}

/// Compute the conservative cell box of a sphere.
pub fn cellbox_of(p: &V3, r: i64) -> (b: CellBox)
    ensures
        b == sphere_cellbox(*p, r),
{
    CellBox {
        x0: crate::fx::cell_floor(crate::fx::fx_sub(p.x, r)),
        y0: crate::fx::cell_floor(crate::fx::fx_sub(p.y, r)),
        x1: crate::fx::cell_ceil(crate::fx::fx_add(p.x, r)),
        y1: crate::fx::cell_ceil(crate::fx::fx_add(p.y, r)),
    }
}

/// Column-oriented storage of the live spheres, together with the
/// spatial index over their cell boxes and the handle of each slot's
/// index entry.
pub struct ActiveSpheres {
    index: SpatialIndex,
    handle_of: Vec<u64>,
    positions: Vec<V3>,
    velocities: Vec<V3>,
    radius: Vec<i64>,
    mass: Vec<i64>,
    manifolds: Vec<Manifold>,
}

impl ActiveSpheres {
    /// Number of live spheres.
    pub closed spec fn count_spec(&self) -> int {
        self.positions@.len() as int
    }

    /// Sphere centers, by slot.
    pub closed spec fn pos_spec(&self) -> Seq<V3> {
        self.positions@
    }

    /// Sphere velocities, by slot.
    pub closed spec fn vel_spec(&self) -> Seq<V3> {
        self.velocities@
    }

    /// Sphere radii, by slot.
    pub closed spec fn rad_spec(&self) -> Seq<i64> {
        self.radius@
    }

    /// Sphere masses, by slot.
    pub closed spec fn mass_spec(&self) -> Seq<i64> {
        self.mass@
    }

    /// Manifolds, by slot.
    pub closed spec fn manifolds_spec(&self) -> Seq<Manifold> {
        self.manifolds@
    }

    /// Index handle owned by each slot.
    pub closed spec fn handles_spec(&self) -> Seq<u64> {
        self.handle_of@
    }

    /// The live entries of the spatial index.
    pub closed spec fn index_spec(&self) -> Seq<Entry> {
        self.index@
    }

    /// Structural well-formedness, box freshness aside: the columns run
    /// in step, radii and masses are positive, and the index holds
    /// exactly one entry per slot, filed under that slot's handle.
    pub closed spec fn base_wf(&self) -> bool {
        &&& self.handle_of@.len() == self.positions@.len()
        &&& self.velocities@.len() == self.positions@.len()
        &&& self.radius@.len() == self.positions@.len()
        &&& self.mass@.len() == self.positions@.len()
        &&& self.manifolds@.len() == self.positions@.len()
        &&& forall|k: int| 0 <= k < self.positions@.len() ==> #[trigger] self.radius@[k] >= 1
        &&& forall|k: int| 0 <= k < self.positions@.len() ==> #[trigger] self.mass@[k] >= 1
        &&& self.index.wf()
        &&& self.index@.len() == self.positions@.len()
        &&& forall|i: int|
            0 <= i < self.index@.len() ==> #[trigger] self.index@[i].payload
                < self.positions@.len()
        &&& forall|i: int|
            0 <= i < self.index@.len() ==> #[trigger] self.index@[i].handle == self.handle_of@[self.index@[i].payload as int]
        &&& forall|k: int|
            0 <= k < self.positions@.len() ==> #[trigger] seq_has_payload(self.index@, k)
    }

    /// The indexed box of every entry is the current cell box of its
    /// sphere.  Holds at every public boundary; integration staleness is
    /// repaired by [`ActiveSpheres::order_tree`] before a step returns.
    pub closed spec fn fresh_boxes(&self) -> bool {
        forall|i: int|
            0 <= i < self.index@.len() ==> #[trigger] self.index@[i].bounds == sphere_cellbox(
                self.positions@[self.index@[i].payload as int],
                self.radius@[self.index@[i].payload as int],
            )
    }

    /// Full well-formedness.
    pub closed spec fn wf(&self) -> bool {
        self.base_wf() && self.fresh_boxes()
    }

    /// An empty store.
    pub fn new() -> (r: ActiveSpheres)
        ensures
            r.wf(),
            r.count_spec() == 0,
            r.pos_spec() == Seq::<V3>::empty(),
            r.vel_spec() == Seq::<V3>::empty(),
            r.rad_spec() == Seq::<i64>::empty(),
            r.mass_spec() == Seq::<i64>::empty(),
            r.manifolds_spec() == Seq::<Manifold>::empty(),
    {
        let r = ActiveSpheres {
            index: SpatialIndex::new(),
            handle_of: Vec::new(),
            positions: Vec::new(),
            velocities: Vec::new(),
            radius: Vec::new(),
            mass: Vec::new(),
            manifolds: Vec::new(),
        };
        proof {
            assert(r.positions@ =~= Seq::<V3>::empty());
            assert(r.velocities@ =~= Seq::<V3>::empty());
            assert(r.radius@ =~= Seq::<i64>::empty());
            assert(r.mass@ =~= Seq::<i64>::empty());
            assert(r.manifolds@ =~= Seq::<Manifold>::empty());
        }
        r
    }

    /// Number of live spheres.
    pub fn count(&self) -> (r: usize)
        ensures
            r == self.count_spec(),
    {
        self.positions.len()
    }

    /// The slot whose index entry is filed under handle `qt_id`.
    pub fn qt_id_to_index(&self, qt_id: u64) -> (r: usize)
        requires
            self.base_wf(),
            exists|k: int| 0 <= k < self.count_spec() && self.handles_spec()[k] == qt_id,
        ensures
            0 <= r < self.count_spec(),
            self.handles_spec()[r as int] == qt_id,
    {
        let n = self.handle_of.len();
        let mut k: usize = 0;
        while k < n
            invariant
                n == self.handle_of@.len(),
                n == self.count_spec(),
                0 <= k <= n,
                exists|j: int| 0 <= j < n && self.handle_of@[j] == qt_id,
                forall|j: int| 0 <= j < k ==> self.handle_of@[j] != qt_id,
            decreases n - k,
        {
            if self.handle_of[k] == qt_id {
                return k;
            }
            k = k + 1;
        }
        proof {
            assert(false);
        }
        0
    }

    /// Append a sphere: push its attributes, a zero manifold, and file
    /// its cell box in the spatial index.  Returns the new slot.
    pub fn add_entity(&mut self, new: NewBall) -> (slot: usize)
        requires
            old(self).wf(),
            new.radius >= 1,
            new.mass >= 1,
        ensures
            final(self).wf(),
            slot == old(self).count_spec(),
            final(self).pos_spec() == old(self).pos_spec().push(new.pos),
            final(self).vel_spec() == old(self).vel_spec().push(new.vel),
            final(self).rad_spec() == old(self).rad_spec().push(new.radius),
            final(self).mass_spec() == old(self).mass_spec().push(new.mass),
            final(self).manifolds_spec() == old(self).manifolds_spec().push(m_zero()),
    {
        let bb = cellbox_of(&new.pos, new.radius);
        let slot = self.positions.len();
        self.positions.push(new.pos);
        self.velocities.push(new.vel);
        self.radius.push(new.radius);
        self.mass.push(new.mass);
        self.manifolds.push(Manifold { vel_change: V3::zero(), pos_correction: V3::zero() });
        let h = self.index.insert(slot, bb);
        self.handle_of.push(h);
        proof {
            let n = self.positions@.len() as int;
            assert(forall|i: int|
                0 <= i < self.index@.len() - 1 ==> #[trigger] self.index@[i] == old(self).index@[i]);
            assert(self.index@[self.index@.len() - 1] == (Entry {
                handle: h,
                payload: slot,
                bounds: bb,
            }));
            assert(forall|k: int| 0 <= k < n - 1 ==> self.handle_of@[k] == old(self).handle_of@[k]);
            assert forall|k: int|
                0 <= k < n implies #[trigger] seq_has_payload(self.index@, k) by {
                if k < n - 1 {
                    assert(seq_has_payload(old(self).index@, k));
                    let i0 = choose|i: int|
                        0 <= i < old(self).index@.len() && #[trigger] old(self).index@[i].payload
                            == k;
                    assert(self.index@[i0].payload == k);
                } else {
                    assert(self.index@[self.index@.len() - 1].payload == k);
                }
            }
        }
        slot
    }


    /// Query the spatial index: every entry whose box overlaps `b` is
    /// in the result, and nothing else is.
    pub fn query_box(&self, b: &CellBox) -> (r: Vec<Entry>)
        requires
            self.base_wf(),
        ensures
            forall|i: int|
                0 <= i < r@.len() ==> self.index_spec().contains(#[trigger] r@[i])
                    && boxes_overlap(r@[i].bounds, *b),
            forall|e: Entry|
                #[trigger] self.index_spec().contains(e) && boxes_overlap(e.bounds, *b)
                    ==> r@.contains(e),
    {
        self.index.query(b)
    }

    /// Self-membership after reindex: in a well-formed store (every
    /// indexed box fresh, as [`ActiveSpheres::order_tree`] leaves it),
    /// any result of querying the spatial index with a sphere's own
    /// current cell box — any `r` meeting [`ActiveSpheres::query_box`]'s
    /// completeness clause for that box — returns that sphere.
    pub proof fn lemma_query_self_membership(&self, k: int, r: Seq<Entry>)
        requires
            self.wf(),
            0 <= k < self.count_spec(),
            forall|e: Entry|
                #[trigger] self.index_spec().contains(e) && boxes_overlap(
                    e.bounds,
                    sphere_cellbox(self.pos_spec()[k], self.rad_spec()[k]),
                ) ==> r.contains(e),
        ensures
            seq_has_payload(r, k),
    {
        let qb = sphere_cellbox(self.pos_spec()[k], self.rad_spec()[k]);
        crate::model::lemma_cellbox_self_overlap(self.pos_spec()[k], self.rad_spec()[k]);
        assert(seq_has_payload(self.index@, k));
        let w = choose|i: int|
            0 <= i < self.index@.len() && #[trigger] self.index@[i].payload == k;
        let ent = self.index@[w];
        assert(ent.bounds == qb);
        assert(boxes_overlap(ent.bounds, qb));
        assert(self.index_spec().contains(ent)) by {
            assert(self.index@[w] == ent);
        }
        assert(r.contains(ent));
        let q2 = choose|q2: int| 0 <= q2 < r.len() && r[q2] == ent;
        assert(r[q2].payload == k);
    }

    /// Reindex: for every slot, take its entry out of the spatial index,
    /// file the sphere's current cell box afresh, record the new handle,
    /// and finally let the index reclaim emptied structure.  After this
    /// pass every indexed box encloses its sphere's current extent.
    pub fn order_tree(&mut self)
        requires
            old(self).base_wf(),
        ensures
            final(self).wf(),
            final(self).pos_spec() == old(self).pos_spec(),
            final(self).vel_spec() == old(self).vel_spec(),
            final(self).rad_spec() == old(self).rad_spec(),
            final(self).mass_spec() == old(self).mass_spec(),
            final(self).manifolds_spec() == old(self).manifolds_spec(),
    {
        let n = self.positions.len();
        let mut k: usize = 0;
        while k < n
            invariant
                n == self.positions@.len(),
                0 <= k <= n,
                self.positions@ == old(self).positions@,
                self.velocities@ == old(self).velocities@,
                self.radius@ == old(self).radius@,
                self.mass@ == old(self).mass@,
                self.manifolds@ == old(self).manifolds@,
                self.handle_of@.len() == n,
                self.velocities@.len() == n,
                self.radius@.len() == n,
                self.mass@.len() == n,
                self.manifolds@.len() == n,
                self.index.wf(),
                self.index@.len() == n,
                forall|j: int| 0 <= j < n ==> #[trigger] self.radius@[j] >= 1,
                forall|j: int| 0 <= j < n ==> #[trigger] self.mass@[j] >= 1,
                forall|i: int|
                    0 <= i < self.index@.len() ==> #[trigger] self.index@[i].payload < n,
                forall|i: int|
                    0 <= i < self.index@.len() ==> #[trigger] self.index@[i].handle
                        == self.handle_of@[self.index@[i].payload as int],
                forall|p: int| 0 <= p < n ==> #[trigger] seq_has_payload(self.index@, p),
                forall|i: int|
                    0 <= i < self.index@.len() && #[trigger] self.index@[i].payload < k
                        ==> self.index@[i].bounds == sphere_cellbox(
                        self.positions@[self.index@[i].payload as int],
                        self.radius@[self.index@[i].payload as int],
                    ),
            decreases n - k,
        {
            let h_old = self.handle_of[k];
            let ghost pre = self.index@;
            let ghost preh = self.handle_of@;
            proof {
                assert(seq_has_payload(pre, k as int));
                self.index.lemma_handles_distinct();
            }
            let ghost i_k = choose|i: int| 0 <= i < pre.len() && #[trigger] pre[i].payload == k
                as int;
            proof {
                assert(pre[i_k].payload == k as int);
                assert(pre[i_k].handle == h_old);
            }
            let found = self.index.remove(h_old);
            proof {
                assert(found) by {
                    assert(pre[i_k].handle == h_old);
                }
                let i_r = choose|i: int|
                    0 <= i < pre.len() && #[trigger] pre[i].handle == h_old && self.index@
                        == pre.remove(i);
                assert(i_r == i_k);
                assert(self.index@ == pre.remove(i_k));
            }
            let ghost mid = self.index@;
            let bb = cellbox_of(&self.positions[k], self.radius[k]);
            let h = self.index.insert(k, bb);
            self.handle_of[k] = h;
            proof {
                let ghost newe = Entry { handle: h, payload: k, bounds: bb };
                let cur = self.index@;
                assert(cur == mid.push(newe));
                assert(self.handle_of@ == preh.update(k as int, h));
                // every current entry is the fresh one or an untouched old one
                assert(forall|i: int|
                    0 <= i < mid.len() ==> #[trigger] mid[i] == (if i < i_k {
                        pre[i]
                    } else {
                        pre[i + 1]
                    }));
                assert forall|i: int| 0 <= i < cur.len() implies #[trigger] cur[i] == (if i
                    == cur.len() - 1 {
                    newe
                } else if i < i_k {
                    pre[i]
                } else {
                    pre[i + 1]
                }) by {
                    if i < cur.len() - 1 {
                        assert(cur[i] == mid[i]);
                    }
                }
                // no old entry kept payload k, so the untouched ones keep
                // their old handles under the updated handle table
                assert forall|i: int|
                    0 <= i < mid.len() implies #[trigger] mid[i].payload != k as int by {
                    let jp = if i < i_k {
                        i
                    } else {
                        i + 1
                    };
                    if mid[i].payload == k as int {
                        assert(pre[jp].handle == h_old);
                        assert(jp != i_k);
                    }
                }
                assert forall|i: int|
                    0 <= i < cur.len() implies #[trigger] cur[i].handle == self.handle_of@[cur[i].payload as int] by {
                    if i == cur.len() - 1 {
                        assert(cur[i] == newe);
                    } else {
                        assert(cur[i] == mid[i]);
                        assert(mid[i].payload != k as int);
                    }
                }
                assert forall|p: int| 0 <= p < n implies #[trigger] seq_has_payload(cur, p) by {
                    if p == k as int {
                        assert(cur[cur.len() - 1].payload == p);
                    } else {
                        assert(seq_has_payload(pre, p));
                        let j_p = choose|i: int|
                            0 <= i < pre.len() && #[trigger] pre[i].payload == p;
                        if j_p < i_k {
                            assert(cur[j_p] == pre[j_p]);
                            assert(cur[j_p].payload == p);
                        } else {
                            assert(j_p > i_k);
                            assert(cur[j_p - 1] == pre[j_p]);
                            assert(cur[j_p - 1].payload == p);
                        }
                    }
                }
                assert forall|i: int|
                    0 <= i < cur.len() && #[trigger] cur[i].payload < k + 1
                        implies cur[i].bounds == sphere_cellbox(
                    self.positions@[cur[i].payload as int],
                    self.radius@[cur[i].payload as int],
                ) by {
                    if i == cur.len() - 1 {
                        assert(cur[i] == newe);
                    } else {
                        assert(cur[i] == mid[i]);
                        assert(mid[i].payload != k as int);
                        assert(cur[i].payload < k);
                    }
                }
            }
            k = k + 1;
        }
        self.index.cleanup();
    }
}

/// The static axis-aligned box obstacles: center positions and full
/// extents, parallel columns.  Walls are immutable once added, have
/// infinite mass, and are never entered in the spatial index: the
/// sphere-wall phase sweeps every wall against every sphere.
pub struct Walls {
    pub positions: Vec<V3>,
    pub sizes: Vec<V3>,
}

impl Walls {
    /// Well-formed: the columns run in step and extents are nonnegative.
    pub closed spec fn wf(&self) -> bool {
        &&& self.sizes@.len() == self.positions@.len()
        &&& forall|w: int|
            0 <= w < self.sizes@.len() ==> (#[trigger] self.sizes@[w]).x >= 0
                && self.sizes@[w].y >= 0 && self.sizes@[w].z >= 0
    }

    /// Wall centers, by wall index.
    pub closed spec fn pos_spec(&self) -> Seq<V3> {
        self.positions@
    }

    /// Wall full extents, by wall index.
    pub closed spec fn size_spec(&self) -> Seq<V3> {
        self.sizes@
    }

    /// An empty wall store.
    pub fn new() -> (r: Walls)
        ensures
            r.wf(),
            r.pos_spec() == Seq::<V3>::empty(),
            r.size_spec() == Seq::<V3>::empty(),
    {
        let r = Walls { positions: Vec::new(), sizes: Vec::new() };
        proof {
            assert(r.positions@ =~= Seq::<V3>::empty());
            assert(r.sizes@ =~= Seq::<V3>::empty());
        }
        r
    }

    /// Number of walls.
    pub fn count(&self) -> (r: usize)
        ensures
            r == self.pos_spec().len(),
    {
        self.positions.len()
    }

    /// Append a wall with center `center` and full extents `size`.
    pub fn add_wall(&mut self, center: V3, size: V3)
        requires
            old(self).wf(),
            size.x >= 0,
            size.y >= 0,
            size.z >= 0,
        ensures
            final(self).wf(),
            final(self).pos_spec() == old(self).pos_spec().push(center),
            final(self).size_spec() == old(self).size_spec().push(size),
    {
        self.positions.push(center);
        self.sizes.push(size);
    }
}

/// Restitution applied when no other value is configured: perfectly
/// elastic contacts.
pub const DEFAULT_RESTITUTION: i64 = 1_000_000;

/// Positional-correction percentage applied when no other value is
/// configured: a tenth of the penetration per step.
pub const DEFAULT_CORRECTION: i64 = 100_000;

/// The whole simulation: sphere store with spatial index, wall store,
/// and the two configured solver coefficients.
pub struct State {
    pub(crate) spheres: ActiveSpheres,
    pub(crate) walls: Walls,
    restitution: i64,
    correction: i64,
}

impl State {
    /// The ghost image of this state, which the step contract is
    /// phrased over.
    pub closed spec fn model(&self) -> StateModel {
        StateModel {
            pos: self.spheres.pos_spec(),
            vel: self.spheres.vel_spec(),
            rad: self.spheres.rad_spec(),
            mass: self.spheres.mass_spec(),
            manifolds: self.spheres.manifolds_spec(),
            wall_pos: self.walls.pos_spec(),
            wall_size: self.walls.size_spec(),
            restitution: self.restitution as int,
            correction: self.correction as int,
        }
    }

    /// Well-formed: both stores are, every indexed box is fresh, and
    /// the two coefficients lie in `[0, ONE]`.
    pub closed spec fn wf(&self) -> bool {
        &&& self.spheres.wf()
        &&& self.walls.wf()
        &&& 0 <= self.restitution <= ONE
        &&& 0 <= self.correction <= ONE
    }

    /// An empty simulation with the default coefficients.
    pub fn new() -> (r: State)
        ensures
            r.wf(),
            r.model().pos == Seq::<V3>::empty(),
            r.model().vel == Seq::<V3>::empty(),
            r.model().rad == Seq::<i64>::empty(),
            r.model().mass == Seq::<i64>::empty(),
            r.model().manifolds == Seq::<Manifold>::empty(),
            r.model().wall_pos == Seq::<V3>::empty(),
            r.model().wall_size == Seq::<V3>::empty(),
            r.model().restitution == DEFAULT_RESTITUTION as int,
            r.model().correction == DEFAULT_CORRECTION as int,
    {
        State {
            spheres: ActiveSpheres::new(),
            walls: Walls::new(),
            restitution: DEFAULT_RESTITUTION,
            correction: DEFAULT_CORRECTION,
        }
    }

    /// Configure the restitution coefficient (bounciness), in ticks of
    /// one: `ONE` is perfectly elastic, zero perfectly inelastic.
    pub fn set_restitution(&mut self, e: i64)
        requires
            old(self).wf(),
            0 <= e <= ONE,
        ensures
            final(self).wf(),
            final(self).model() == (StateModel { restitution: e as int, ..old(self).model() }),
    {
        self.restitution = e;
    }

    /// Configure the positional-correction percentage, in ticks of one.
    pub fn set_correction(&mut self, percent: i64)
        requires
            old(self).wf(),
            0 <= percent <= ONE,
        ensures
            final(self).wf(),
            final(self).model() == (StateModel { correction: percent as int, ..old(self).model() }),
    {
        self.correction = percent;
    }

    /// Append a sphere and return its external id: ids count up from
    /// one in creation order and are never reused.  Radius and mass
    /// must be positive (at least one tick).
    pub fn add_ball(&mut self, pos: V3, vel: V3, r: i64, mass: i64) -> (id: EntityId)
        requires
            old(self).wf(),
            r >= 1,
            mass >= 1,
            old(self).model().pos.len() < usize::MAX,
        ensures
            final(self).wf(),
            id == old(self).model().pos.len() + 1,
            final(self).model() == (StateModel {
                pos: old(self).model().pos.push(pos),
                vel: old(self).model().vel.push(vel),
                rad: old(self).model().rad.push(r),
                mass: old(self).model().mass.push(mass),
                manifolds: old(self).model().manifolds.push(m_zero()),
                ..old(self).model()
            }),
    {
        let id = self.spheres.count() + 1;
        let slot = self.spheres.add_entity(NewBall { id, pos, vel, radius: r, mass });
        id
    }

    /// Append a static wall obstacle with center `pos` and full extents
    /// `size` (components nonnegative).
    pub fn add_wall(&mut self, pos: V3, size: V3)
        requires
            old(self).wf(),
            size.x >= 0,
            size.y >= 0,
            size.z >= 0,
        ensures
            final(self).wf(),
            final(self).model() == (StateModel {
                wall_pos: old(self).model().wall_pos.push(pos),
                wall_size: old(self).model().wall_size.push(size),
                ..old(self).model()
            }),
    {
        self.walls.add_wall(pos, size);
    }

    /// Sphere radii, in store order.
    pub fn sphere_radius(&self) -> (r: &Vec<i64>)
        ensures
            r@ == self.model().rad,
    {
        &self.spheres.radius
    }

    /// Sphere positions, in store order.
    pub fn sphere_positions(&self) -> (r: &Vec<V3>)
        ensures
            r@ == self.model().pos,
    {
        &self.spheres.positions
    }

    /// Sphere velocities, in store order.
    pub fn sphere_velocities(&self) -> (r: &Vec<V3>)
        ensures
            r@ == self.model().vel,
    {
        &self.spheres.velocities
    }

    /// Wall center positions, in store order.
    pub fn wall_positions(&self) -> (r: &Vec<V3>)
        ensures
            r@ == self.model().wall_pos,
    {
        &self.walls.positions
    }

    /// Wall full extents, in store order.
    pub fn wall_sizes(&self) -> (r: &Vec<V3>)
        ensures
            r@ == self.model().wall_size,
    {
        &self.walls.sizes
    }
}


/// Narrow-phase response of one sphere pair, exactly as
/// [`pair_response`] states it.
fn compute_pair(
    pi: V3,
    pj: V3,
    vi: V3,
    vj: V3,
    ri: i64,
    rj: i64,
    mi: i64,
    mj: i64,
    e: i64,
    pc: i64,
) -> (r: (V3, V3, V3, V3))
    requires
        mi >= 1,
        mj >= 1,
    ensures
        r == pair_response(
            pi,
            pj,
            vi,
            vj,
            ri as int,
            rj as int,
            mi as int,
            mj as int,
            e as int,
            pc as int,
        ),
{
    let d = pj.sub(pi);
    let nu = d.norm_unit();
    let dist = nu.0;
    let rsum = fx_add(ri, rj);
    if dist > rsum {
        (V3::zero(), V3::zero(), V3::zero(), V3::zero())
    } else {
        let n = nu.1;
        let rel = vj.sub(vi);
        let van = rel.dot(n);
        if van >= 0 {
            (V3::zero(), V3::zero(), V3::zero(), V3::zero())
        } else {
            let invi = fx_div(ONE, mi);
            let invj = fx_div(ONE, mj);
            let invsum = fx_add(invi, invj);
            if invsum <= 0 {
                (V3::zero(), V3::zero(), V3::zero(), V3::zero())
            } else {
                let imp = fx_div(fx_neg(fx_mul(fx_add(ONE, e), van)), invsum);
                let impulse = n.scale(imp);
                let dvi = impulse.scale(invi).neg();
                let dvj = impulse.scale(invj);
                let pen = fx_sub(rsum, dist);
                let corr = fx_mul(fx_div(pen, invsum), pc);
                let cvec = n.scale(corr);
                let dpi = cvec.scale(invi).neg();
                let dpj = cvec.scale(invj);
                (dvi, dvj, dpi, dpj)
            }
        }
    }
}

/// Narrow-phase response of one sphere against one wall, exactly as
/// [`wall_response`] states it.
fn compute_wall(p: V3, v: V3, rad: i64, wc: V3, wsz: V3, e: i64, pc: i64) -> (r: (V3, V3))
    requires
        wsz.x >= 0,
        wsz.y >= 0,
        wsz.z >= 0,
    ensures
        r == wall_response(p, v, rad as int, wc, wsz, e as int, pc as int),
{
    let n = wc.sub(p);
    let ext = wsz.half();
    let closest = n.clamp_box(ext);
    let nv = n.sub(closest);
    let mut dist: i64 = 0;
    let mut unit: V3 = V3::zero();
    if nv.x == 0 && nv.y == 0 && nv.z == 0 {
        // center inside the box: least-penetration fallback normal
        let px: i128 = (ext.x as i128) - (if n.x < 0 { -(n.x as i128) } else { n.x as i128 });
        let py: i128 = (ext.y as i128) - (if n.y < 0 { -(n.y as i128) } else { n.y as i128 });
        let pz: i128 = (ext.z as i128) - (if n.z < 0 { -(n.z as i128) } else { n.z as i128 });
        if px <= py && px <= pz {
            unit = V3 { x: if n.x >= 0 { ONE } else { -ONE }, y: 0, z: 0 };
        } else if py <= pz {
            unit = V3 { x: 0, y: if n.y >= 0 { ONE } else { -ONE }, z: 0 };
        } else {
            unit = V3 { x: 0, y: 0, z: if n.z >= 0 { ONE } else { -ONE } };
        }
        proof {
            assert(nv == crate::vec3::v_zero());
            assert(unit == inside_unit(n, ext));
        }
    } else {
        let nu = nv.norm_unit();
        dist = nu.0;
        unit = nu.1;
        proof {
            assert(nv != crate::vec3::v_zero());
        }
    }
    if dist > rad {
        (V3::zero(), V3::zero())
    } else {
        let van = v.dot(unit);
        if van <= 0 {
            (V3::zero(), V3::zero())
        } else {
            let dv = unit.scale(fx_mul(fx_add(ONE, e), van)).neg();
            let pen = fx_sub(rad, dist);
            let dp = unit.scale(fx_mul(pen, pc)).neg();
            (dv, dp)
        }
    }
}


/// Sphere-sphere phase: for each sphere in slot order, query the
/// spatial index with its cell box, and fold the narrow-phase response
/// of every paired higher slot into both manifolds, higher partners in
/// ascending slot order.  Starting from zero manifolds, this leaves
/// slot `k` with exactly [`sphere_manifold`]`(bodies, k)`.
#[verifier::rlimit(50)]
fn impulse_manifolds(state: &mut State)
    requires
        old(state).wf(),
        forall|k: int|
            0 <= k < old(state).model().manifolds.len() ==> old(state).model().manifolds[k]
                == m_zero(),
    ensures
        final(state).wf(),
        final(state).model() == (StateModel {
            manifolds: Seq::new(
                old(state).model().pos.len(),
                |k: int| sphere_manifold(old(state).model().bodies(), k),
            ),
            ..old(state).model()
        }),
{
    let ghost b0 = old(state).model().bodies();
    let count = state.spheres.positions.len();
    proof {
        assert forall|k: int|
            0 <= k < count implies state.spheres.manifolds_spec()[k] == sphere_manifold_upto(
            b0,
            k,
            0,
        ) by {
            lemma_sphere_upto_zero(b0, k);
            assert(old(state).model().manifolds[k] == m_zero());
        }
    }
    let mut i: usize = 0;
    while i < count
        invariant
            state.wf(),
            count == state.spheres.pos_spec().len(),
            0 <= i <= count,
            state.spheres.pos_spec() == b0.pos,
            state.spheres.vel_spec() == b0.vel,
            state.spheres.rad_spec() == b0.rad,
            state.spheres.mass_spec() == b0.mass,
            state.restitution as int == b0.e,
            state.correction as int == b0.pc,
            state.spheres.manifolds_spec().len() == count,
            state.walls == old(state).walls,
            state.spheres.handles_spec() == old(state).spheres.handles_spec(),
            state.spheres.index_spec() == old(state).spheres.index_spec(),
            forall|k: int|
                0 <= k < i ==> state.spheres.manifolds_spec()[k] == sphere_manifold(b0, k),
            forall|k: int|
                i <= k < count ==> state.spheres.manifolds_spec()[k] == sphere_manifold_upto(
                    b0,
                    k,
                    i as int,
                ),
        decreases count - i,
    {
        let pi = state.spheres.positions[i];
        let ri = state.spheres.radius[i];
        let bb = cellbox_of(&pi, ri);
        proof {
            assert(bb == slot_cellbox(b0, i as int));
        }
        let found = state.spheres.index.query(&bb);
        // mark every candidate slot the query returned
        let mut marks: Vec<bool> = vec![false; count];
        let nf = found.len();
        let mut q: usize = 0;
        while q < nf
            invariant
                nf == found@.len(),
                0 <= q <= nf,
                marks@.len() == count,
                state.spheres.base_wf(),
                count == state.spheres.pos_spec().len(),
                forall|q2: int|
                    0 <= q2 < nf ==> state.spheres.index_spec().contains(#[trigger] found@[q2])
                        && boxes_overlap(found@[q2].bounds, bb),
                forall|e: Entry|
                    #[trigger] state.spheres.index_spec().contains(e) && boxes_overlap(
                        e.bounds,
                        bb,
                    ) ==> found@.contains(e),
                forall|s: int|
                    0 <= s < count ==> (marks@[s] <==> exists|q2: int|
                        0 <= q2 < q && (#[trigger] found@[q2]).payload == s),
            decreases nf - q,
        {
            let e = found[q];
            proof {
                assert(state.spheres.index_spec().contains(found@[q as int]));
                let w = choose|w: int|
                    0 <= w < state.spheres.index_spec().len()
                        && state.spheres.index_spec()[w] == found@[q as int];
                assert(e.payload < count);
            }
            let ghost oldmarks = marks@;
            let s = e.payload;
            marks[s] = true;
            proof {
                assert forall|s2: int|
                    0 <= s2 < count implies (marks@[s2] <==> exists|q2: int|
                        0 <= q2 < q + 1 && (#[trigger] found@[q2]).payload == s2) by {
                    if s2 == s as int {
                        assert(found@[q as int].payload == s2);
                    } else {
                        assert(marks@[s2] == oldmarks[s2]);
                    }
                }
            }
            q = q + 1;
        }
        // the marks are exactly the broad-phase pairing relation
        proof {
            assert forall|s: int|
                0 <= s < count implies (marks@[s] <==> pair_active(b0, i as int, s)) by {
                if marks@[s] {
                    let q2 = choose|q2: int|
                        0 <= q2 < nf && (#[trigger] found@[q2]).payload == s;
                    let w = choose|w: int|
                        0 <= w < state.spheres.index_spec().len()
                            && state.spheres.index_spec()[w] == found@[q2];
                    assert(found@[q2].bounds == slot_cellbox(b0, s));
                    assert(boxes_overlap(slot_cellbox(b0, s), slot_cellbox(b0, i as int)));
                    assert(pair_active(b0, i as int, s));
                }
                if pair_active(b0, i as int, s) {
                    assert(seq_has_payload(state.spheres.index_spec(), s));
                    let w = choose|w: int|
                        0 <= w < state.spheres.index_spec().len()
                            && #[trigger] state.spheres.index_spec()[w].payload == s;
                    let ent = state.spheres.index_spec()[w];
                    assert(ent.bounds == slot_cellbox(b0, s));
                    assert(state.spheres.index_spec().contains(ent));
                    assert(found@.contains(ent));
                    let q2 = choose|q2: int| 0 <= q2 < found@.len() && found@[q2] == ent;
                    assert(found@[q2].payload == s);
                }
            }
        }
        // a slot never pairs with itself: entering the inner loop at
        // `i + 1` starts from the manifold accumulated through slot `i`
        proof {
            assert(sphere_contrib(b0, i as int, i as int) == (v_zero(), v_zero()));
            lemma_m_acc_zero(sphere_manifold_upto(b0, i as int, i as int));
            assert(sphere_manifold_upto(b0, i as int, i + 1) == sphere_manifold_upto(
                b0,
                i as int,
                i as int,
            ));
        }
        // fold the paired higher slots, in ascending slot order
        let mut j: usize = i + 1;
        while j < count
            invariant
                state.wf(),
                count == state.spheres.pos_spec().len(),
                0 <= i < count,
                i + 1 <= j <= count,
                state.spheres.pos_spec() == b0.pos,
                state.spheres.vel_spec() == b0.vel,
                state.spheres.rad_spec() == b0.rad,
                state.spheres.mass_spec() == b0.mass,
                state.restitution as int == b0.e,
                state.correction as int == b0.pc,
                state.spheres.manifolds_spec().len() == count,
                state.walls == old(state).walls,
                state.spheres.handles_spec() == old(state).spheres.handles_spec(),
                state.spheres.index_spec() == old(state).spheres.index_spec(),
                marks@.len() == count,
                forall|s: int| 0 <= s < count ==> (marks@[s] <==> pair_active(b0, i as int, s)),
                forall|k: int|
                    0 <= k < i ==> state.spheres.manifolds_spec()[k] == sphere_manifold(b0, k),
                state.spheres.manifolds_spec()[i as int] == sphere_manifold_upto(
                    b0,
                    i as int,
                    j as int,
                ),
                forall|k: int|
                    i < k < j ==> state.spheres.manifolds_spec()[k] == sphere_manifold_upto(
                        b0,
                        k,
                        i + 1,
                    ),
                forall|k: int|
                    j <= k < count ==> state.spheres.manifolds_spec()[k] == sphere_manifold_upto(
                        b0,
                        k,
                        i as int,
                    ),
            decreases count - j,
        {
            if marks[j] {
                let d = compute_pair(
                    state.spheres.positions[i],
                    state.spheres.positions[j],
                    state.spheres.velocities[i],
                    state.spheres.velocities[j],
                    state.spheres.radius[i],
                    state.spheres.radius[j],
                    state.spheres.mass[i],
                    state.spheres.mass[j],
                    state.restitution,
                    state.correction,
                );
                let ghost oldman = state.spheres.manifolds_spec();
                let mi_cur = state.spheres.manifolds[i];
                state.spheres.manifolds[i] = Manifold {
                    vel_change: mi_cur.vel_change.add(d.0),
                    pos_correction: mi_cur.pos_correction.add(d.2),
                };
                let mj_cur = state.spheres.manifolds[j];
                state.spheres.manifolds[j] = Manifold {
                    vel_change: mj_cur.vel_change.add(d.1),
                    pos_correction: mj_cur.pos_correction.add(d.3),
                };
                proof {
                    assert(pair_active(b0, i as int, j as int));
                    assert((d.0, d.1, d.2, d.3) == pair_deltas(b0, i as int, j as int));
                    lemma_sphere_step_active(b0, i as int, j as int);
                    assert(state.spheres.manifolds_spec()[i as int] == m_acc(
                        oldman[i as int],
                        d.0,
                        d.2,
                    ));
                    assert(state.spheres.manifolds_spec()[j as int] == m_acc(
                        oldman[j as int],
                        d.1,
                        d.3,
                    ));
                }
            } else {
                proof {
                    assert(!pair_active(b0, i as int, j as int));
                    lemma_sphere_step_inactive(b0, i as int, j as int);
                }
            }
            j = j + 1;
        }
        i = i + 1;
    }
    proof {
        assert(final(state).model().manifolds =~= Seq::new(
            old(state).model().pos.len(),
            |k: int| sphere_manifold(b0, k),
        ));
        assert(final(state).model() =~= (StateModel {
            manifolds: Seq::new(
                old(state).model().pos.len(),
                |k: int| sphere_manifold(old(state).model().bodies(), k),
            ),
            ..old(state).model()
        }));
    }
}

/// Sphere-wall phase: every sphere against every wall, walls in order,
/// folding each response onto the manifold the sphere already carries.
#[verifier::rlimit(50)]
fn impulse_walls(state: &mut State)
    requires
        old(state).wf(),
    ensures
        final(state).wf(),
        final(state).model() == (StateModel {
            manifolds: Seq::new(
                old(state).model().pos.len(),
                |k: int|
                    wall_manifold_upto(
                        old(state).model().bodies(),
                        old(state).model().wall_pos,
                        old(state).model().wall_size,
                        k,
                        old(state).model().manifolds[k],
                        old(state).model().wall_pos.len() as int,
                    ),
            ),
            ..old(state).model()
        }),
{
    let ghost b0 = old(state).model().bodies();
    let ghost wc = old(state).model().wall_pos;
    let ghost wsz = old(state).model().wall_size;
    let ghost m0 = old(state).model().manifolds;
    let count = state.spheres.positions.len();
    let wcount = state.walls.positions.len();
    let mut i: usize = 0;
    while i < count
        invariant
            state.wf(),
            count == state.spheres.pos_spec().len(),
            wcount == wc.len(),
            0 <= i <= count,
            state.spheres.pos_spec() == b0.pos,
            state.spheres.vel_spec() == b0.vel,
            state.spheres.rad_spec() == b0.rad,
            state.spheres.mass_spec() == b0.mass,
            state.restitution as int == b0.e,
            state.correction as int == b0.pc,
            state.spheres.manifolds_spec().len() == count,
            m0.len() == count,
            state.walls == old(state).walls,
            state.walls.pos_spec() == wc,
            state.walls.size_spec() == wsz,
            state.spheres.handles_spec() == old(state).spheres.handles_spec(),
            state.spheres.index_spec() == old(state).spheres.index_spec(),
            forall|k: int|
                0 <= k < i ==> state.spheres.manifolds_spec()[k] == wall_manifold_upto(
                    b0,
                    wc,
                    wsz,
                    k,
                    m0[k],
                    wcount as int,
                ),
            forall|k: int| i <= k < count ==> state.spheres.manifolds_spec()[k] == m0[k],
        decreases count - i,
    {
        let mut w: usize = 0;
        while w < wcount
            invariant
                state.wf(),
                count == state.spheres.pos_spec().len(),
                wcount == wc.len(),
                0 <= i < count,
                0 <= w <= wcount,
                state.spheres.pos_spec() == b0.pos,
                state.spheres.vel_spec() == b0.vel,
                state.spheres.rad_spec() == b0.rad,
                state.spheres.mass_spec() == b0.mass,
                state.restitution as int == b0.e,
                state.correction as int == b0.pc,
                state.spheres.manifolds_spec().len() == count,
                m0.len() == count,
                state.walls == old(state).walls,
                state.walls.pos_spec() == wc,
                state.walls.size_spec() == wsz,
                state.spheres.handles_spec() == old(state).spheres.handles_spec(),
                state.spheres.index_spec() == old(state).spheres.index_spec(),
                forall|k: int|
                    0 <= k < i ==> state.spheres.manifolds_spec()[k] == wall_manifold_upto(
                        b0,
                        wc,
                        wsz,
                        k,
                        m0[k],
                        wcount as int,
                    ),
                state.spheres.manifolds_spec()[i as int] == wall_manifold_upto(
                    b0,
                    wc,
                    wsz,
                    i as int,
                    m0[i as int],
                    w as int,
                ),
                forall|k: int| i < k < count ==> state.spheres.manifolds_spec()[k] == m0[k],
            decreases wcount - w,
        {
            let d = compute_wall(
                state.spheres.positions[i],
                state.spheres.velocities[i],
                state.spheres.radius[i],
                state.walls.positions[w],
                state.walls.sizes[w],
                state.restitution,
                state.correction,
            );
            let ghost oldman = state.spheres.manifolds_spec();
            let mi_cur = state.spheres.manifolds[i];
            state.spheres.manifolds[i] = Manifold {
                vel_change: mi_cur.vel_change.add(d.0),
                pos_correction: mi_cur.pos_correction.add(d.1),
            };
            proof {
                assert((d.0, d.1) == wall_deltas(b0, wc, wsz, i as int, w as int));
                lemma_wall_step(b0, wc, wsz, i as int, m0[i as int], w as int);
                assert(state.spheres.manifolds_spec()[i as int] == m_acc(
                    oldman[i as int],
                    d.0,
                    d.1,
                ));
            }
            w = w + 1;
        }
        i = i + 1;
    }
    proof {
        assert(final(state).model().manifolds =~= Seq::new(
            old(state).model().pos.len(),
            |k: int|
                wall_manifold_upto(
                    old(state).model().bodies(),
                    old(state).model().wall_pos,
                    old(state).model().wall_size,
                    k,
                    old(state).model().manifolds[k],
                    old(state).model().wall_pos.len() as int,
                ),
        ));
        assert(final(state).model() =~= (StateModel {
            manifolds: Seq::new(
                old(state).model().pos.len(),
                |k: int|
                    wall_manifold_upto(
                        old(state).model().bodies(),
                        old(state).model().wall_pos,
                        old(state).model().wall_size,
                        k,
                        old(state).model().manifolds[k],
                        old(state).model().wall_pos.len() as int,
                    ),
            ),
            ..old(state).model()
        }));
    }
}

/// Advance the simulation by one fixed sub-step of `dt` ticks: reset
/// every manifold, run the sphere-sphere and sphere-wall phases, apply
/// the accumulated responses by semi-implicit Euler, and reindex every
/// sphere's cell box.  The state afterwards is exactly
/// [`step_model`]`(before, dt)`.
#[verifier::rlimit(50)]
pub fn step(state: &mut State, dt: i64)
    requires
        old(state).wf(),
        dt >= 1,
    ensures
        final(state).wf(),
        final(state).model() == step_model(old(state).model(), dt as int),
{
    let ghost m0 = old(state).model();
    let count = state.spheres.positions.len();
    // reset every manifold to zero
    let mut k: usize = 0;
    while k < count
        invariant
            state.wf(),
            count == state.spheres.pos_spec().len(),
            0 <= k <= count,
            state.spheres.pos_spec() == m0.pos,
            state.spheres.vel_spec() == m0.vel,
            state.spheres.rad_spec() == m0.rad,
            state.spheres.mass_spec() == m0.mass,
            state.restitution as int == m0.restitution,
            state.correction as int == m0.correction,
            state.spheres.manifolds_spec().len() == count,
            state.walls == old(state).walls,
            state.spheres.handles_spec() == old(state).spheres.handles_spec(),
            state.spheres.index_spec() == old(state).spheres.index_spec(),
            forall|k2: int|
                0 <= k2 < k ==> state.spheres.manifolds_spec()[k2] == m_zero(),
        decreases count - k,
    {
        state.spheres.manifolds[k] = Manifold {
            vel_change: V3::zero(),
            pos_correction: V3::zero(),
        };
        k = k + 1;
    }
    proof {
        assert(state.model().bodies() =~= m0.bodies());
        assert(state.model().wall_pos == m0.wall_pos);
        assert(state.model().wall_size == m0.wall_size);
    }
    let ghost mreset = state.model();
    impulse_manifolds(state);
    proof {
        assert(mreset.bodies() == m0.bodies());
        assert(state.model().manifolds =~= Seq::new(
            m0.pos.len(),
            |k: int| sphere_manifold(m0.bodies(), k),
        ));
    }
    let ghost msph = state.model();
    impulse_walls(state);
    proof {
        assert(msph.bodies() == m0.bodies());
        assert(msph.wall_pos == m0.wall_pos);
        assert(msph.wall_size == m0.wall_size);
        assert forall|k2: int| 0 <= k2 < count implies state.model().manifolds[k2]
            == step_manifold(m0, k2) by {
            assert(state.model().manifolds[k2] == wall_manifold_upto(
                msph.bodies(),
                msph.wall_pos,
                msph.wall_size,
                k2,
                msph.manifolds[k2],
                msph.wall_pos.len() as int,
            ));
            assert(msph.manifolds[k2] == sphere_manifold(m0.bodies(), k2));
        }
    }
    // integrate: velocity first, then position from the new velocity
    let mut k: usize = 0;
    while k < count
        invariant
            state.spheres.base_wf(),
            state.walls.wf(),
            0 <= state.restitution <= ONE,
            0 <= state.correction <= ONE,
            count == state.spheres.pos_spec().len(),
            0 <= k <= count,
            state.spheres.rad_spec() == m0.rad,
            state.spheres.mass_spec() == m0.mass,
            state.restitution as int == m0.restitution,
            state.correction as int == m0.correction,
            state.spheres.manifolds_spec().len() == count,
            state.walls.pos_spec() == m0.wall_pos,
            state.walls.size_spec() == m0.wall_size,
            forall|k2: int|
                0 <= k2 < count ==> state.spheres.manifolds_spec()[k2] == step_manifold(m0, k2),
            forall|k2: int|
                0 <= k2 < k ==> state.spheres.vel_spec()[k2] == step_vel(m0, k2),
            forall|k2: int|
                0 <= k2 < k ==> state.spheres.pos_spec()[k2] == step_pos(m0, k2, dt as int),
            forall|k2: int| k <= k2 < count ==> state.spheres.vel_spec()[k2] == m0.vel[k2],
            forall|k2: int| k <= k2 < count ==> state.spheres.pos_spec()[k2] == m0.pos[k2],
        decreases count - k,
    {
        let man = state.spheres.manifolds[k];
        let vnew = state.spheres.velocities[k].add(man.vel_change);
        state.spheres.velocities[k] = vnew;
        let pk = state.spheres.positions[k];
        state.spheres.positions[k] = pk.add(vnew.scale(dt).add(man.pos_correction));
        k = k + 1;
    }
    // refresh the spatial index for the new positions
    state.spheres.order_tree();
    proof {
        assert(final(state).model().pos =~= step_model(m0, dt as int).pos);
        assert(final(state).model().vel =~= step_model(m0, dt as int).vel);
        assert(final(state).model().manifolds =~= step_model(m0, dt as int).manifolds);
        assert(final(state).model() =~= step_model(m0, dt as int));
    }
}


} // verus!

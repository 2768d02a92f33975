//! Spatial index for the broad phase: a dynamic bounding-box quadtree.
//!
//! The index maps axis-aligned integer cell boxes to opaque handles; the
//! third world axis is ignored, so indexing is two-dimensional.  `insert`
//! hands out a fresh handle for a payload and its box, `remove` takes an
//! entry out by handle, `query` returns every entry whose box overlaps
//! the queried box (and nothing else), and `cleanup` reclaims emptied
//! subdivisions.
//!
//! Entries live in the nodes of a quadtree over the cell grid: a node
//! whose element count exceeds [`NODE_CAPACITY`] subdivides (down to
//! [`MAX_DEPTH`]), and an entry sinks to the deepest node whose region
//! still contains its whole box.  The view the contracts speak of is a
//! flat mirror of the entries in filing order, and a tree invariant ties
//! the two representations together, so a query can never lose an
//! overlapping entry.
//!
//! The tree's region starts at the `[-128, 128]` working region of the
//! cell grid, but boxes are not constrained to it: an entry whose box
//! lies outside any subdivision stays at the node above it — at worst
//! the root — and is stored and found like any other (the documented
//! policy for bodies that drift out of the working region).
use vstd::prelude::*;
use vstd::multiset::Multiset;

verus! {

/// Elements a node may hold before it subdivides.
pub const NODE_CAPACITY: usize = 6;

/// Depth at which nodes stop subdividing and grow instead.
pub const MAX_DEPTH: usize = 8;

/// Low cell coordinate of the index's initial working region.
pub const WORLD_MIN: i64 = -128;

/// High cell coordinate of the index's initial working region.
pub const WORLD_MAX: i64 = 128;

/// A closed axis-aligned box of integer cells, in the two indexed axes.
#[derive(Clone, Copy, PartialEq, Eq, Structural, Debug)]
pub struct CellBox {
    pub x0: i64,
    pub y0: i64,
    pub x1: i64,
    pub y1: i64,
}

/// Two cell boxes overlap when their closed intervals meet on both axes.
pub open spec fn boxes_overlap(a: CellBox, b: CellBox) -> bool {
    a.x0 <= b.x1 && b.x0 <= a.x1 && a.y0 <= b.y1 && b.y0 <= a.y1
}

/// Whether two cell boxes overlap.
pub fn overlaps(a: &CellBox, b: &CellBox) -> (r: bool)
    ensures
        r == boxes_overlap(*a, *b),
{
    a.x0 <= b.x1 && b.x0 <= a.x1 && a.y0 <= b.y1 && b.y0 <= a.y1
}

/// `inner` lies entirely within `outer`.
pub open spec fn box_contained(inner: CellBox, outer: CellBox) -> bool {
    outer.x0 <= inner.x0 && inner.x1 <= outer.x1 && outer.y0 <= inner.y0 && inner.y1 <= outer.y1
}

/// Whether `inner` lies entirely within `outer`.
fn contained(inner: &CellBox, outer: &CellBox) -> (r: bool)
    ensures
        r == box_contained(*inner, *outer),
{
    outer.x0 <= inner.x0 && inner.x1 <= outer.x1 && outer.y0 <= inner.y0 && inner.y1 <= outer.y1
}

/// One indexed element: a handle (unique among live entries), the
/// caller's payload, and the box the element was filed under.
#[derive(Clone, Copy, PartialEq, Eq, Structural, Debug)]
pub struct Entry {
    pub handle: u64,
    pub payload: usize,
    pub bounds: CellBox,
}

/// A quadtree node: the cell region it answers for, the entries filed
/// at this node, the total entry count of its subtree, and its four
/// quadrants once subdivided.
struct QNode {
    bound: CellBox,
    elems: Vec<Entry>,
    size: usize,
    kids: Option<Box<Quads>>,
}

/// The four quadrants of a subdivided node.
struct Quads {
    q0: QNode,
    q1: QNode,
    q2: QNode,
    q3: QNode,
}

/// All entries of a subtree, as a multiset.
spec fn entset(n: QNode) -> Multiset<Entry>
    decreases n,
{
    n.elems@.to_multiset().add(
        match n.kids {
            Some(q) => entset(q.q0).add(entset(q.q1)).add(entset(q.q2)).add(entset(q.q3)),
            None => Multiset::<Entry>::empty(),
        },
    )
}

/// Structural invariant of a subtree: the size field counts the
/// subtree's entries, and every entry below a quadrant lies entirely
/// within that quadrant's region.
spec fn wf_node(n: QNode) -> bool
    decreases n,
{
    &&& n.size == entset(n).len()
    &&& match n.kids {
        Some(q) => {
            &&& wf_node(q.q0)
            &&& wf_node(q.q1)
            &&& wf_node(q.q2)
            &&& wf_node(q.q3)
            &&& forall|e: Entry|
                #[trigger] entset(q.q0).contains(e) ==> box_contained(e.bounds, q.q0.bound)
            &&& forall|e: Entry|
                #[trigger] entset(q.q1).contains(e) ==> box_contained(e.bounds, q.q1.bound)
            &&& forall|e: Entry|
                #[trigger] entset(q.q2).contains(e) ==> box_contained(e.bounds, q.q2.bound)
            &&& forall|e: Entry|
                #[trigger] entset(q.q3).contains(e) ==> box_contained(e.bounds, q.q3.bound)
        },
        None => true,
    }
}

/// Removing a present element shrinks a multiset by exactly one.
proof fn lemma_remove_len<T>(m: Multiset<T>, v: T)
    requires
        m.contains(v),
    ensures
        m.remove(v).len() == m.len() - 1,
        forall|x: T| #[trigger] m.remove(v).contains(x) ==> m.contains(x),
{
    let s = Multiset::<T>::empty().insert(v);
    assert(s.subset_of(m)) by {
        assert(forall|x: T| s.count(x) <= m.count(x));
    }
    assert(m.remove(v) =~= m.sub(s));
    assert(s.len() == 1);
}

/// A box that overlaps a contained box overlaps the container.
proof fn lemma_contained_overlap(inner: CellBox, outer: CellBox, q: CellBox)
    requires
        box_contained(inner, outer),
        boxes_overlap(inner, q),
    ensures
        boxes_overlap(outer, q),
{
}

/// An empty leaf covering the given region.
fn leaf(bound: CellBox) -> (n: QNode)
    ensures
        wf_node(n),
        entset(n) =~= Multiset::<Entry>::empty(),
        n.size == 0,
        n.bound == bound,
        n.kids is None,
{
    let n = QNode { bound, elems: Vec::new(), size: 0, kids: None };
    proof {
        assert(n.elems@ =~= Seq::<Entry>::empty());
        n.elems@.to_multiset_ensures();
        assert(entset(n) =~= Multiset::<Entry>::empty());
    }
    n
}

/// Subdivide a leaf whose region can still split: hand out four
/// quadrants and sink every entry that fits entirely in one of them.
fn subdivide(n: &mut QNode)
    requires
        wf_node(*old(n)),
        old(n).kids is None,
        old(n).bound.x0 < old(n).bound.x1,
        old(n).bound.y0 < old(n).bound.y1,
    ensures
        wf_node(*final(n)),
        entset(*final(n)) == entset(*old(n)),
        final(n).size == old(n).size,
        final(n).bound == old(n).bound,
{
    let b = n.bound;
    // midpoints, computed without overflow; the quadrant split is a
    // performance choice, correctness only needs containment below
    let wx: u128 = (b.x1 as i128 - b.x0 as i128) as u128;
    let wy: u128 = (b.y1 as i128 - b.y0 as i128) as u128;
    let mx: i64 = ((b.x0 as i128) + ((wx / 2) as i128)) as i64;
    let my: i64 = ((b.y0 as i128) + ((wy / 2) as i128)) as i64;
    let mut q0 = leaf(CellBox { x0: b.x0, y0: b.y0, x1: mx, y1: my });
    let mut q1 = leaf(CellBox { x0: mx + 1, y0: b.y0, x1: b.x1, y1: my });
    let mut q2 = leaf(CellBox { x0: b.x0, y0: my + 1, x1: mx, y1: b.y1 });
    let mut q3 = leaf(CellBox { x0: mx + 1, y0: my + 1, x1: b.x1, y1: b.y1 });
    let ghost all = old(n).elems@;
    let total = n.elems.len();
    let mut kept: Vec<Entry> = Vec::new();
    proof {
        assert(kept@ =~= Seq::<Entry>::empty());
        kept@.to_multiset_ensures();
        assert(all.take(0) =~= Seq::<Entry>::empty());
        all.take(0).to_multiset_ensures();
        assert(kept@.to_multiset() =~= all.take(0).to_multiset());
    }
    let mut t: usize = 0;
    while t < total
        invariant
            total == all.len(),
            0 <= t <= total,
            n.elems@ == all,
            n.kids is None,
            n.bound == old(n).bound,
            n.size == old(n).size,
            q0.kids is None && q1.kids is None && q2.kids is None && q3.kids is None,
            wf_node(q0) && wf_node(q1) && wf_node(q2) && wf_node(q3),
            forall|e: Entry|
                #[trigger] entset(q0).contains(e) ==> box_contained(e.bounds, q0.bound),
            forall|e: Entry|
                #[trigger] entset(q1).contains(e) ==> box_contained(e.bounds, q1.bound),
            forall|e: Entry|
                #[trigger] entset(q2).contains(e) ==> box_contained(e.bounds, q2.bound),
            forall|e: Entry|
                #[trigger] entset(q3).contains(e) ==> box_contained(e.bounds, q3.bound),
            kept@.to_multiset().add(entset(q0)).add(entset(q1)).add(entset(q2)).add(
                entset(q3),
            ) =~= all.take(t as int).to_multiset(),
            kept@.len() + q0.size + q1.size + q2.size + q3.size == t,
        decreases total - t,
    {
        let e = n.elems[t];
        proof {
            assert(all.take(t + 1) =~= all.take(t as int).push(all[t as int]));
            all.take(t as int).to_multiset_ensures();
            assert(q0.size <= t && q1.size <= t && q2.size <= t && q3.size <= t);
        }
        if contained(&e.bounds, &q0.bound) {
            let ghost kpre = q0;
            push_leaf(&mut q0, e);
            proof {
                assert forall|x: Entry| #[trigger] entset(q0).contains(x) implies
                    box_contained(x.bounds, q0.bound) by {
                    if x != e {
                        assert(entset(kpre).contains(x));
                    }
                }
            }
        } else if contained(&e.bounds, &q1.bound) {
            let ghost kpre = q1;
            push_leaf(&mut q1, e);
            proof {
                assert forall|x: Entry| #[trigger] entset(q1).contains(x) implies
                    box_contained(x.bounds, q1.bound) by {
                    if x != e {
                        assert(entset(kpre).contains(x));
                    }
                }
            }
        } else if contained(&e.bounds, &q2.bound) {
            let ghost kpre = q2;
            push_leaf(&mut q2, e);
            proof {
                assert forall|x: Entry| #[trigger] entset(q2).contains(x) implies
                    box_contained(x.bounds, q2.bound) by {
                    if x != e {
                        assert(entset(kpre).contains(x));
                    }
                }
            }
        } else if contained(&e.bounds, &q3.bound) {
            let ghost kpre = q3;
            push_leaf(&mut q3, e);
            proof {
                assert forall|x: Entry| #[trigger] entset(q3).contains(x) implies
                    box_contained(x.bounds, q3.bound) by {
                    if x != e {
                        assert(entset(kpre).contains(x));
                    }
                }
            }
        } else {
            let ghost pre = kept@;
            kept.push(e);
            proof {
                pre.to_multiset_ensures();
            }
        }
        t = t + 1;
    }
    proof {
        assert(all.take(total as int) =~= all);
    }
    n.elems = kept;
    n.kids = Some(Box::new(Quads { q0, q1, q2, q3 }));
    proof {
        assert(entset(*n) =~= entset(*old(n)));
    }
}

/// File an entry directly in a leaf node.
fn push_leaf(n: &mut QNode, e: Entry)
    requires
        wf_node(*old(n)),
        old(n).kids is None,
        old(n).size < usize::MAX,
    ensures
        wf_node(*final(n)),
        final(n).kids is None,
        final(n).bound == old(n).bound,
        final(n).size == old(n).size + 1,
        entset(*final(n)) == entset(*old(n)).insert(e),
{
    let ghost pre = n.elems@;
    n.elems.push(e);
    n.size = n.size + 1;
    proof {
        pre.to_multiset_ensures();
        assert(entset(*n) =~= entset(*old(n)).insert(e));
    }
}

/// File an entry in the subtree: sink it into the quadrant that wholly
/// contains its box, else keep it at this node; a leaf past its
/// capacity subdivides.
fn insert_node(n: &mut QNode, e: Entry, depth: usize)
    requires
        wf_node(*old(n)),
        old(n).size < usize::MAX,
    ensures
        wf_node(*final(n)),
        final(n).bound == old(n).bound,
        final(n).size == old(n).size + 1,
        entset(*final(n)) == entset(*old(n)).insert(e),
    decreases *old(n),
{
    let ghost pre = *n;
    // past the subdivision limit the depth no longer matters; keep it
    // from overflowing
    let deeper: usize = if depth < MAX_DEPTH {
        depth + 1
    } else {
        depth
    };
    match n.kids.take() {
        Some(mut q) => {
            let ghost k0 = q.q0;
            let ghost k1 = q.q1;
            let ghost k2 = q.q2;
            let ghost k3 = q.q3;
            proof {
                assert(wf_node(k0) && wf_node(k1) && wf_node(k2) && wf_node(k3));
                assert(entset(pre).len() == pre.elems@.to_multiset().len() + entset(k0).len()
                    + entset(k1).len() + entset(k2).len() + entset(k3).len());
                assert(k0.size < usize::MAX && k1.size < usize::MAX && k2.size < usize::MAX
                    && k3.size < usize::MAX);
            }
            if contained(&e.bounds, &q.q0.bound) {
                insert_node(&mut q.q0, e, deeper);
                proof {
                    assert forall|x: Entry| #[trigger] entset(q.q0).contains(x) implies
                        box_contained(x.bounds, q.q0.bound) by {
                        if entset(k0).contains(x) {
                        } else {
                            assert(x == e);
                        }
                    }
                }
            } else if contained(&e.bounds, &q.q1.bound) {
                insert_node(&mut q.q1, e, deeper);
                proof {
                    assert forall|x: Entry| #[trigger] entset(q.q1).contains(x) implies
                        box_contained(x.bounds, q.q1.bound) by {
                        if entset(k1).contains(x) {
                        } else {
                            assert(x == e);
                        }
                    }
                }
            } else if contained(&e.bounds, &q.q2.bound) {
                insert_node(&mut q.q2, e, deeper);
                proof {
                    assert forall|x: Entry| #[trigger] entset(q.q2).contains(x) implies
                        box_contained(x.bounds, q.q2.bound) by {
                        if entset(k2).contains(x) {
                        } else {
                            assert(x == e);
                        }
                    }
                }
            } else if contained(&e.bounds, &q.q3.bound) {
                insert_node(&mut q.q3, e, deeper);
                proof {
                    assert forall|x: Entry| #[trigger] entset(q.q3).contains(x) implies
                        box_contained(x.bounds, q.q3.bound) by {
                        if entset(k3).contains(x) {
                        } else {
                            assert(x == e);
                        }
                    }
                }
            } else {
                let ghost pe = n.elems@;
                n.elems.push(e);
                proof {
                    pe.to_multiset_ensures();
                }
            }
            n.kids = Some(q);
            n.size = n.size + 1;
            proof {
                assert(entset(*n) =~= entset(pre).insert(e));
                assert(wf_node(*n));
            }
        },
        None => {
            n.elems.push(e);
            n.size = n.size + 1;
            proof {
                pre.elems@.to_multiset_ensures();
                assert(entset(*n) =~= entset(pre).insert(e));
                assert(wf_node(*n));
            }
            if n.elems.len() > NODE_CAPACITY && depth < MAX_DEPTH && n.bound.x0 < n.bound.x1
                && n.bound.y0 < n.bound.y1 {
                subdivide(n);
            }
        },
    }
}

/// Take the entry filed under handle `h` out of the subtree.
fn remove_node(n: &mut QNode, h: u64) -> (found: bool)
    requires
        wf_node(*old(n)),
    ensures
        wf_node(*final(n)),
        final(n).bound == old(n).bound,
        !found ==> *final(n) == *old(n) && (forall|x: Entry|
            #[trigger] entset(*old(n)).contains(x) ==> x.handle != h),
        found ==> exists|ent: Entry|
            {
                &&& (#[trigger] ent.handle) == h
                &&& entset(*old(n)).contains(ent)
                &&& entset(*final(n)) == entset(*old(n)).remove(ent)
                &&& final(n).size == old(n).size - 1
            },
    decreases *old(n),
{
    let ghost pre = *n;
    let m = self_elems_len(n);
    let mut k: usize = 0;
    while k < m
        invariant
            *n == pre,
            pre == *old(n),
            wf_node(pre),
            m == n.elems@.len(),
            0 <= k <= m,
            forall|i: int| 0 <= i < k ==> n.elems@[i].handle != h,
        decreases m - k,
    {
        if n.elems[k].handle == h {
            let ent = n.elems[k];
            let ghost pe = n.elems@;
            proof {
                pe.to_multiset_ensures();
                assert(pe.to_multiset().contains(ent)) by {
                    assert(pe.contains(ent));
                }
                assert(entset(pre).count(ent) >= pe.to_multiset().count(ent));
                assert(entset(pre).contains(ent));
                assert(entset(pre).len() >= pe.to_multiset().len());
                assert(pre.size >= 1);
            }
            n.elems.remove(k);
            let s = n.size;
            n.size = s - 1;
            proof {
                pe.to_multiset_ensures();
                assert(n.elems@ =~= pe.remove(k as int));
                assert(entset(*n) =~= entset(pre).remove(ent));
                lemma_remove_len(entset(pre), ent);
                assert(ent.handle == h);
                assert forall|x: Entry| entset(*n).contains(x) implies entset(
                    pre,
                ).contains(x) by {}
                assert(wf_node(*n)) by {
                    match n.kids {
                        Some(qk) => {
                            assert(wf_node(pre));
                        },
                        None => {},
                    }
                }
            }
            return true;
        }
        k = k + 1;
    }
    match n.kids.take() {
        Some(mut q) => {
            let ghost k0 = q.q0;
            let ghost k1 = q.q1;
            let ghost k2 = q.q2;
            let ghost k3 = q.q3;
            proof {
                assert(entset(pre) == pre.elems@.to_multiset().add(
                    entset(k0).add(entset(k1)).add(entset(k2)).add(entset(k3)),
                ));
            }
            if remove_node(&mut q.q0, h) {
                proof {
                    assert(pre.size >= 1) by {
                        let ent = choose|ent: Entry|
                            (#[trigger] ent.handle) == h && entset(k0).contains(ent) && entset(
                                q.q0,
                            ) == entset(k0).remove(ent) && q.q0.size == k0.size - 1;
                        assert(entset(pre).count(ent) >= entset(k0).count(ent));
                        assert(entset(pre).contains(ent));
                    }
                }
                let s = n.size;
                n.size = s - 1;
                n.kids = Some(q);
                proof {
                    let ent = choose|ent: Entry|
                        (#[trigger] ent.handle) == h && entset(k0).contains(ent) && entset(
                            q.q0,
                        ) == entset(k0).remove(ent) && q.q0.size == k0.size - 1;
                    assert(entset(pre).contains(ent)) by {
                        assert(entset(pre).count(ent) >= entset(k0).count(ent));
                    }
                    assert(entset(*n) =~= entset(pre).remove(ent));
                    lemma_remove_len(entset(pre), ent);
                    assert forall|x: Entry| #[trigger] entset(q.q0).contains(x) implies
                        box_contained(x.bounds, q.q0.bound) by {
                        assert(entset(q.q0).count(x) <= entset(k0).count(x));
                        assert(entset(k0).contains(x));
                        assert(q.q0.bound == k0.bound);
                    }
                    assert(wf_node(*n));
                }
                return true;
            }
            if remove_node(&mut q.q1, h) {
                proof {
                    assert(pre.size >= 1) by {
                        let ent = choose|ent: Entry|
                            (#[trigger] ent.handle) == h && entset(k1).contains(ent) && entset(
                                q.q1,
                            ) == entset(k1).remove(ent) && q.q1.size == k1.size - 1;
                        assert(entset(pre).count(ent) >= entset(k1).count(ent));
                        assert(entset(pre).contains(ent));
                    }
                }
                let s = n.size;
                n.size = s - 1;
                n.kids = Some(q);
                proof {
                    let ent = choose|ent: Entry|
                        (#[trigger] ent.handle) == h && entset(k1).contains(ent) && entset(
                            q.q1,
                        ) == entset(k1).remove(ent) && q.q1.size == k1.size - 1;
                    assert(entset(pre).contains(ent)) by {
                        assert(entset(pre).count(ent) >= entset(k1).count(ent));
                    }
                    assert(entset(*n) =~= entset(pre).remove(ent));
                    lemma_remove_len(entset(pre), ent);
                    assert forall|x: Entry| #[trigger] entset(q.q1).contains(x) implies
                        box_contained(x.bounds, q.q1.bound) by {
                        assert(entset(q.q1).count(x) <= entset(k1).count(x));
                        assert(entset(k1).contains(x));
                        assert(q.q1.bound == k1.bound);
                    }
                    assert(wf_node(*n));
                }
                return true;
            }
            if remove_node(&mut q.q2, h) {
                proof {
                    assert(pre.size >= 1) by {
                        let ent = choose|ent: Entry|
                            (#[trigger] ent.handle) == h && entset(k2).contains(ent) && entset(
                                q.q2,
                            ) == entset(k2).remove(ent) && q.q2.size == k2.size - 1;
                        assert(entset(pre).count(ent) >= entset(k2).count(ent));
                        assert(entset(pre).contains(ent));
                    }
                }
                let s = n.size;
                n.size = s - 1;
                n.kids = Some(q);
                proof {
                    let ent = choose|ent: Entry|
                        (#[trigger] ent.handle) == h && entset(k2).contains(ent) && entset(
                            q.q2,
                        ) == entset(k2).remove(ent) && q.q2.size == k2.size - 1;
                    assert(entset(pre).contains(ent)) by {
                        assert(entset(pre).count(ent) >= entset(k2).count(ent));
                    }
                    assert(entset(*n) =~= entset(pre).remove(ent));
                    lemma_remove_len(entset(pre), ent);
                    assert forall|x: Entry| #[trigger] entset(q.q2).contains(x) implies
                        box_contained(x.bounds, q.q2.bound) by {
                        assert(entset(q.q2).count(x) <= entset(k2).count(x));
                        assert(entset(k2).contains(x));
                        assert(q.q2.bound == k2.bound);
                    }
                    assert(wf_node(*n));
                }
                return true;
            }
            if remove_node(&mut q.q3, h) {
                proof {
                    assert(pre.size >= 1) by {
                        let ent = choose|ent: Entry|
                            (#[trigger] ent.handle) == h && entset(k3).contains(ent) && entset(
                                q.q3,
                            ) == entset(k3).remove(ent) && q.q3.size == k3.size - 1;
                        assert(entset(pre).count(ent) >= entset(k3).count(ent));
                        assert(entset(pre).contains(ent));
                    }
                }
                let s = n.size;
                n.size = s - 1;
                n.kids = Some(q);
                proof {
                    let ent = choose|ent: Entry|
                        (#[trigger] ent.handle) == h && entset(k3).contains(ent) && entset(
                            q.q3,
                        ) == entset(k3).remove(ent) && q.q3.size == k3.size - 1;
                    assert(entset(pre).contains(ent)) by {
                        assert(entset(pre).count(ent) >= entset(k3).count(ent));
                    }
                    assert(entset(*n) =~= entset(pre).remove(ent));
                    lemma_remove_len(entset(pre), ent);
                    assert forall|x: Entry| #[trigger] entset(q.q3).contains(x) implies
                        box_contained(x.bounds, q.q3.bound) by {
                        assert(entset(q.q3).count(x) <= entset(k3).count(x));
                        assert(entset(k3).contains(x));
                        assert(q.q3.bound == k3.bound);
                    }
                    assert(wf_node(*n));
                }
                return true;
            }
            n.kids = Some(q);
            proof {
                assert(*n == pre);
                assert forall|x: Entry| entset(pre).contains(x) implies #[trigger] x.handle
                    != h by {
                    pre.elems@.to_multiset_ensures();
                    if pre.elems@.to_multiset().contains(x) {
                        assert(pre.elems@.contains(x));
                        let i = choose|i: int| 0 <= i < pre.elems@.len() && pre.elems@[i] == x;
                        assert(pre.elems@[i].handle != h);
                    } else if entset(k0).contains(x) {
                    } else if entset(k1).contains(x) {
                    } else if entset(k2).contains(x) {
                    } else {
                        assert(entset(k3).contains(x));
                    }
                }
            }
            false
        },
        None => {
            proof {
                assert(*n == pre);
                assert forall|x: Entry| entset(pre).contains(x) implies #[trigger] x.handle
                    != h by {
                    pre.elems@.to_multiset_ensures();
                    assert(pre.elems@.to_multiset().contains(x));
                    assert(pre.elems@.contains(x));
                    let i = choose|i: int| 0 <= i < pre.elems@.len() && pre.elems@[i] == x;
                    assert(pre.elems@[i].handle != h);
                }
            }
            false
        },
    }
}

/// Length of a node's own element vector.
fn self_elems_len(n: &QNode) -> (m: usize)
    ensures
        m == n.elems@.len(),
{
    n.elems.len()
}

/// Collect every entry of the subtree whose box overlaps `qb`,
/// skipping quadrants whose whole region misses it.
fn query_node(n: &QNode, qb: &CellBox, out: &mut Vec<Entry>)
    requires
        wf_node(*n),
    ensures
        final(out)@.len() >= old(out)@.len(),
        forall|i: int| 0 <= i < old(out)@.len() ==> final(out)@[i] == old(out)@[i],
        forall|i: int|
            old(out)@.len() <= i < final(out)@.len() ==> entset(*n).contains(
                #[trigger] final(out)@[i],
            ) && boxes_overlap(final(out)@[i].bounds, *qb),
        forall|e: Entry|
            #[trigger] entset(*n).contains(e) && boxes_overlap(e.bounds, *qb)
                ==> final(out)@.contains(e),
    decreases *n,
{
    let ghost base = out@;
    let m = n.elems.len();
    let mut k: usize = 0;
    while k < m
        invariant
            m == n.elems@.len(),
            0 <= k <= m,
            out@.len() >= base.len(),
            forall|i: int| 0 <= i < base.len() ==> out@[i] == base[i],
            forall|i: int|
                base.len() <= i < out@.len() ==> n.elems@.contains(#[trigger] out@[i])
                    && boxes_overlap(out@[i].bounds, *qb),
            forall|i: int|
                0 <= i < k && boxes_overlap((#[trigger] n.elems@[i]).bounds, *qb)
                    ==> out@.contains(n.elems@[i]),
        decreases m - k,
    {
        let e = n.elems[k];
        let ghost preout = out@;
        if overlaps(&e.bounds, qb) {
            out.push(e);
            proof {
                assert(out@.contains(e)) by {
                    assert(out@[out@.len() - 1] == e);
                }
                assert forall|x: Entry| preout.contains(x) implies out@.contains(x) by {
                    let i = choose|i: int| 0 <= i < preout.len() && preout[i] == x;
                    assert(out@[i] == x);
                }
            }
        }
        k = k + 1;
    }
    proof {
        n.elems@.to_multiset_ensures();
        assert forall|i: int|
            base.len() <= i < out@.len() implies entset(*n).contains(#[trigger] out@[i])
            && boxes_overlap(out@[i].bounds, *qb) by {
            assert(n.elems@.to_multiset().contains(out@[i]));
            assert(entset(*n).count(out@[i]) >= n.elems@.to_multiset().count(out@[i]));
        }
    }
    match &n.kids {
        Some(q) => {
            if overlaps(&q.q0.bound, qb) {
                query_node(&q.q0, qb, out);
            }
            if overlaps(&q.q1.bound, qb) {
                query_node(&q.q1, qb, out);
            }
            if overlaps(&q.q2.bound, qb) {
                query_node(&q.q2, qb, out);
            }
            if overlaps(&q.q3.bound, qb) {
                query_node(&q.q3, qb, out);
            }
            proof {
                assert forall|e: Entry|
                    #[trigger] entset(*n).contains(e) && boxes_overlap(e.bounds, *qb)
                    implies out@.contains(e) by {
                    n.elems@.to_multiset_ensures();
                    if n.elems@.to_multiset().contains(e) {
                    } else {
                        if entset(q.q0).contains(e) {
                            lemma_contained_overlap(e.bounds, q.q0.bound, *qb);
                        } else if entset(q.q1).contains(e) {
                            lemma_contained_overlap(e.bounds, q.q1.bound, *qb);
                        } else if entset(q.q2).contains(e) {
                            lemma_contained_overlap(e.bounds, q.q2.bound, *qb);
                        } else {
                            assert(entset(q.q3).contains(e));
                            lemma_contained_overlap(e.bounds, q.q3.bound, *qb);
                        }
                    }
                }
            }
        },
        None => {
            proof {
                n.elems@.to_multiset_ensures();
            }
        },
    }
}

/// Prune subdivisions that no longer hold any entry.
fn cleanup_node(n: &mut QNode)
    requires
        wf_node(*old(n)),
    ensures
        wf_node(*final(n)),
        final(n).bound == old(n).bound,
        final(n).size == old(n).size,
        entset(*final(n)) == entset(*old(n)),
    decreases *old(n),
{
    let ghost pre = *n;
    match n.kids.take() {
        Some(mut q) => {
            cleanup_node(&mut q.q0);
            cleanup_node(&mut q.q1);
            cleanup_node(&mut q.q2);
            cleanup_node(&mut q.q3);
            if q.q0.size == 0 && q.q1.size == 0 && q.q2.size == 0 && q.q3.size == 0 {
                proof {
                    vstd::multiset::lemma_multiset_empty_len(entset(q.q0));
                    vstd::multiset::lemma_multiset_empty_len(entset(q.q1));
                    vstd::multiset::lemma_multiset_empty_len(entset(q.q2));
                    vstd::multiset::lemma_multiset_empty_len(entset(q.q3));
                    assert(entset(*final(n)) =~= entset(pre));
                }
            } else {
                n.kids = Some(q);
                proof {
                    assert(entset(*final(n)) =~= entset(pre));
                }
            }
        },
        None => {},
    }
}

/// The spatial index.  Its view is the sequence of live entries, in
/// filing order; a quadtree over the same entries answers the queries.
pub struct SpatialIndex {
    entries: Vec<Entry>,
    root: QNode,
    free: Vec<u64>,
    next_handle: u64,
}

impl View for SpatialIndex {
    type V = Seq<Entry>;

    closed spec fn view(&self) -> Seq<Entry> {
        self.entries@
    }
}

impl SpatialIndex {
    /// Well-formed: live and free handles are pairwise distinct, sit
    /// below the handle counter, and together account for it exactly,
    /// so a fresh handle always exists without the counter overflowing;
    /// and the quadtree holds exactly the mirrored entries.
    pub closed spec fn wf(&self) -> bool {
        &&& forall|i: int|
            0 <= i < self.entries@.len() ==> self.entries@[i].handle < self.next_handle
        &&& forall|i: int, j: int|
            0 <= i < self.entries@.len() && 0 <= j < self.entries@.len() && i != j
                ==> self.entries@[i].handle != self.entries@[j].handle
        &&& forall|i: int| 0 <= i < self.free@.len() ==> self.free@[i] < self.next_handle
        &&& forall|i: int, j: int|
            0 <= i < self.free@.len() && 0 <= j < self.free@.len() && i != j ==> self.free@[i]
                != self.free@[j]
        &&& forall|i: int, j: int|
            0 <= i < self.entries@.len() && 0 <= j < self.free@.len() ==> self.entries@[i].handle
                != self.free@[j]
        &&& self.next_handle == self.entries@.len() + self.free@.len()
        &&& wf_node(self.root)
        &&& entset(self.root) == self.entries@.to_multiset()
    }

    /// Handles of distinct entries differ.
    pub proof fn lemma_handles_distinct(&self)
        requires
            self.wf(),
        ensures
            forall|i: int, j: int|
                0 <= i < self@.len() && 0 <= j < self@.len() && i != j ==> self@[i].handle
                    != self@[j].handle,
    {
    }

    /// An empty index over the initial working region.
    pub fn new() -> (r: SpatialIndex)
        ensures
            r@ == Seq::<Entry>::empty(),
            r.wf(),
    {
        let root = leaf(
            CellBox { x0: WORLD_MIN, y0: WORLD_MIN, x1: WORLD_MAX, y1: WORLD_MAX },
        );
        let r = SpatialIndex { entries: Vec::new(), root, free: Vec::new(), next_handle: 0 };
        proof {
            assert(r@ =~= Seq::<Entry>::empty());
            r.entries@.to_multiset_ensures();
            assert(entset(r.root) =~= r.entries@.to_multiset());
        }
        r
    }

    /// File `payload` under `bounds`; the returned handle is fresh: no
    /// live entry carries it.
    pub fn insert(&mut self, payload: usize, bounds: CellBox) -> (h: u64)
        requires
            old(self).wf(),
        ensures
            final(self).wf(),
            final(self)@ == old(self)@.push(Entry { handle: h, payload, bounds }),
            forall|i: int| 0 <= i < old(self)@.len() ==> old(self)@[i].handle != h,
    {
        let ghost pree = self.entries@;
        let h: u64 = match self.free.pop() {
            Some(h) => {
                self.entries.push(Entry { handle: h, payload, bounds });
                h
            },
            None => {
                let h = self.next_handle;
                self.entries.push(Entry { handle: h, payload, bounds });
                let l = self.entries.len();
                proof {
                    assert(self.next_handle as int == l as int - 1);
                }
                self.next_handle = self.next_handle + 1;
                h
            },
        };
        let e = Entry { handle: h, payload, bounds };
        let l = self.entries.len();
        proof {
            pree.to_multiset_ensures();
            assert(self.root.size < usize::MAX) by {
                assert(entset(self.root).len() == pree.to_multiset().len());
                assert(pree.to_multiset().len() == pree.len());
                assert(pree.len() == l - 1);
            }
        }
        insert_node(&mut self.root, e, 0);
        proof {
            assert(entset(self.root) =~= self.entries@.to_multiset()) by {
                pree.to_multiset_ensures();
                assert(self.entries@ =~= pree.push(e));
            }
        }
        h
    }

    /// Take out the entry filed under `h`.
    pub fn remove(&mut self, h: u64) -> (found: bool)
        requires
            old(self).wf(),
        ensures
            final(self).wf(),
            found == exists|i: int| 0 <= i < old(self)@.len() && old(self)@[i].handle == h,
            found ==> exists|i: int|
                0 <= i < old(self)@.len() && old(self)@[i].handle == h && final(self)@ == old(
                self)@.remove(i),
            !found ==> final(self)@ == old(self)@,
    {
        let n = self.entries.len();
        let mut k: usize = 0;
        while k < n
            invariant
                self == old(self),
                old(self).wf(),
                n == self.entries@.len(),
                0 <= k <= n,
                forall|i: int| 0 <= i < k ==> self.entries@[i].handle != h,
            decreases n - k,
        {
            if self.entries[k].handle == h {
                let ghost pre = self.entries@;
                let ghost prefree = self.free@;
                let ghost ent0 = self.entries@[k as int];
                self.entries.remove(k);
                self.free.push(h);
                proof {
                    assert(self.entries@ =~= pre.remove(k as int));
                    assert(self.free@ =~= prefree.push(h));
                    assert(forall|i: int|
                        0 <= i < self.entries@.len() ==> #[trigger] self.entries@[i] == (if i < k
                            as int {
                            pre[i]
                        } else {
                            pre[i + 1]
                        }));
                    assert(pre[k as int].handle == h);
                }
                let found2 = remove_node(&mut self.root, h);
                proof {
                    let pret = entset(old(self).root);
                    pre.to_multiset_ensures();
                    assert(pret.contains(ent0)) by {
                        assert(pre.contains(ent0));
                    }
                    assert(found2);
                    let ent = choose|ent: Entry|
                        {
                            &&& (#[trigger] ent.handle) == h
                            &&& pret.contains(ent)
                            &&& entset(self.root) == pret.remove(ent)
                            &&& self.root.size == old(self).root.size - 1
                        };
                    // the tree's entry under h is the mirror's: handles
                    // are unique among live entries
                    assert(ent == ent0) by {
                        assert(pre.contains(ent)) by {
                            assert(pre.to_multiset().contains(ent));
                        }
                        let i_t = choose|i: int| 0 <= i < pre.len() && pre[i] == ent;
                        assert(pre[i_t].handle == h);
                        assert(i_t == k as int);
                    }
                    assert(entset(self.root) =~= self.entries@.to_multiset()) by {
                        pre.to_multiset_ensures();
                    }
                    assert(final(self)@ == old(self)@.remove(k as int));
                }
                return true;
            }
            k = k + 1;
        }
        false
    }

    /// Every entry whose box overlaps `q` — the broad phase may hand
    /// back nothing else, and may not miss one.
    pub fn query(&self, q: &CellBox) -> (r: Vec<Entry>)
        requires
            self.wf(),
        ensures
            forall|i: int|
                0 <= i < r@.len() ==> self@.contains(#[trigger] r@[i]) && boxes_overlap(
                    r@[i].bounds,
                    *q,
                ),
            forall|e: Entry|
                #[trigger] self@.contains(e) && boxes_overlap(e.bounds, *q) ==> r@.contains(e),
    {
        let mut r: Vec<Entry> = Vec::new();
        proof {
            assert(r@ =~= Seq::<Entry>::empty());
        }
        query_node(&self.root, q, &mut r);
        proof {
            self.entries@.to_multiset_ensures();
            assert forall|i: int|
                0 <= i < r@.len() implies self@.contains(#[trigger] r@[i]) && boxes_overlap(
                r@[i].bounds,
                *q,
            ) by {
                assert(entset(self.root).contains(r@[i]));
            }
            assert forall|e: Entry|
                #[trigger] self@.contains(e) && boxes_overlap(e.bounds, *q)
                implies r@.contains(e) by {
                assert(self.entries@.to_multiset().contains(e));
                assert(entset(self.root).contains(e));
            }
        }
        r
    }

    /// Reclaim subdivisions that no longer hold any entry.  Entries are
    /// never touched by this call.
    pub fn cleanup(&mut self)
        requires
            old(self).wf(),
        ensures
            final(self).wf(),
            final(self)@ == old(self)@,
    {
        cleanup_node(&mut self.root);
    }
}

} // verus!

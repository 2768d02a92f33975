//! Entity store, wall store and spatial index behavior.
use sphere_sim::{ActiveSpheres, CellBox, NewBall, SpatialIndex, State, V3, Walls, step};
use sphere_sim::sim::cellbox_of;

fn v(x: i64, y: i64, z: i64) -> V3 {
    V3 { x, y, z }
}

/// Ids are assigned from one, counting up, in creation order.
#[test]
fn ids_count_up_from_one() {
    let mut st = State::new();
    let a = st.add_ball(v(0, 0, 0), v(0, 0, 0), 500_000, 1_000_000);
    let b = st.add_ball(v(3_000_000, 0, 0), v(0, 0, 0), 500_000, 1_000_000);
    let c = st.add_ball(v(6_000_000, 0, 0), v(0, 0, 0), 500_000, 1_000_000);
    assert_eq!(a, 1);
    assert_eq!(b, 2);
    assert_eq!(c, 3);
}

/// The read-only accessors hand back what was stored, in store order.
#[test]
fn accessors_round_trip() {
    let mut st = State::new();
    st.add_ball(v(1_000_000, 2_000_000, 3_000_000), v(4, 5, 6), 700_000, 900_000);
    st.add_ball(v(-1, -2, -3), v(0, 0, 0), 1, 1);
    let pos = st.sphere_positions();
    let rad = st.sphere_radius();
    assert_eq!(pos.len(), 2);
    assert_eq!(pos[0], v(1_000_000, 2_000_000, 3_000_000));
    assert_eq!(pos[1], v(-1, -2, -3));
    assert_eq!(rad[0], 700_000);
    assert_eq!(rad[1], 1);
    let vel = st.sphere_velocities();
    assert_eq!(vel[0], v(4, 5, 6));
}

/// The wall store counts what was added and keeps it immutable.
#[test]
fn walls_store_counts() {
    let mut w = Walls::new();
    assert_eq!(w.count(), 0);
    w.add_wall(v(0, 0, 0), v(1_000_000, 2_000_000, 3_000_000));
    w.add_wall(v(5_000_000, 0, 0), v(1, 1, 1));
    assert_eq!(w.count(), 2);
    assert_eq!(w.positions[1], v(5_000_000, 0, 0));
    assert_eq!(w.sizes[0], v(1_000_000, 2_000_000, 3_000_000));
}

/// The spatial index returns exactly the overlapping entries, and a
/// removed entry is gone.
#[test]
fn spatial_index_insert_query_remove() {
    let mut ix = SpatialIndex::new();
    let h0 = ix.insert(0, CellBox { x0: 0, y0: 0, x1: 2, y1: 2 });
    let h1 = ix.insert(1, CellBox { x0: 5, y0: 5, x1: 6, y1: 6 });
    assert_ne!(h0, h1);
    let hits = ix.query(&CellBox { x0: 1, y0: 1, x1: 3, y1: 3 });
    assert_eq!(hits.len(), 1);
    assert_eq!(hits[0].payload, 0);
    assert_eq!(hits[0].handle, h0);
    let both = ix.query(&CellBox { x0: 0, y0: 0, x1: 10, y1: 10 });
    assert_eq!(both.len(), 2);
    assert!(ix.remove(h0));
    let after = ix.query(&CellBox { x0: 0, y0: 0, x1: 10, y1: 10 });
    assert_eq!(after.len(), 1);
    assert_eq!(after[0].payload, 1);
    assert!(!ix.remove(h0));
}

/// Cleanup reclaims structure but never an entry.
#[test]
fn spatial_index_cleanup_keeps_entries() {
    let mut ix = SpatialIndex::new();
    ix.insert(7, CellBox { x0: -1, y0: -1, x1: 1, y1: 1 });
    ix.cleanup();
    let hits = ix.query(&CellBox { x0: 0, y0: 0, x1: 0, y1: 0 });
    assert_eq!(hits.len(), 1);
    assert_eq!(hits[0].payload, 7);
}

/// Self-membership after reindex: right after `order_tree`, querying
/// the index with a sphere's own cell box returns that sphere.
#[test]
fn order_tree_self_membership() {
    let mut spheres = ActiveSpheres::new();
    let s0 = spheres.add_entity(NewBall {
        id: 1,
        pos: v(1_500_000, -2_500_000, 0),
        vel: v(0, 0, 0),
        radius: 800_000,
        mass: 1_000_000,
    });
    let s1 = spheres.add_entity(NewBall {
        id: 2,
        pos: v(-7_000_000, 4_000_000, 0),
        vel: v(0, 0, 0),
        radius: 500_000,
        mass: 1_000_000,
    });
    spheres.order_tree();
    for (slot, pos, rad) in [
        (s0, v(1_500_000, -2_500_000, 0), 800_000i64),
        (s1, v(-7_000_000, 4_000_000, 0), 500_000i64),
    ] {
        let own_box = cellbox_of(&pos, rad);
        let hits = spheres.query_box(&own_box);
        assert!(hits.iter().any(|e| e.payload == slot));
    }
}

/// Broad-phase soundness on a concrete configuration: the pairs in
/// contact by a brute-force all-pairs distance check are exactly the
/// pairs in contact among the index-filtered candidates.
#[test]
fn broad_phase_matches_brute_force() {
    let mut spheres = ActiveSpheres::new();
    let bodies: [(V3, i64); 6] = [
        (v(0, 0, 0), 1_000_000),
        (v(1_500_000, 200_000, 0), 700_000),
        (v(-2_000_000, -1_000_000, 0), 1_200_000),
        (v(10_000_000, 10_000_000, 0), 900_000),
        (v(10_600_000, 9_400_000, 0), 400_000),
        (v(0, 2_100_000, 0), 1_100_000),
    ];
    for (k, (pos, rad)) in bodies.iter().enumerate() {
        spheres.add_entity(NewBall {
            id: k + 1,
            pos: *pos,
            vel: v(0, 0, 0),
            radius: *rad,
            mass: 1_000_000,
        });
    }
    spheres.order_tree();
    let n = bodies.len();
    for i in 0..n {
        let candidates = spheres.query_box(&cellbox_of(&bodies[i].0, bodies[i].1));
        for j in (i + 1)..n {
            let dist = bodies[j].0.sub(bodies[i].0).norm();
            let in_contact = bodies[i].1 + bodies[j].1 >= dist;
            let is_candidate = candidates.iter().any(|e| e.payload == j);
            if in_contact {
                // the broad phase may overapproximate, never miss
                assert!(is_candidate, "contact pair lost by broad phase");
            }
            assert_eq!(in_contact && is_candidate, in_contact);
        }
    }
}

/// A step leaves counts, radii and masses alone.
#[test]
fn step_keeps_attributes() {
    let mut st = State::new();
    st.add_ball(v(0, 0, 0), v(1_000_000, 0, 0), 600_000, 2_000_000);
    st.add_wall(v(30_000_000, 0, 0), v(1_000_000, 1_000_000, 1_000_000));
    step(&mut st, 10_000);
    assert_eq!(st.sphere_positions().len(), 1);
    assert_eq!(st.sphere_radius()[0], 600_000);
    // free flight: position advanced by one step of velocity
    assert_eq!(st.sphere_positions()[0].x, 10_000);
}

/// With more entries than a node's capacity, the index subdivides and
/// still answers queries exactly.
#[test]
fn spatial_index_subdivides_and_stays_exact() {
    let mut ix = SpatialIndex::new();
    let mut boxes: Vec<CellBox> = Vec::new();
    // twenty small boxes marching across the working region
    for k in 0..20i64 {
        let x = -100 + k * 10;
        let y = -50 + k * 5;
        boxes.push(CellBox { x0: x, y0: y, x1: x + 2, y1: y + 2 });
    }
    for (p, b) in boxes.iter().enumerate() {
        ix.insert(p, *b);
    }
    let probes = [
        CellBox { x0: -100, y0: -50, x1: -80, y1: -40 },
        CellBox { x0: 0, y0: 0, x1: 30, y1: 15 },
        CellBox { x0: -128, y0: -128, x1: 128, y1: 128 },
        CellBox { x0: 200, y0: 200, x1: 210, y1: 210 },
    ];
    for probe in probes.iter() {
        let hits = ix.query(probe);
        for (p, b) in boxes.iter().enumerate() {
            let wanted = b.x0 <= probe.x1 && probe.x0 <= b.x1 && b.y0 <= probe.y1
                && probe.y0 <= b.y1;
            let got = hits.iter().filter(|e| e.payload == p).count();
            assert_eq!(got, if wanted { 1 } else { 0 });
        }
    }
}

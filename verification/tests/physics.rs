//! Step-level behavior of the solver on concrete scenes.
use sphere_sim::{State, V3, SCALE, step};

fn v(x: i64, y: i64, z: i64) -> V3 {
    V3 { x, y, z }
}

/// Elastic head-on collision: equal masses, restitution one — the
/// velocity components along the collision axis swap exactly.
#[test]
fn elastic_head_on_swap() {
    let mut st = State::new();
    // two spheres of mass 1, radius 0.5, overlapping on the x axis
    st.add_ball(v(-400_000, 0, 0), v(2_000_000, 0, 0), 500_000, 1_000_000);
    st.add_ball(v(400_000, 0, 0), v(-3_000_000, 0, 0), 500_000, 1_000_000);
    step(&mut st, 10_000);
    let vels = st.sphere_velocities();
    assert_eq!(vels[0].x, -3_000_000);
    assert_eq!(vels[1].x, 2_000_000);
    assert_eq!(vels[0].y, 0);
    assert_eq!(vels[1].y, 0);
    // semi-implicit Euler with the positional correction: one step of
    // the swapped velocity plus a tenth of the half penetration each
    let pos = st.sphere_positions();
    assert_eq!(pos[0].x, -400_000 - 30_000 - 10_000);
    assert_eq!(pos[1].x, 400_000 + 20_000 + 10_000);
}

/// No impulse on separating contact: overlapping spheres already
/// drifting apart keep their velocities.
#[test]
fn no_impulse_on_separating_contact() {
    let mut st = State::new();
    st.add_ball(v(-300_000, 0, 0), v(-1_000_000, 0, 0), 500_000, 1_000_000);
    st.add_ball(v(300_000, 0, 0), v(1_500_000, 0, 0), 500_000, 1_000_000);
    step(&mut st, 10_000);
    let vels = st.sphere_velocities();
    assert_eq!(vels[0].x, -1_000_000);
    assert_eq!(vels[1].x, 1_500_000);
    // positions advanced by velocity * dt
    let pos = st.sphere_positions();
    assert_eq!(pos[0].x, -300_000 - 10_000);
    assert_eq!(pos[1].x, 300_000 + 15_000);
}

/// Wall containment: a sphere penetrating a wall frontally with
/// restitution one reverses its velocity along the wall normal.
#[test]
fn wall_reverses_normal_velocity() {
    let mut st = State::new();
    // wall centered at the origin, extents 1 x 5 x 10
    st.add_wall(v(0, 0, 0), v(1_000_000, 5_000_000, 10_000_000));
    // sphere of radius 1 at x = -1.2, moving +x at 5: face at x = -0.5,
    // distance 0.7 < 1 so it is penetrating
    st.add_ball(v(-1_200_000, 0, 0), v(5_000_000, 0, 0), 1_000_000, 2_000_000);
    step(&mut st, 10_000);
    let vels = st.sphere_velocities();
    assert_eq!(vels[0].x, -5_000_000);
    assert_eq!(vels[0].y, 0);
    assert_eq!(vels[0].z, 0);
}

/// With restitution zero, a head-on collision of equal masses is
/// perfectly inelastic: both spheres leave with the mean velocity.
#[test]
fn restitution_zero_is_inelastic() {
    let mut st = State::new();
    st.set_restitution(0);
    st.add_ball(v(-400_000, 0, 0), v(2_000_000, 0, 0), 500_000, 1_000_000);
    st.add_ball(v(400_000, 0, 0), v(-2_000_000, 0, 0), 500_000, 1_000_000);
    step(&mut st, 10_000);
    let vels = st.sphere_velocities();
    assert_eq!(vels[0].x, 0);
    assert_eq!(vels[1].x, 0);
}

/// Coinciding centers have no defined normal; the solver falls back to
/// the positive x axis and still resolves the contact totally.
#[test]
fn coincident_centers_use_fallback_normal() {
    let mut st = State::new();
    st.add_ball(v(0, 0, 0), v(1_000_000, 0, 0), 500_000, 1_000_000);
    st.add_ball(v(0, 0, 0), v(-1_000_000, 0, 0), 500_000, 1_000_000);
    // closing along the fallback +x normal: relative velocity -2
    step(&mut st, 10_000);
    let vels = st.sphere_velocities();
    // elastic swap along the fallback axis
    assert_eq!(vels[0].x, -1_000_000);
    assert_eq!(vels[1].x, 1_000_000);
}

/// A sphere whose center sits inside a wall box is pushed out along
/// the axis of least penetration.
#[test]
fn sphere_center_inside_wall_reflects() {
    let mut st = State::new();
    st.add_wall(v(0, 0, 0), v(2_000_000, 8_000_000, 8_000_000));
    // center just inside the box's low x face, moving deeper in
    st.add_ball(v(-900_000, 0, 0), v(3_000_000, 0, 0), 500_000, 1_000_000);
    step(&mut st, 10_000);
    let vels = st.sphere_velocities();
    // least penetration is on x; normal points toward the wall center,
    // the reflection reverses the approach
    assert_eq!(vels[0].x, -3_000_000);
}

/// The three-sphere scenario: A runs into B, C drifts toward B from
/// the other side; a thousand fixed sub-steps stay finite and the
/// collisions exchange momentum.
#[test]
fn concrete_three_sphere_scenario() {
    let mut st = State::new();
    let a = st.add_ball(v(-9_000_000, 0, 0), v(5_000_000, 0, 0), 1_000_000, 1_000_000);
    let b = st.add_ball(v(0, 0, 0), v(0, 0, 0), 500_000, 500_000);
    let c = st.add_ball(v(5_000_000, 0, 0), v(-2_500_000, 0, 0), 2_500_000, 4_000_000);
    assert_eq!((a, b, c), (1, 2, 3));
    let p_start: i128 = total_momentum_x(&st);
    let mut b_was_hit = false;
    for _ in 0..1000 {
        step(&mut st, 10_000);
        let pos = st.sphere_positions();
        let vels = st.sphere_velocities();
        for k in 0..3 {
            // everything stays finite and well inside the sane range
            assert!(pos[k].x.abs() < 1000 * SCALE);
            assert!(pos[k].y.abs() < 1000 * SCALE);
            assert!(pos[k].z.abs() < 1000 * SCALE);
            assert!(vels[k].x.abs() < 1000 * SCALE);
        }
        if vels[1].x != 0 {
            b_was_hit = true;
        }
    }
    assert!(b_was_hit);
    let vels = st.sphere_velocities();
    // A gave up momentum in its collision
    assert!(vels[0].x < 5_000_000);
    // momentum along x is conserved up to fixed-point truncation
    let p_end: i128 = total_momentum_x(&st);
    let tolerance: i128 = (SCALE as i128) * (SCALE as i128);
    assert!((p_end - p_start).abs() <= tolerance);
}

fn total_momentum_x(st: &State) -> i128 {
    let vels = st.sphere_velocities();
    let mut p: i128 = 0;
    let masses: [i64; 3] = [1_000_000, 500_000, 4_000_000];
    for k in 0..3 {
        p += (masses[k] as i128) * (vels[k].x as i128) / (SCALE as i128);
    }
    p
}

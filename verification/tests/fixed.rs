//! Fixed-point scalar and vector arithmetic.
use sphere_sim::{SCALE, V3};
use sphere_sim::fx::{cell_ceil, cell_floor, fx_add, fx_div, fx_mul, fx_sqrt, isqrt};

/// Cell coordinates floor toward minus infinity and ceil toward plus
/// infinity, also for negative ticks.
#[test]
fn cell_floor_ceil_values() {
    assert_eq!(cell_floor(0), 0);
    assert_eq!(cell_floor(999_999), 0);
    assert_eq!(cell_floor(1_000_000), 1);
    assert_eq!(cell_floor(-1), -1);
    assert_eq!(cell_floor(-1_000_000), -1);
    assert_eq!(cell_floor(-1_000_001), -2);
    assert_eq!(cell_ceil(0), 0);
    assert_eq!(cell_ceil(1), 1);
    assert_eq!(cell_ceil(1_000_000), 1);
    assert_eq!(cell_ceil(1_000_001), 2);
    assert_eq!(cell_ceil(-999_999), 0);
    assert_eq!(cell_ceil(-1_000_000), -1);
}

/// Products truncate toward zero at the tick.
#[test]
fn fx_mul_truncates_toward_zero() {
    // 1.5 * 1.5 = 2.25
    assert_eq!(fx_mul(1_500_000, 1_500_000), 2_250_000);
    // 0.000001 * 0.5 truncates to zero
    assert_eq!(fx_mul(1, 500_000), 0);
    assert_eq!(fx_mul(-1, 500_000), 0);
    // -1.5 * 1.5 = -2.25
    assert_eq!(fx_mul(-1_500_000, 1_500_000), -2_250_000);
    // truncation is toward zero on both sides
    assert_eq!(fx_mul(1_000_001, 1_000_001), 1_000_002);
    assert_eq!(fx_mul(-1_000_001, 1_000_001), -1_000_002);
}

/// Quotients are exact on divisible values and truncate otherwise.
#[test]
fn fx_div_values() {
    assert_eq!(fx_div(3_000_000, 2_000_000), 1_500_000);
    assert_eq!(fx_div(-3_000_000, 2_000_000), -1_500_000);
    assert_eq!(fx_div(1_000_000, 3_000_000), 333_333);
    assert_eq!(fx_div(-1_000_000, 3_000_000), -333_333);
}

/// Sums saturate instead of wrapping.
#[test]
fn fx_add_saturates() {
    assert_eq!(fx_add(i64::MAX, 1), i64::MAX);
    assert_eq!(fx_add(i64::MIN, -1), i64::MIN);
    assert_eq!(fx_add(2_000_000, 3_000_000), 5_000_000);
}

/// The integer square root is exact on perfect squares and floors in
/// between.
#[test]
fn isqrt_values() {
    assert_eq!(isqrt(0), 0);
    assert_eq!(isqrt(1), 1);
    assert_eq!(isqrt(3), 1);
    assert_eq!(isqrt(4), 2);
    assert_eq!(isqrt(2_250_000_000_000), 1_500_000);
    // 2.25 in ticks has the fixed-point square root 1.5
    assert_eq!(fx_sqrt(2_250_000), 1_500_000);
}

/// Norms on a coordinate axis are exact; a 3-4-5 triangle comes out
/// exactly too.
#[test]
fn v3_norm_values() {
    let axis = V3 { x: -7_250_000, y: 0, z: 0 };
    assert_eq!(axis.norm(), 7_250_000);
    let pyth = V3 { x: 3_000_000, y: 4_000_000, z: 0 };
    assert_eq!(pyth.norm(), 5_000_000);
    let (n, unit) = pyth.norm_unit();
    assert_eq!(n, 5_000_000);
    assert_eq!(unit.x, 600_000);
    assert_eq!(unit.y, 800_000);
    assert_eq!(unit.z, 0);
}

/// The unit vector of an axis-aligned vector is the signed unit.
#[test]
fn v3_unit_axis_exact() {
    let d = V3 { x: 0, y: -123_456, z: 0 };
    let (n, unit) = d.norm_unit();
    assert_eq!(n, 123_456);
    assert_eq!(unit, V3 { x: 0, y: -SCALE, z: 0 });
}

/// Whole world units scale to ticks.
#[test]
fn from_units_scales() {
    let p = V3::from_units(30, 0, -2);
    assert_eq!(p, V3 { x: 30_000_000, y: 0, z: -2_000_000 });
}

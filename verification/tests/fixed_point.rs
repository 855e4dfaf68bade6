use gol::fixed::{displacement, isqrt, wrap, COORD_MAX, SPLIT_FORCE, UNIT};

const U: i64 = 65536;

#[test]
fn unit_is_sixteen_bits() {
    assert_eq!(UNIT, 65536);
    assert_eq!(SPLIT_FORCE, -65536);
    assert_eq!(COORD_MAX, 1i64 << 49);
}

#[test]
fn isqrt_of_small_numbers() {
    assert_eq!(isqrt(0), 0);
    assert_eq!(isqrt(1), 1);
    assert_eq!(isqrt(2), 1);
    assert_eq!(isqrt(3), 1);
    assert_eq!(isqrt(4), 2);
    assert_eq!(isqrt(15), 3);
    assert_eq!(isqrt(16), 4);
    assert_eq!(isqrt(17), 4);
    assert_eq!(isqrt(99), 9);
    assert_eq!(isqrt(100), 10);
}

#[test]
fn isqrt_of_large_numbers() {
    assert_eq!(isqrt(1u128 << 104), 1u64 << 52);
    assert_eq!(isqrt((1u128 << 104) - 1), (1u64 << 52) - 1);
    assert_eq!(isqrt(u128::MAX), u64::MAX);
    assert_eq!(isqrt(u64::MAX as u128 * u64::MAX as u128), u64::MAX);
    assert_eq!(isqrt(u64::MAX as u128 * u64::MAX as u128 - 1), u64::MAX - 1);
}

#[test]
fn isqrt_rounds_down_everywhere_nearby() {
    for r in 0u128..2000 {
        assert_eq!(isqrt(r * r) as u128, r);
        if r > 0 {
            assert_eq!(isqrt(r * r - 1) as u128, r - 1);
        }
        assert_eq!(isqrt(r * r + r) as u128, r);
    }
}

#[test]
fn displacement_on_a_three_four_five_triangle() {
    // acceleration 2.0 at speed 1.0 toward a point 30 px right and 40 px
    // down: 1.2 px and 1.6 px, rounded toward zero
    let d = displacement(2 * 65536, 65536, 30 * U, 40 * U);
    assert_eq!(d, (78643, 104857));
}

#[test]
fn displacement_signs_follow_direction_and_acceleration() {
    assert_eq!(displacement(2 * 65536, 65536, -30 * U, 40 * U), (-78643, 104857));
    assert_eq!(displacement(2 * 65536, 65536, 30 * U, -40 * U), (78643, -104857));
    assert_eq!(displacement(-2 * 65536, 65536, 30 * U, 40 * U), (-78643, -104857));
    assert_eq!(displacement(-2 * 65536, 65536, -30 * U, -40 * U), (78643, 104857));
}

#[test]
fn displacement_scales_with_speed() {
    assert_eq!(displacement(65536, 0, 30 * U, 40 * U), (0, 0));
    assert_eq!(displacement(65536, 65536, 30 * U, 40 * U), (39321, 52428));
    assert_eq!(displacement(65536, 2 * 65536, 30 * U, 40 * U), (78643, 104857));
    assert_eq!(displacement(65536, 32768, 30 * U, 40 * U), (19660, 26214));
}

#[test]
fn displacement_along_one_axis_is_whole() {
    assert_eq!(displacement(3 * 65536, 65536, 10 * U, 0), (3 * U, 0));
    assert_eq!(displacement(3 * 65536, 65536, 0, -10 * U), (0, -3 * U));
    assert_eq!(displacement(0, 65536, 10 * U, 5 * U), (0, 0));
}

#[test]
fn displacement_at_zero_distance_is_zero() {
    assert_eq!(displacement(2 * 65536, 65536, 0, 0), (0, 0));
    assert_eq!(displacement(-2 * 65536, 65536, 0, 0), (0, 0));
    assert_eq!(displacement(i32::MIN, u32::MAX, 0, 0), (0, 0));
}

#[test]
fn displacement_at_the_limits_stays_in_range() {
    let far = 1i64 << 52;
    let d = displacement(i32::MIN, u32::MAX, far, 0);
    // 2^31 * (2^32 - 1) / 2^16, away from the point
    assert_eq!(d, (-((1i64 << 47) - (1i64 << 15)), 0));
    let e = displacement(i32::MAX, u32::MAX, -far, -far);
    assert!(e.0 < 0 && e.1 < 0);
    assert_eq!(e.0, e.1);
    assert!(-e.0 <= 1i64 << 47);
}

#[test]
fn wrap_leaves_a_cell_inside_alone() {
    assert_eq!(wrap(50 * U, 4, 100), 50 * U);
    assert_eq!(wrap(0, 4, 100), 0);
    assert_eq!(wrap(96 * U, 4, 100), 96 * U);
    assert_eq!(wrap(100 * U, 4, 100), 100 * U);
    assert_eq!(wrap(-3 * U, 4, 100), -3 * U);
    assert_eq!(wrap(78643, 4, 100), 78643);
}

#[test]
fn wrap_past_the_far_edge_returns_to_zero() {
    assert_eq!(wrap(105 * U, 4, 100), 0);
    assert_eq!(wrap(104 * U, 4, 100), 0);
    assert_eq!(wrap(104 * U - 1, 4, 100), 104 * U - 1);
    assert_eq!(wrap(i64::MAX, 4, 100), 0);
}

#[test]
fn wrap_past_the_near_edge_goes_to_the_far_edge() {
    assert_eq!(wrap(-5 * U, 4, 100), 100 * U);
    assert_eq!(wrap(-4 * U, 4, 100), 100 * U);
    assert_eq!(wrap(-4 * U + 1, 4, 100), -4 * U + 1);
    assert_eq!(wrap(i64::MIN, 4, 100), 100 * U);
}

#[test]
fn wrap_of_a_cell_without_extent() {
    // such a cell is past the near edge as soon as it stands at 0
    assert_eq!(wrap(0, 0, 100), 100 * U);
    assert_eq!(wrap(100 * U, 0, 100), 100 * U);
    assert_eq!(wrap(200 * U, 0, 100), 100 * U);
    assert_eq!(wrap(50 * U, 0, 100), 50 * U);
}

#[test]
fn wrap_twice_is_wrap_once() {
    for &(pos, extent, limit) in &[
        (105 * U, 4u32, 100u32),
        (-5 * U, 4, 100),
        (50 * U, 4, 100),
        (0, 0, 100),
        (7, 0, 0),
        (-1, 3, 0),
        (i64::MAX, u32::MAX, u32::MAX),
        (i64::MIN, u32::MAX, u32::MAX),
    ] {
        let once = wrap(pos, extent, limit);
        assert_eq!(wrap(once, extent, limit), once);
        assert!(-COORD_MAX <= once && once <= COORD_MAX);
    }
}

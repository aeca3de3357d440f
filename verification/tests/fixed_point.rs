use tank_evolution::components::Position;
use tank_evolution::fixed::{
    clamp_to, div_toward_zero, isqrt, mul3_scaled, mul4_scaled, unit_share, wrap_to_half_turn, PI,
    TWO_PI,
};

#[test]
fn division_rounds_toward_zero() {
    assert_eq!(div_toward_zero(7, 2), 3);
    assert_eq!(div_toward_zero(-7, 2), -3);
    assert_eq!(div_toward_zero(-1, 1_000_000), 0);
    assert_eq!(div_toward_zero(6, 3), 2);
}

#[test]
fn clamp_limits_to_interval() {
    assert_eq!(clamp_to(5, -1, 1), 1);
    assert_eq!(clamp_to(-5, -1, 1), -1);
    assert_eq!(clamp_to(0, -1, 1), 0);
    assert_eq!(clamp_to(1 << 100, i32::MIN, i32::MAX), i32::MAX);
}

#[test]
fn integer_square_root_rounds_down() {
    assert_eq!(isqrt(0), 0);
    assert_eq!(isqrt(1), 1);
    assert_eq!(isqrt(24), 4);
    assert_eq!(isqrt(25), 5);
    assert_eq!(isqrt(26), 5);
    assert_eq!(isqrt(25_000_000_000_000), 5_000_000);
    assert_eq!(isqrt((1u128 << 126) - 1), (1u64 << 63) - 1);
}

#[test]
fn angles_wrap_into_half_open_half_turn() {
    assert_eq!(wrap_to_half_turn(0), 0);
    assert_eq!(wrap_to_half_turn(PI as i128), PI);
    assert_eq!(wrap_to_half_turn(-(PI as i128)), PI);
    assert_eq!(wrap_to_half_turn(PI as i128 + 1), -PI + 1);
    assert_eq!(wrap_to_half_turn(3 * TWO_PI as i128 + 5), 5);
    assert_eq!(wrap_to_half_turn(-2 * TWO_PI as i128 - 5), -5);
}

#[test]
fn scaled_products_divide_once() {
    // 0.5 * 5.0 * 1 s = 2.5
    assert_eq!(mul3_scaled(500_000, 5_000_000, 1_000_000), 2_500_000);
    // 1.0 * 0.5 * 5.0 / 30 s = 0.083332
    assert_eq!(mul4_scaled(1_000_000, 500_000, 5_000_000, 33_333), 83_332);
    assert_eq!(mul4_scaled(-1_000_000, 500_000, 5_000_000, 33_333), -83_332);
}

#[test]
fn distance_is_straight_line_in_three_dimensions() {
    let a = Position { x: 1_000_000, y: 2_000_000, z: 3_000_000 };
    let b = Position { x: 3_000_000, y: 5_000_000, z: 9_000_000 };
    assert_eq!(a.distance_squared(&b), 49_000_000_000_000);
    assert_eq!(a.distance(&b), 7_000_000);
    assert_eq!(b.distance(&a), 7_000_000);
    let far = Position { x: i32::MAX, y: i32::MAX, z: i32::MAX };
    let other = Position { x: i32::MIN, y: i32::MIN, z: i32::MIN };
    assert_eq!(far.distance_squared(&other), 3 * (u32::MAX as u128) * (u32::MAX as u128));
}

#[test]
fn share_of_a_component_is_taken_at_fine_resolution() {
    assert_eq!(unit_share(3, 25), 600_000);
    assert_eq!(unit_share(-4, 25), -800_000);
    assert_eq!(unit_share(1, 1), 1_000_000);
    assert_eq!(unit_share(-1, 1), -1_000_000);
    assert_eq!(unit_share(1, 2), 707_107);
    assert_eq!(unit_share(1, 3), 577_350);
    assert_eq!(unit_share(0, 7), 0);
    assert_eq!(unit_share(0, 0), 0);
    let far = u32::MAX as i64;
    let square = (far as u128) * (far as u128);
    assert_eq!(unit_share(far, square), 1_000_000);
    assert_eq!(unit_share(-far, 3 * square), -577_350);
}

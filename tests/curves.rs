use utility_ai::{invert, linear, UNIT};

#[test]
fn invert_inverts_a_value_between_zero_and_one() {
    let result = invert(900_000);
    assert_eq!(result, 100_000);
}

#[test]
fn linear_returns_a_weight_for_a_value_given_a_max() {
    let result = linear(500_000, 1_000_000);
    assert_eq!(result, 500_000);
}

#[test]
fn linear_at_its_maximum_is_one() {
    assert_eq!(linear(37, 37), UNIT as u64);
    assert_eq!(linear(u32::MAX, u32::MAX), UNIT as u64);
}

#[test]
fn linear_rounds_down_and_exceeds_one_above_the_maximum() {
    assert_eq!(linear(1, 3), 333_333);
    assert_eq!(linear(6, 3), 2_000_000);
    assert_eq!(linear(0, 5), 0);
}

#[test]
fn invert_twice_gives_the_value_back() {
    for x in [-5_000_000i64, -1, 0, 250_000, 1_000_000, 3_000_000] {
        assert_eq!(invert(invert(x)), x);
    }
    assert_eq!(invert(1_500_000), -500_000);
}

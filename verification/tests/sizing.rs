use ordered_collections::sizing::{high_root, low_root, next_power_of_two};

#[test]
fn roots_of_small_universes() {
    assert_eq!(low_root(4), 2);
    assert_eq!(high_root(4), 2);
    assert_eq!(low_root(8), 2);
    assert_eq!(high_root(8), 4);
    assert_eq!(low_root(16), 4);
    assert_eq!(high_root(16), 4);
    assert_eq!(low_root(32), 4);
    assert_eq!(high_root(32), 8);
}

#[test]
fn roots_of_the_smallest_universes() {
    assert_eq!(low_root(1), 1);
    assert_eq!(high_root(1), 1);
    assert_eq!(low_root(2), 1);
    assert_eq!(high_root(2), 2);
}

#[test]
fn roots_multiply_to_the_universe() {
    let mut universe: usize = 1;
    for _ in 0..40 {
        assert_eq!(high_root(universe) * low_root(universe), universe);
        assert!(low_root(universe) <= high_root(universe));
        universe *= 2;
    }
}

#[test]
fn roots_round_a_size_down_to_a_power_of_two() {
    assert_eq!(low_root(31), 4);
    assert_eq!(high_root(31), 4);
    assert_eq!(low_root(33), 4);
    assert_eq!(high_root(33), 8);
}

#[test]
fn rounding_up_to_a_power_of_two() {
    assert_eq!(next_power_of_two(0), 1);
    assert_eq!(next_power_of_two(1), 1);
    assert_eq!(next_power_of_two(2), 2);
    assert_eq!(next_power_of_two(3), 4);
    assert_eq!(next_power_of_two(17), 32);
    assert_eq!(next_power_of_two(32), 32);
    assert_eq!(next_power_of_two(33), 64);
}

#[test]
fn rounding_up_agrees_with_the_standard_library() {
    for n in 0..2000usize {
        assert_eq!(next_power_of_two(n), n.next_power_of_two());
    }
    let top = usize::MAX / 2 + 1;
    assert_eq!(next_power_of_two(top), top);
    assert_eq!(next_power_of_two(top - 1), top);
}

use ordered_collections::VanEmdeBoas;

fn tree_of(capacity: usize, values: &[usize]) -> VanEmdeBoas {
    let mut tree = VanEmdeBoas::new(capacity);
    for &value in values {
        tree.insert(value);
    }
    tree
}

#[test]
fn successor_same_cluster() {
    let nums = vec![1, 2];
    let mut tree = VanEmdeBoas::new(8);
    nums.iter().for_each(|&num| tree.insert(num));
    assert_eq!(nums, tree.iter().collect())
}

#[test]
fn successor_different_cluster() {
    let nums = vec![1, 4];
    let mut tree = VanEmdeBoas::new(8);
    nums.iter().for_each(|&num| tree.insert(num));
    assert_eq!(nums, tree.iter().collect())
}

#[test]
fn successor_weird() {
    let nums = vec![1, 6, 7, 8, 9, 15];
    let mut tree = VanEmdeBoas::new(16);
    nums.iter().for_each(|&num| tree.insert(num));
    assert_eq!(nums, tree.iter().collect())
}

#[test]
fn two_keys_of_one_cluster() {
    let tree = tree_of(8, &[1, 2]);
    assert_eq!(tree.iter().collect(), vec![1, 2]);
    assert_eq!(tree.successor(1), Some(2));
    assert_eq!(tree.successor(2), None);
}

#[test]
fn two_keys_of_different_clusters() {
    let tree = tree_of(8, &[1, 4]);
    assert_eq!(tree.iter().collect(), vec![1, 4]);
    assert_eq!(tree.successor(1), Some(4));
    assert_eq!(tree.successor(4), None);
}

#[test]
fn six_keys_out_of_sixteen() {
    let tree = tree_of(16, &[1, 6, 7, 8, 9, 15]);
    assert_eq!(tree.iter().collect(), vec![1, 6, 7, 8, 9, 15]);
}

#[test]
fn a_value_outside_the_universe_is_dropped() {
    let mut tree = VanEmdeBoas::new(32);
    tree.insert(40);
    assert!(!tree.contains(40));
    assert!(tree.is_empty());
    assert_eq!(tree.min(), None);
    assert_eq!(tree.max(), None);
    assert_eq!(tree.iter().collect(), Vec::<usize>::new());
}

#[test]
fn keys_come_out_sorted() {
    let tree = tree_of(32, &[0, 3, 12, 18, 25, 1, 15]);
    assert_eq!(tree.iter().collect(), vec![0, 1, 3, 12, 15, 18, 25]);
}

#[test]
fn universe_is_the_next_power_of_two() {
    assert_eq!(VanEmdeBoas::new(0).universe_size(), 1);
    assert_eq!(VanEmdeBoas::new(1).universe_size(), 1);
    assert_eq!(VanEmdeBoas::new(2).universe_size(), 2);
    assert_eq!(VanEmdeBoas::new(3).universe_size(), 4);
    assert_eq!(VanEmdeBoas::new(8).universe_size(), 8);
    assert_eq!(VanEmdeBoas::new(9).universe_size(), 16);
    assert_eq!(VanEmdeBoas::new(100).universe_size(), 128);
    assert_eq!(VanEmdeBoas::new(1000).universe_size(), 1024);
}

#[test]
fn universe_does_not_change_with_insertions() {
    let mut tree = VanEmdeBoas::new(20);
    for value in [5, 31, 32, 0, 99] {
        tree.insert(value);
        assert_eq!(tree.universe_size(), 32);
    }
}

#[test]
fn a_new_tree_is_empty() {
    let tree = VanEmdeBoas::new(64);
    assert!(tree.is_empty());
    assert_eq!(tree.min(), None);
    assert_eq!(tree.max(), None);
    assert_eq!(tree.successor(0), None);
    for value in 0..70 {
        assert!(!tree.contains(value));
    }
}

#[test]
fn bounds_are_the_extremes_in_any_order() {
    let orders: [[usize; 4]; 4] = [[3, 9, 27, 60], [60, 27, 9, 3], [27, 3, 60, 9], [9, 60, 3, 27]];
    for order in orders {
        let tree = tree_of(64, &order);
        assert_eq!(tree.min(), Some(3));
        assert_eq!(tree.max(), Some(60));
    }
}

#[test]
fn bounds_of_a_single_key_coincide() {
    let tree = tree_of(16, &[11]);
    assert_eq!(tree.min(), Some(11));
    assert_eq!(tree.max(), Some(11));
    assert!(!tree.is_empty());
}

#[test]
fn contains_exactly_what_was_inserted() {
    let values = [17, 4, 4, 63, 0, 32, 31, 17, 48];
    let tree = tree_of(64, &values);
    for value in 0..64 {
        assert_eq!(tree.contains(value), values.contains(&value), "value {}", value);
    }
    assert!(!tree.contains(64));
    assert!(!tree.contains(1000));
}

#[test]
fn contains_unchecked_agrees_inside_the_universe() {
    let values = [2, 3, 5, 7, 11, 13];
    let tree = tree_of(16, &values);
    for value in 0..16 {
        assert_eq!(tree.contains_unchecked(value), values.contains(&value));
    }
}

#[test]
fn insert_unchecked_adds_the_key() {
    let mut tree = VanEmdeBoas::new(16);
    tree.insert_unchecked(9);
    tree.insert_unchecked(2);
    tree.insert_unchecked(15);
    assert_eq!(tree.iter().collect(), vec![2, 9, 15]);
    assert!(tree.contains(9));
    assert!(!tree.contains(3));
}

#[test]
fn successor_is_the_least_larger_key() {
    let values = [40, 7, 100, 8, 127, 64, 0];
    let tree = tree_of(128, &values);
    for value in 0..140 {
        let expected = values.iter().copied().filter(|&key| key > value).min();
        assert_eq!(tree.successor(value), expected, "value {}", value);
    }
}

#[test]
fn successor_of_a_value_beyond_the_universe_is_none() {
    let tree = tree_of(4, &[1]);
    assert_eq!(tree.successor(5), None);
    assert_eq!(tree.successor(usize::MAX), None);
    assert_eq!(tree.successor(0), Some(1));
}

#[test]
fn successor_below_the_minimum_is_the_minimum() {
    let tree = tree_of(64, &[20, 50]);
    assert_eq!(tree.successor(0), Some(20));
    assert_eq!(tree.successor(19), Some(20));
    assert_eq!(tree.successor(20), Some(50));
    assert_eq!(tree.successor(50), None);
}

#[test]
fn inserting_twice_is_inserting_once() {
    let once = tree_of(32, &[9, 1, 30]);
    let twice = tree_of(32, &[9, 9, 1, 30, 1, 1, 30, 9]);
    assert_eq!(once.iter().collect(), twice.iter().collect());
    assert_eq!(once.min(), twice.min());
    assert_eq!(once.max(), twice.max());
    for value in 0..40 {
        assert_eq!(once.contains(value), twice.contains(value));
        assert_eq!(once.successor(value), twice.successor(value));
    }
}

#[test]
fn inserting_the_minimum_again_changes_nothing_seen() {
    let mut tree = tree_of(16, &[5]);
    tree.insert(5);
    tree.insert(5);
    assert_eq!(tree.iter().collect(), vec![5]);
    assert_eq!(tree.min(), Some(5));
    assert_eq!(tree.max(), Some(5));
    assert_eq!(tree.successor(5), None);
    assert_eq!(tree.successor(4), Some(5));
}

#[test]
fn out_of_range_insert_leaves_the_tree_as_it_was() {
    let mut tree = tree_of(32, &[4, 19, 31]);
    for value in [32, 33, 1000, usize::MAX] {
        tree.insert(value);
        assert!(!tree.contains(value));
        assert_eq!(tree.min(), Some(4));
        assert_eq!(tree.max(), Some(31));
        assert_eq!(tree.iter().collect(), vec![4, 19, 31]);
    }
}

#[test]
fn a_full_universe_walks_through_every_key() {
    let mut tree = VanEmdeBoas::new(64);
    for value in (0..64).rev() {
        tree.insert(value);
    }
    assert_eq!(tree.iter().collect(), (0..64).collect::<Vec<usize>>());
}

#[test]
fn universes_of_one_and_two_keys() {
    let mut one = VanEmdeBoas::new(1);
    assert!(!one.contains(0));
    one.insert(0);
    one.insert(1);
    assert!(one.contains(0));
    assert!(!one.contains(1));
    assert_eq!(one.successor(0), None);
    assert_eq!(one.iter().collect(), vec![0]);

    let mut two = VanEmdeBoas::new(2);
    two.insert(1);
    assert_eq!(two.iter().collect(), vec![1]);
    two.insert(0);
    assert_eq!(two.iter().collect(), vec![0, 1]);
    assert_eq!(two.successor(0), Some(1));
    assert_eq!(two.successor(1), None);
    assert_eq!(two.min(), Some(0));
    assert_eq!(two.max(), Some(1));
}

#[test]
fn the_walker_hands_out_one_key_at_a_time() {
    let tree = tree_of(16, &[12, 3, 7]);
    let mut walker = tree.iter();
    assert_eq!(walker.next(), Some(3));
    assert_eq!(walker.next(), Some(7));
    assert_eq!(walker.next(), Some(12));
    assert_eq!(walker.next(), None);
    assert_eq!(walker.next(), None);
}

#[test]
fn a_walk_can_be_started_again() {
    let tree = tree_of(16, &[12, 3, 7]);
    let mut first = tree.iter();
    assert_eq!(first.next(), Some(3));
    assert_eq!(tree.iter().collect(), vec![3, 7, 12]);
    assert_eq!(first.collect(), vec![7, 12]);
}

#[test]
fn a_large_universe_with_pseudo_random_keys() {
    let mut tree = VanEmdeBoas::new(4096);
    let mut expected: Vec<usize> = Vec::new();
    let mut state: usize = 12345;
    for _ in 0..300 {
        state = (state * 1103515245 + 12345) % 2147483648;
        let value = state % 5000;
        tree.insert(value);
        if value < 4096 && !expected.contains(&value) {
            expected.push(value);
        }
    }
    expected.sort();
    assert_eq!(tree.iter().collect(), expected);
    assert_eq!(tree.min(), expected.first().copied());
    assert_eq!(tree.max(), expected.last().copied());
}

#[test]
fn a_cloned_tree_is_a_tree_of_its_own() {
    let mut tree = tree_of(64, &[5, 40, 41]);
    let copy = tree.clone();
    tree.insert(7);
    assert_eq!(copy.iter().collect(), vec![5, 40, 41]);
    assert_eq!(tree.iter().collect(), vec![5, 7, 40, 41]);
    assert_eq!(copy.universe_size(), 64);
    assert_eq!(copy.min(), Some(5));
    assert_eq!(copy.max(), Some(41));
    assert_eq!(copy.successor(5), Some(40));
}

use ordered_collections::{BinomialHeap, Node};

fn drain(heap: &mut BinomialHeap) -> Vec<u64> {
    let mut keys = Vec::new();
    while let Some(key) = heap.extract_min() {
        keys.push(key);
    }
    keys
}

#[test]
fn a_new_heap_gives_nothing() {
    let mut heap = BinomialHeap::new();
    assert_eq!(heap.extract_min(), None);
    assert!(heap.extract_min_root().is_none());
}

#[test]
fn keys_come_out_smallest_first() {
    let mut heap = BinomialHeap::new();
    for key in [5, 6, 7, 3, 4, 1, 2, 8, 9] {
        heap.insert(key);
    }
    assert_eq!(drain(&mut heap), vec![1, 2, 3, 4, 5, 6, 7, 8, 9]);
}

#[test]
fn equal_keys_are_kept_apart() {
    let mut heap = BinomialHeap::new();
    for key in [4, 1, 4, 1, 4] {
        heap.insert(key);
    }
    assert_eq!(drain(&mut heap), vec![1, 1, 4, 4, 4]);
}

#[test]
fn union_moves_every_key() {
    let mut left = BinomialHeap::new();
    let mut right = BinomialHeap::new();
    for key in [10, 30, 50, 70, 90] {
        left.insert(key);
    }
    for key in [20, 40, 60, 80] {
        right.insert(key);
    }
    left.union(right);
    assert_eq!(drain(&mut left), vec![10, 20, 30, 40, 50, 60, 70, 80, 90]);
}

#[test]
fn union_with_an_empty_heap() {
    let mut left = BinomialHeap::new();
    left.union(BinomialHeap::new());
    assert_eq!(left.extract_min(), None);
    left.insert(3);
    left.union(BinomialHeap::new());
    let mut right = BinomialHeap::new();
    right.union(left);
    assert_eq!(drain(&mut right), vec![3]);
}

#[test]
fn extract_min_root_hands_out_the_tree_of_the_minimum() {
    let mut heap = BinomialHeap::new();
    for key in [8, 2, 6, 4] {
        heap.insert(key);
    }
    let root = heap.extract_min_root().unwrap();
    assert_eq!(root.key, 2);
    assert_eq!(root.degree, 2);
    assert!(root.sibling.is_none());
    assert_eq!(heap.extract_min(), None);
}

#[test]
fn inserts_between_extractions() {
    let mut heap = BinomialHeap::new();
    heap.insert(9);
    heap.insert(3);
    assert_eq!(heap.extract_min(), Some(3));
    heap.insert(1);
    heap.insert(12);
    assert_eq!(heap.extract_min(), Some(1));
    assert_eq!(heap.extract_min(), Some(9));
    heap.insert(0);
    assert_eq!(drain(&mut heap), vec![0, 12]);
}

#[test]
fn many_keys_in_pseudo_random_order() {
    let mut heap = BinomialHeap::new();
    let mut expected: Vec<u64> = Vec::new();
    let mut state: u64 = 99;
    for _ in 0..500 {
        state = (state * 6364136223846793005 % 1000003 + 1442695) % 1000003;
        heap.insert(state % 1000);
        expected.push(state % 1000);
    }
    expected.sort();
    assert_eq!(drain(&mut heap), expected);
}

#[test]
fn a_wrapped_node_stands_alone() {
    let node = Node::wrapped(7);
    assert_eq!(node.key, 7);
    assert_eq!(node.degree, 0);
    assert!(node.sibling.is_none());
    assert!(node.child.is_none());
    assert_eq!(node.sibling_count(), 1);
}

#[test]
fn wrap_keeps_the_node() {
    let node = Node { key: 3, degree: 0, sibling: None, child: None }.wrap();
    assert_eq!(node.key, 3);
    assert_eq!(node.degree, 0);
}

#[test]
fn link_puts_the_new_child_first() {
    let mut parent = Node::wrapped(1);
    Node::link(&mut parent, Node::wrapped(5));
    Node::link(&mut parent, Node::wrapped(3));
    assert_eq!(parent.key, 1);
    assert_eq!(parent.degree, 2);
    let first = parent.child.as_ref().unwrap();
    assert_eq!(first.key, 3);
    let second = first.sibling.as_ref().unwrap();
    assert_eq!(second.key, 5);
    assert!(second.sibling.is_none());
    assert_eq!(first.sibling_count(), 2);
    assert_eq!(second.sibling_count(), 1);
}

#[test]
fn siblings_walks_the_chain() {
    let mut parent = Node::wrapped(0);
    for key in [10, 20, 30] {
        Node::link(&mut parent, Node::wrapped(key));
    }
    let first = parent.child.as_ref().unwrap();
    let mut walk = first.siblings();
    let mut keys = Vec::new();
    while let Some(node) = walk.next() {
        keys.push(node.key);
    }
    assert_eq!(keys, vec![30, 20, 10]);
    assert!(walk.next().is_none());
}

#[test]
fn decrease_key_lets_a_key_come_out_earlier() {
    let mut heap = BinomialHeap::new();
    for key in [5, 6, 7, 3, 4, 1, 2, 8, 9] {
        heap.insert(key);
    }
    assert_eq!(heap.extract_min(), Some(1));
    heap.decrease_key(8, 1);
    assert_eq!(drain(&mut heap), vec![1, 2, 3, 4, 5, 6, 7, 9]);
}

#[test]
fn decrease_key_moves_the_key_to_the_root() {
    let mut heap = BinomialHeap::new();
    for key in [10, 20, 30, 40, 50, 60, 70, 80] {
        heap.insert(key);
    }
    heap.decrease_key(80, 5);
    let root = heap.extract_min_root().unwrap();
    assert_eq!(root.key, 5);
    assert_eq!(root.degree, 3);
}

#[test]
fn decrease_key_of_an_absent_key_changes_nothing() {
    let mut heap = BinomialHeap::new();
    for key in [4, 2, 6] {
        heap.insert(key);
    }
    heap.decrease_key(5, 1);
    assert_eq!(drain(&mut heap), vec![2, 4, 6]);
    heap.decrease_key(5, 1);
    assert_eq!(heap.extract_min(), None);
}

#[test]
fn decrease_key_lowers_one_of_several_equal_keys() {
    let mut heap = BinomialHeap::new();
    for key in [7, 7, 7, 3] {
        heap.insert(key);
    }
    heap.decrease_key(7, 0);
    assert_eq!(drain(&mut heap), vec![0, 3, 7, 7]);
}

#[test]
fn decrease_key_many_times() {
    let mut heap = BinomialHeap::new();
    for key in 100..164u64 {
        heap.insert(key);
    }
    for key in 132..164u64 {
        heap.decrease_key(key, key - 100);
    }
    let mut expected: Vec<u64> = (32..64).collect();
    expected.extend(100..132u64);
    assert_eq!(drain(&mut heap), expected);
}

#[test]
fn roots_have_growing_degrees() {
    let mut heap = BinomialHeap::new();
    for key in 0..13u64 {
        heap.insert(key);
    }
    let mut roots = heap.roots();
    let mut degrees = Vec::new();
    while let Some(root) = roots.next() {
        degrees.push(root.degree);
    }
    assert_eq!(degrees, vec![0, 2, 3]);
}

#[test]
fn roots_of_an_empty_heap() {
    let heap = BinomialHeap::new();
    assert!(heap.roots().next().is_none());
}

#[test]
fn nodes_compare_by_degree() {
    let mut two_children = Node::wrapped(1);
    Node::link(&mut two_children, Node::wrapped(5));
    Node::link(&mut two_children, Node::wrapped(3));
    let mut one_child = Node::wrapped(100);
    Node::link(&mut one_child, Node::wrapped(200));
    let leaf = Node::wrapped(0);
    let other_leaf = Node::wrapped(9);
    assert!(*leaf == *other_leaf);
    assert!(*leaf != *one_child);
    assert!(*leaf < *one_child);
    assert!(*one_child < *two_children);
    assert!(*two_children > *leaf);
    assert!(*leaf <= *other_leaf);
    assert_eq!(leaf.partial_cmp(&one_child), Some(std::cmp::Ordering::Less));
    assert_eq!(leaf.partial_cmp(&other_leaf), Some(std::cmp::Ordering::Equal));
    assert_eq!(two_children.partial_cmp(&one_child), Some(std::cmp::Ordering::Greater));
}

#[test]
fn a_default_heap_is_empty() {
    let mut heap = BinomialHeap::default();
    assert_eq!(heap.extract_min(), None);
    heap.insert(4);
    assert_eq!(heap.extract_min(), Some(4));
}

#[test]
fn a_cloned_heap_is_a_heap_of_its_own() {
    let mut heap = BinomialHeap::new();
    for key in [3, 1, 2] {
        heap.insert(key);
    }
    let mut copy = heap.clone();
    assert_eq!(copy.extract_min(), Some(1));
    assert_eq!(drain(&mut heap), vec![1, 2, 3]);
    assert_eq!(drain(&mut copy), vec![2, 3]);
}

#[test]
fn a_cloned_node_takes_its_chain_along() {
    let mut parent = Node::wrapped(1);
    Node::link(&mut parent, Node::wrapped(5));
    Node::link(&mut parent, Node::wrapped(3));
    let copy = parent.clone();
    assert_eq!(copy.key, 1);
    assert_eq!(copy.degree, 2);
    let first = copy.child.as_ref().unwrap();
    assert_eq!(first.key, 3);
    assert_eq!(first.sibling.as_ref().unwrap().key, 5);
    let walk = first.siblings();
    let mut again = walk.clone();
    assert_eq!(again.next().unwrap().key, 3);
    assert_eq!(again.next().unwrap().key, 5);
    assert!(again.next().is_none());
}

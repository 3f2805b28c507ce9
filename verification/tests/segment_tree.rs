use arenas::arena::{Arena, Id};
use arenas::complete_tree::SegmentTreeWithEphemeralId;
use arenas::node_path::NodePath;
use arenas::nodes::{CompleteBinaryTreeNode, PhysicalIdBinaryTreeNode};
use arenas::sparse_tree::SegmentTreeWithRealId;

fn naive_range_sum(values: &[u64], lower: usize, upper: usize) -> u64 {
    values[lower..=upper].iter().sum()
}

#[test]
fn arena_allocate_and_get() {
    let mut arena: Arena<u64> = Arena::new();
    assert_eq!(arena.len(), 0);
    let a = arena.allocate(10);
    let b = arena.allocate(20);
    assert_eq!(arena.len(), 2);
    assert_eq!(*arena.get(&a), 10);
    assert_eq!(*arena.get(&b), 20);
    *arena.get_mut(&a) = 33;
    assert_eq!(*arena.get(&a), 33);
    assert_eq!(*arena.get(&b), 20);
}

#[test]
fn arena_with_capacity_behaves_like_new() {
    let mut arena: Arena<u64> = Arena::with_capacity(16);
    assert_eq!(arena.len(), 0);
    let a = arena.allocate(7);
    assert_eq!(*arena.get(&a), 7);
}

#[test]
fn id_is_one_based() {
    assert_eq!(Id::from_array_index(0).value(), 1);
    assert_eq!(Id::from_array_index(41).value(), 42);
}

#[test]
fn complete_node_holds_value() {
    let node = CompleteBinaryTreeNode::new(&9);
    assert_eq!(node.data, 9);
    let pad: CompleteBinaryTreeNode = Default::default();
    assert_eq!(pad.data, 0);
}

#[test]
fn sparse_leaf_has_no_children() {
    let node = PhysicalIdBinaryTreeNode::leaf(&5);
    assert_eq!(node.data, 5);
    assert!(node.is_leaf());
    let inner = PhysicalIdBinaryTreeNode {
        data: 8,
        left: Some(Id::from_array_index(0)),
        right: None,
    };
    assert!(!inner.is_leaf());
}

#[test]
fn node_path_starts_at_given_node() {
    let _path = NodePath::from_index(5, Id::from_array_index(12), 4);
}

#[test]
fn scenario_nine_elements_complete() {
    let mut tree = SegmentTreeWithEphemeralId::new(vec![1, 2, 3, 4, 5, 6, 7, 8, 9]);
    assert_eq!(tree.range_sum(0, 1), 3);
    assert_eq!(tree.range_sum(0, 2), 6);
    assert_eq!(tree.range_sum(7, 8), 17);
    tree.setitem(3, &7);
    assert_eq!(tree.range_sum(2, 5), 21);
}

#[test]
fn scenario_nine_elements_sparse() {
    let mut tree = SegmentTreeWithRealId::new(vec![1, 2, 3, 4, 5, 6, 7, 8, 9]);
    assert_eq!(tree.range_sum(0, 1), 3);
    assert_eq!(tree.range_sum(0, 2), 6);
    assert_eq!(tree.range_sum(7, 8), 17);
    tree.setitem(3, &7);
    assert_eq!(tree.range_sum(2, 5), 21);
}

#[test]
fn scenario_thirty_three_elements_complete() {
    let values: Vec<u64> = (1..=33).collect();
    let mut tree = SegmentTreeWithEphemeralId::new(values);
    tree.setitem(5, &71);
    tree.setitem(9, &3);
    assert_eq!(tree.range_sum(3, 19), 262);
}

#[test]
fn scenario_thirty_three_elements_sparse() {
    let values: Vec<u64> = (1..=33).collect();
    let mut tree = SegmentTreeWithRealId::new(values);
    tree.setitem(5, &71);
    tree.setitem(9, &3);
    assert_eq!(tree.range_sum(3, 19), 262);
}

#[test]
fn single_leaf_tree() {
    let mut complete = SegmentTreeWithEphemeralId::new(vec![5]);
    assert_eq!(complete.range_sum(0, 0), 5);
    complete.setitem(0, &9);
    assert_eq!(complete.range_sum(0, 0), 9);

    let mut sparse = SegmentTreeWithRealId::new(vec![5]);
    assert_eq!(sparse.range_sum(0, 0), 5);
    sparse.setitem(0, &9);
    assert_eq!(sparse.range_sum(0, 0), 9);
}

#[test]
fn two_leaf_tree() {
    let mut complete = SegmentTreeWithEphemeralId::new(vec![2, 3]);
    assert_eq!(complete.range_sum(0, 0), 2);
    assert_eq!(complete.range_sum(1, 1), 3);
    assert_eq!(complete.range_sum(0, 1), 5);
    complete.setitem(1, &10);
    assert_eq!(complete.range_sum(0, 1), 12);

    let mut sparse = SegmentTreeWithRealId::new(vec![2, 3]);
    assert_eq!(sparse.range_sum(0, 0), 2);
    assert_eq!(sparse.range_sum(1, 1), 3);
    assert_eq!(sparse.range_sum(0, 1), 5);
    sparse.setitem(1, &10);
    assert_eq!(sparse.range_sum(0, 1), 12);
}

#[test]
fn non_power_of_two_round_trip() {
    let values: Vec<u64> = vec![4, 0, 11, 7, 2, 9];
    let complete = SegmentTreeWithEphemeralId::new(values.clone());
    let sparse = SegmentTreeWithRealId::new(values.clone());
    for i in 0..values.len() {
        assert_eq!(complete.range_sum(i, i), values[i]);
        assert_eq!(sparse.range_sum(i, i), values[i]);
    }
    assert_eq!(complete.range_sum(0, 5), 33);
    assert_eq!(sparse.range_sum(0, 5), 33);
    assert_eq!(complete.range_sum(0, 0), 4);
    assert_eq!(complete.range_sum(5, 5), 9);
    assert_eq!(sparse.range_sum(0, 0), 4);
    assert_eq!(sparse.range_sum(5, 5), 9);
}

#[test]
fn every_range_matches_naive_sum() {
    let values: Vec<u64> = vec![13, 1, 0, 8, 21, 3, 5, 2, 34, 1, 9];
    let complete = SegmentTreeWithEphemeralId::new(values.clone());
    let sparse = SegmentTreeWithRealId::new(values.clone());
    for lower in 0..values.len() {
        for upper in lower..values.len() {
            let expected = naive_range_sum(&values, lower, upper);
            assert_eq!(complete.range_sum(lower, upper), expected);
            assert_eq!(sparse.range_sum(lower, upper), expected);
        }
    }
}

#[test]
fn build_is_idempotent() {
    let values: Vec<u64> = vec![6, 6, 1, 0, 44, 3, 17];
    let first = SegmentTreeWithEphemeralId::new(values.clone());
    let second = SegmentTreeWithEphemeralId::new(values.clone());
    let linked = SegmentTreeWithRealId::new(values.clone());
    for lower in 0..values.len() {
        for upper in lower..values.len() {
            assert_eq!(first.range_sum(lower, upper), second.range_sum(lower, upper));
            assert_eq!(first.range_sum(lower, upper), linked.range_sum(lower, upper));
        }
    }
}

#[test]
fn update_touches_only_covering_ranges() {
    let values: Vec<u64> = vec![3, 1, 4, 1, 5, 9, 2];
    let mut complete = SegmentTreeWithEphemeralId::new(values.clone());
    let mut sparse = SegmentTreeWithRealId::new(values.clone());
    let before_left = complete.range_sum(0, 2);
    let before_right = complete.range_sum(4, 6);
    let before_covering = complete.range_sum(2, 4);
    complete.setitem(3, &100);
    sparse.setitem(3, &100);
    assert_eq!(complete.range_sum(0, 2), before_left);
    assert_eq!(complete.range_sum(4, 6), before_right);
    assert_eq!(complete.range_sum(2, 4), before_covering + 100 - 1);
    assert_eq!(sparse.range_sum(0, 2), before_left);
    assert_eq!(sparse.range_sum(4, 6), before_right);
    assert_eq!(sparse.range_sum(2, 4), before_covering + 100 - 1);
}

#[test]
fn repeated_updates_settle() {
    let mut tree = SegmentTreeWithEphemeralId::new(vec![0, 0, 0, 0, 0]);
    for i in 0..5 {
        tree.setitem(i, &((i as u64) + 1));
    }
    assert_eq!(tree.range_sum(0, 4), 15);
    tree.setitem(2, &0);
    assert_eq!(tree.range_sum(0, 4), 12);
    assert_eq!(tree.range_sum(2, 2), 0);
}

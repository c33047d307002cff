use treemath::treemath::{
    common_ancestor, copath, dirpath, dirpath_long, dirpath_root, left, level, log2, node_width,
    parent, parent_step, pow2, right, root, sibling,
};

#[test]
fn log2_values() {
    assert_eq!(log2(0), 0);
    assert_eq!(log2(1), 0);
    assert_eq!(log2(2), 1);
    assert_eq!(log2(3), 1);
    assert_eq!(log2(7), 2);
    assert_eq!(log2(8), 3);
    assert_eq!(log2(1023), 9);
    assert_eq!(log2(1024), 10);
}

#[test]
fn pow2_values() {
    assert_eq!(pow2(0), 1);
    assert_eq!(pow2(1), 2);
    assert_eq!(pow2(2), 4);
    assert_eq!(pow2(10), 1024);
    assert_eq!(pow2(32), 1usize << 32);
}

#[test]
fn level_values() {
    assert_eq!(level(0), 0);
    assert_eq!(level(1), 1);
    assert_eq!(level(2), 0);
    assert_eq!(level(3), 2);
    assert_eq!(level(4), 0);
    assert_eq!(level(5), 1);
    assert_eq!(level(7), 3);
    assert_eq!(level(11), 2);
}

#[test]
fn node_width_values() {
    assert_eq!(node_width(1), 1);
    assert_eq!(node_width(2), 3);
    assert_eq!(node_width(3), 5);
    assert_eq!(node_width(4), 7);
}

#[test]
fn parent_step_values() {
    assert_eq!(parent_step(0), 1);
    assert_eq!(parent_step(1), 3);
    assert_eq!(parent_step(2), 1);
    assert_eq!(parent_step(3), 7);
    assert_eq!(parent_step(4), 5);
    assert_eq!(parent_step(5), 3);
    assert_eq!(parent_step(6), 5);
}

#[test]
fn single_leaf_is_its_own_root() {
    assert_eq!(root(1), 0);
}

#[test]
fn two_leaf_tree() {
    assert_eq!(node_width(2), 3);
    assert_eq!(root(2), 1);
    assert_eq!(left(1), 0);
    assert_eq!(right(1, 2), 2);
    assert_eq!(parent(0, 2), 1);
    assert_eq!(parent(2, 2), 1);
    assert_eq!(sibling(0, 2), 2);
    assert_eq!(sibling(2, 2), 0);
}

#[test]
fn three_leaf_unbalanced_tree() {
    assert_eq!(node_width(3), 5);
    assert_eq!(root(3), 3);
    assert_eq!(left(3), 1);
    assert_eq!(right(3, 3), 4);
    assert_eq!(parent(0, 3), 1);
    assert_eq!(parent(2, 3), 1);
    assert_eq!(parent(1, 3), 3);
    assert_eq!(parent(4, 3), 3);
    assert_eq!(sibling(1, 3), 4);
    assert_eq!(sibling(4, 3), 1);
}

#[test]
fn dirpath_values() {
    assert_eq!(dirpath(0, 4), vec![1]);
    assert_eq!(dirpath(6, 4), vec![5]);
    assert_eq!(dirpath(3, 4), Vec::<usize>::new());
    assert_eq!(dirpath(0, 8), vec![1, 3]);
    assert_eq!(dirpath(7, 8), Vec::<usize>::new());
    assert_eq!(dirpath(0, 3), vec![1]);
    assert_eq!(dirpath(4, 3), Vec::<usize>::new());
}

#[test]
fn dirpath_root_values() {
    assert_eq!(dirpath_root(0, 8), vec![1, 3, 7]);
    assert_eq!(dirpath_root(7, 8), vec![7]);
    assert_eq!(dirpath_root(4, 3), vec![3]);
}

#[test]
fn dirpath_long_values() {
    assert_eq!(dirpath_long(0, 8), vec![0, 1, 3, 7]);
    assert_eq!(dirpath_long(7, 8), vec![7]);
    assert_eq!(dirpath_long(4, 3), vec![4, 3]);
}

#[test]
fn copath_values() {
    assert_eq!(copath(0, 8), vec![2, 5, 11]);
    assert_eq!(copath(4, 3), vec![1]);
    assert_eq!(copath(2, 3), vec![0, 4]);
}

#[test]
fn common_ancestor_values() {
    assert_eq!(common_ancestor(0, 2), 1);
    assert_eq!(common_ancestor(2, 0), 1);
    assert_eq!(common_ancestor(0, 6), 3);
    assert_eq!(common_ancestor(2, 4), 3);
    assert_eq!(common_ancestor(8, 10), 9);
}

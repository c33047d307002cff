use treemath::treemath::{
    dirpath, left, log2, node_width, parent, right, root, sibling,
};

#[test]
fn root_is_parent_fixed_point() {
    for size in 1usize..=16 {
        let r = root(size);
        assert_eq!(parent(r, size), r);
    }
}

#[test]
fn sibling_is_an_involution() {
    for size in 1usize..=16 {
        let w = node_width(size);
        let r = root(size);
        for index in 0..w {
            if index != r {
                assert_eq!(sibling(sibling(index, size), size), index);
            }
        }
    }
}

#[test]
fn leaves_are_their_own_children() {
    for size in 1usize..=16 {
        let w = node_width(size);
        for index in (0..w).step_by(2) {
            assert_eq!(left(index), index);
            assert_eq!(right(index, size), index);
        }
    }
}

#[test]
fn dirpath_length_is_bounded_by_height() {
    for size in 1usize..=16 {
        let w = node_width(size);
        for index in 0..w {
            assert!(dirpath(index, size).len() <= log2(w));
        }
    }
}

#[test]
fn matches_reference_vector() {
    // Reference vector for a tree with four leaves (array width 7),
    // together with the expected roots for all smaller rosters.
    let size: usize = 4;
    let expected_root: Vec<usize> = vec![0, 1, 3, 3];
    let expected_left: Vec<usize> = vec![0, 0, 2, 1, 4, 4, 6];
    let expected_right: Vec<usize> = vec![0, 2, 2, 5, 4, 6, 6];
    let expected_parent: Vec<usize> = vec![1, 3, 1, 3, 5, 3, 5];
    let expected_sibling: Vec<usize> = vec![2, 5, 0, 3, 6, 1, 4];

    for (i, r) in expected_root.iter().enumerate() {
        assert_eq!(root(i + 1), *r);
    }
    for (i, l) in expected_left.iter().enumerate() {
        assert_eq!(left(i), *l);
    }
    for (i, r) in expected_right.iter().enumerate() {
        assert_eq!(right(i, size), *r);
    }
    for (i, p) in expected_parent.iter().enumerate() {
        assert_eq!(parent(i, size), *p);
    }
    for (i, s) in expected_sibling.iter().enumerate() {
        assert_eq!(sibling(i, size), *s);
    }
}

#[test]
fn roots_of_growing_rosters() {
    let expected: Vec<usize> = vec![0, 1, 3, 3, 7, 7, 7, 7, 15];
    for (i, r) in expected.iter().enumerate() {
        assert_eq!(root(i + 1), *r);
    }
}

//! Index arithmetic for a left-balanced binary tree stored in a flat array.
//!
//! A tree with `n` leaves occupies `2n - 1` array slots: leaves sit at even
//! indices in left-to-right order, internal nodes at odd indices.  Every
//! operation here is a pure function from indices to indices; the array
//! itself is owned by the caller.
//!
//! * [`model`] defines the mathematical meaning of each operation over `nat`.
//! * [`treemath`] holds the executable functions, each proved to compute
//!   its model counterpart.
//! * [`laws`] states and proves the structural theorems that tie the
//!   operations together (root/parent fixed point, sibling involution,
//!   leaf fixed points, path length bound).

pub mod laws;
pub mod model;
pub mod treemath;

//! Structural theorems about the model: the root/parent fixed point,
//! the leaf fixed points, the bound on direct-path length, and the
//! sibling involution.

use crate::model;
use vstd::arithmetic::power2::{lemma2_to64, lemma_pow2_pos, lemma_pow2_unfold};
use vstd::prelude::*;

verus! {

/// The root is a fixed point of `parent`: asking for the parent of the
/// root of any tree yields the root again.
pub proof fn lemma_root_parent_fixed_point(size: nat)
    requires
        1 <= size,
    ensures
        model::parent(model::root(size), size) == model::root(size),
{
}

/// Leaves are their own children: both child operations fix every even
/// index.
pub proof fn lemma_leaf_self_children(index: nat, size: nat)
    requires
        1 <= size,
        index % 2 == 0,
    ensures
        model::left(index) == index,
        model::right(index, size) == index,
{
}

/// Along a descent through left children, the index always stays at
/// `base + 2^level`, so it ends strictly above `base`; when `base + 1`
/// is a valid index the descent also ends inside the array.
proof fn lemma_left_clamp_above(r: nat, w: nat, base: nat)
    requires
        r == base + model::pow2(model::level(r)),
    ensures
        model::left_clamp(r, w) > base,
        model::left_clamp(r, w) == base + model::pow2(model::level(model::left_clamp(r, w))),
        model::level(model::left_clamp(r, w)) <= model::level(r),
        base + 1 < w ==> model::left_clamp(r, w) < w,
    decreases r,
{
    let k = model::level(r);
    lemma_pow2_pos(k);
    if r < w || k == 0 {
        if k == 0 {
            lemma2_to64();
        }
    } else {
        model::lemma_left_level(r);
        lemma_pow2_unfold(k);
        lemma_left_clamp_above(model::left(r), w, base);
    }
}

/// Climbing from a rejected right-child candidate whose leftmost leaf
/// is valid: the climb lands inside the array, strictly higher, and
/// the left-descent from the candidate is exactly the landing node's
/// clamped right child.
proof fn lemma_spine_right(z: nat, n: nat)
    requires
        1 <= n,
        model::node_width(n) <= z,
        z < model::pow2(model::log2(model::node_width(n)) + 1) - 1,
        z + 1 < model::node_width(n) + model::pow2(model::level(z)),
    ensures
        ({
            let w = model::node_width(n);
            let p = model::parent_clamp(z, w);
            &&& p < w
            &&& model::level(p) > model::level(z)
            &&& 1 <= model::level(p)
            &&& model::left_clamp(z, w) == model::right(p, n)
        }),
    decreases model::log2(model::node_width(n)) + 1 - model::level(z),
{
    let w = model::node_width(n);
    let ll = model::log2(w);
    let k = model::level(z);
    model::lemma_root_props(n);
    model::lemma_level_window(z, ll);
    assert(k < ll);
    if k == 0 {
        lemma2_to64();
        assert(false);
    }
    model::lemma_parent_step_level(z);
    model::lemma_parent_step_window(z, ll);
    let z1 = model::parent_step(z);
    lemma_pow2_pos(k);
    lemma_pow2_pos(k + 1);
    lemma_pow2_unfold(k + 1);
    if (z / model::pow2(k + 1)) % 2 != 0 {
        assert(z1 == z - model::pow2(k));
        assert(z1 < w);
        assert(model::parent_clamp(z, w) == model::parent_clamp(z1, w));
        assert(model::parent_clamp(z1, w) == z1);
        model::lemma_parent_step_level(z1);
        assert(model::level(z1) == k + 1);
        assert(model::right(z1, n) == model::left_clamp(z1 + model::pow2(k), w));
        assert(z1 + model::pow2(k) == z);
    } else {
        assert(z1 == z + model::pow2(k));
        assert(z1 > z);
        model::lemma_left_level(z1);
        assert(model::left(z1) == z);
        lemma_spine_right(z1, n);
        assert(model::parent_clamp(z, w) == model::parent_clamp(z1, w));
        assert(model::left_clamp(z1, w) == model::left_clamp(z, w));
    }
}

/// Descending through left children from a rejected candidate and then
/// climbing back up rejoins the climb from the candidate itself.
proof fn lemma_spine_parent(z: nat, n: nat)
    requires
        1 <= n,
        model::node_width(n) <= z,
        z < model::pow2(model::log2(model::node_width(n)) + 1) - 1,
        z + 1 < model::node_width(n) + model::pow2(model::level(z)),
    ensures
        ({
            let w = model::node_width(n);
            let r = model::left_clamp(z, w);
            &&& r < w
            &&& model::parent_clamp(model::parent_step(r), w) == model::parent_clamp(z, w)
        }),
    decreases z,
{
    let w = model::node_width(n);
    let ll = model::log2(w);
    let k = model::level(z);
    model::lemma_root_props(n);
    model::lemma_level_window(z, ll);
    assert(k < ll);
    if k == 0 {
        lemma2_to64();
        assert(false);
    }
    model::lemma_left_level(z);
    lemma_pow2_pos(k);
    lemma_pow2_pos((k - 1) as nat);
    lemma_pow2_unfold(k);
    let zl = model::left(z);
    if zl < w {
        assert(model::left_clamp(z, w) == model::left_clamp(zl, w));
        assert(model::left_clamp(zl, w) == zl);
        assert(model::parent_step(zl) == z);
    } else {
        model::lemma_level_window(zl, ll);
        lemma_spine_parent(zl, n);
        assert(model::left_clamp(z, w) == model::left_clamp(zl, w));
        assert(model::parent_clamp(zl, w) == model::parent_clamp(z, w));
    }
}

/// A valid non-root index is exactly one of the two children of its
/// parent: the left child when it is below the parent, the clamped
/// right child when it is above.
proof fn lemma_parent_child(x: nat, n: nat)
    requires
        1 <= n,
        x < model::node_width(n),
        x != model::root(n),
    ensures
        ({
            let p = model::parent(x, n);
            &&& 1 <= model::level(p)
            &&& x != p
            &&& (x < p ==> x == model::left(p))
            &&& (x > p ==> x == model::right(p, n))
        }),
{
    let w = model::node_width(n);
    let ll = model::log2(w);
    let k = model::level(x);
    model::lemma_root_props(n);
    model::lemma_log2_bounds(w);
    model::lemma_level_window(x, ll);
    assert(k < ll);
    model::lemma_parent_step_level(x);
    model::lemma_parent_step_window(x, ll);
    let z0 = model::parent_step(x);
    lemma_pow2_pos(k);
    lemma_pow2_unfold(k + 1);
    let p = model::parent(x, n);
    assert(p == model::parent_clamp(z0, w));
    if z0 < w {
        assert(p == z0);
        if (x / model::pow2(k + 1)) % 2 == 0 {
            assert(z0 == x + model::pow2(k));
            model::lemma_left_level(z0);
            assert(model::left(p) == x);
        } else {
            assert(z0 == x - model::pow2(k));
            assert(x > p);
            model::lemma_parent_step_level(z0);
            assert(model::right(p, n) == model::left_clamp(p + model::pow2(k), w));
            assert(p + model::pow2(k) == x);
            assert(model::left_clamp(x, w) == x);
        }
    } else {
        assert((x / model::pow2(k + 1)) % 2 == 0);
        assert(z0 == x + model::pow2(k));
        model::lemma_left_level(z0);
        assert(model::left(z0) == x);
        lemma_spine_right(z0, n);
        assert(p < w);
        assert(1 <= model::level(p));
        assert(model::left_clamp(z0, w) == model::right(p, n));
        assert(model::left_clamp(z0, w) == model::left_clamp(x, w));
        assert(model::left_clamp(x, w) == x);
        assert(x == model::right(p, n));
        lemma_pow2_pos((model::level(p) - 1) as nat);
        model::lemma_right_candidate(p, ll);
        lemma_left_clamp_above(
            (p + model::pow2((model::level(p) - 1) as nat)) as nat,
            w,
            p,
        );
        assert(x > p);
    }
}

/// Both children of a valid internal node are valid non-root indices,
/// sit on the expected sides, and name that node as their parent.
proof fn lemma_child_parent(p: nat, n: nat)
    requires
        1 <= n,
        p < model::node_width(n),
        1 <= model::level(p),
    ensures
        model::left(p) < p,
        model::parent(model::left(p), n) == p,
        model::right(p, n) > p,
        model::right(p, n) < model::node_width(n),
        model::parent(model::right(p, n), n) == p,
{
    let w = model::node_width(n);
    let ll = model::log2(w);
    let k = model::level(p);
    model::lemma_root_props(n);
    model::lemma_log2_bounds(w);
    model::lemma_level_window(p, ll);
    model::lemma_left_level(p);
    lemma_pow2_pos((k - 1) as nat);
    lemma_pow2_unfold(k);
    let lp = model::left(p);
    assert(lp != model::root(n));
    assert(model::parent(lp, n) == model::parent_clamp(p, w));
    assert(model::parent_clamp(p, w) == p);
    model::lemma_right_candidate(p, ll);
    let c = (p + model::pow2((k - 1) as nat)) as nat;
    assert(p % 2 == 1);
    assert(w % 2 == 1);
    assert(p + 1 < w);
    lemma_left_clamp_above(c, w, p);
    let r = model::right(p, n);
    assert(r == model::left_clamp(c, w));
    assert(r > p);
    assert(r < w);
    assert(model::level(r) <= k - 1);
    assert(r != model::root(n));
    if c < w {
        assert(r == c);
        assert(model::parent_step(c) == p);
        assert(model::parent(r, n) == model::parent_clamp(p, w));
    } else {
        model::lemma_level_window(c, ll);
        lemma_spine_parent(c, n);
        assert(model::parent_clamp(model::parent_step(r), w) == model::parent_clamp(c, w));
        assert(model::parent_clamp(c, w) == model::parent_clamp(model::parent_step(c), w));
        assert(model::parent_step(c) == p);
        assert(model::parent(r, n) == model::parent_clamp(model::parent_step(r), w));
    }
}

/// Taking the sibling twice leads back to the starting index, for any
/// valid index other than the root.
pub proof fn lemma_sibling_involution(index: nat, size: nat)
    requires
        1 <= size,
        index < model::node_width(size),
        index != model::root(size),
    ensures
        model::sibling(model::sibling(index, size), size) == index,
{
    let p = model::parent(index, size);
    model::lemma_parent_props(index, size);
    lemma_parent_child(index, size);
    lemma_child_parent(p, size);
    let s = model::sibling(index, size);
    if index < p {
        assert(s == model::right(p, size));
        assert(model::parent(s, size) == p);
        assert(s > p);
        assert(model::sibling(s, size) == model::left(p));
        assert(index == model::left(p));
    } else {
        assert(index > p);
        assert(s == model::left(p));
        assert(model::parent(s, size) == p);
        assert(s < p);
        assert(model::sibling(s, size) == model::right(p, size));
        assert(index == model::right(p, size));
    }
}

/// The direct path can never be longer than the height of the tree:
/// its length is bounded by `log2(node_width(size))`.
pub proof fn lemma_dirpath_length_bound(index: nat, size: nat)
    requires
        1 <= size,
        index < model::node_width(size),
    ensures
        model::dirpath(index, size).len() <= model::log2(model::node_width(size)),
{
    lemma_dirpath_len_aux(index, size);
}

/// Each step of a direct path climbs at least one level, so the path
/// length plus the starting level stays below the tree height.
proof fn lemma_dirpath_len_aux(x: nat, n: nat)
    requires
        1 <= n,
        x < model::node_width(n),
    ensures
        model::dirpath(x, n).len() + model::level(x) <= model::log2(model::node_width(n)),
    decreases model::log2(model::node_width(n)) + 1 - model::level(x),
{
    let w = model::node_width(n);
    let ll = model::log2(w);
    model::lemma_root_props(n);
    model::lemma_log2_bounds(w);
    model::lemma_level_window(x, ll);
    if model::parent(x, n) != model::root(n) {
        assert(x != model::root(n));
        model::lemma_parent_props(x, n);
        lemma_dirpath_len_aux(model::parent(x, n), n);
    }
}

} // verus!

//! Executable tree navigation, proved against the model.

use crate::model;
use vstd::arithmetic::power2::{
    lemma2_to64, lemma_pow2_pos, lemma_pow2_strictly_increases, lemma_pow2_unfold,
};
use vstd::arithmetic::div_mod::{
    lemma_div_basics, lemma_div_denominator, lemma_div_is_ordered_by_denominator,
    lemma_fundamental_div_mod, lemma_mod_multiples_basic,
};
use vstd::arithmetic::mul::lemma_mul_inequality;
use vstd::prelude::*;

verus! {

/// Number of leaves (group members) in the tree; meaningful for values
/// of at least 1.
pub type RosterIndex = usize;

/// Position in the flat array of `2 * size - 1` slots.
pub type TreeIndex = usize;

/// View of a vector of indices as the sequence of naturals it denotes.
pub open spec fn to_nats(s: Seq<usize>) -> Seq<nat> {
    s.map_values(|t: usize| t as nat)
}

/// Number of array slots needed for a tree with `n` leaves.
pub fn node_width(n: usize) -> (r: usize)
    requires
        1 <= n,
        2 * n - 1 <= usize::MAX,
    ensures
        r == model::node_width(n as nat),
{
    2 * (n - 1) + 1
}

/// Floor of the base-2 logarithm; returns 0 for an input of 0.
pub fn log2(x: usize) -> (r: usize)
    ensures
        r == model::log2(x as nat),
{
    if x == 0 {
        return 0;
    }
    proof {
        lemma2_to64();
        assert(model::pow2(0) * (x as nat) <= x as nat) by (nonlinear_arith)
            requires
                model::pow2(0) == 1,
        {}
    }
    let mut v: usize = x;
    let mut k: usize = 0;
    while v >= 2
        invariant
            1 <= v <= x,
            model::log2(x as nat) == k + model::log2(v as nat),
            model::pow2(k as nat) * (v as nat) <= x as nat,
        decreases v,
    {
        proof {
            lemma_fundamental_div_mod(v as int, 2);
            lemma_pow2_unfold(k as nat + 1);
            assert(model::pow2(k as nat + 1) * ((v / 2) as nat) <= x as nat)
                by (nonlinear_arith)
                requires
                    model::pow2(k as nat + 1) == 2 * model::pow2(k as nat),
                    2 * ((v / 2) as nat) <= v as nat,
                    model::pow2(k as nat) * (v as nat) <= x as nat,
            {}
            model::lemma_pow2_above(k as nat);
            assert(model::pow2(k as nat) <= x as nat) by (nonlinear_arith)
                requires
                    model::pow2(k as nat) * (v as nat) <= x as nat,
                    v >= 1,
                    model::pow2(k as nat) >= 0,
            {}
        }
        v = v / 2;
        k = k + 1;
    }
    k
}

/// 2 to the power `x`; the result must fit in `usize`.
pub fn pow2(x: usize) -> (r: usize)
    requires
        model::pow2(x as nat) <= usize::MAX,
    ensures
        r == model::pow2(x as nat),
{
    proof {
        lemma2_to64();
    }
    let mut r: usize = 1;
    let mut i: usize = 0;
    while i < x
        invariant
            i <= x,
            r == model::pow2(i as nat),
            model::pow2(x as nat) <= usize::MAX,
        decreases x - i,
    {
        proof {
            lemma_pow2_unfold(i as nat + 1);
            if i + 1 < x {
                lemma_pow2_strictly_increases(i as nat + 1, x as nat);
            }
        }
        r = 2 * r;
        i = i + 1;
    }
    r
}

/// Level of an index: the number of consecutive set bits starting at
/// bit 0.  Leaves (even indices) are at level 0.
pub fn level(index: TreeIndex) -> (r: usize)
    ensures
        r == model::level(index as nat),
{
    proof {
        lemma2_to64();
        assert(model::pow2(0) * (index as nat + 1) <= index as nat + 1) by (nonlinear_arith)
            requires
                model::pow2(0) == 1,
        {}
    }
    let mut v: usize = index;
    let mut k: usize = 0;
    while v % 2 == 1
        invariant
            model::level(index as nat) == k + model::level(v as nat),
            model::pow2(k as nat) * (v as nat + 1) <= index as nat + 1,
        decreases v,
    {
        proof {
            lemma_fundamental_div_mod(v as int, 2);
            lemma_pow2_unfold(k as nat + 1);
            assert(model::pow2(k as nat + 1) * ((v / 2) as nat + 1) <= index as nat + 1)
                by (nonlinear_arith)
                requires
                    model::pow2(k as nat + 1) == 2 * model::pow2(k as nat),
                    v as nat == 2 * ((v / 2) as nat) + 1,
                    model::pow2(k as nat) * (v as nat + 1) <= index as nat + 1,
            {}
            model::lemma_pow2_above(k as nat + 1);
            assert(model::pow2(k as nat + 1) <= index as nat + 1) by (nonlinear_arith)
                requires
                    model::pow2(k as nat + 1) * ((v / 2) as nat + 1) <= index as nat + 1,
                    (v / 2) as nat + 1 >= 1,
                    model::pow2(k as nat + 1) >= 0,
            {}
        }
        v = v / 2;
        k = k + 1;
    }
    k
}

/// Index of the root of the tree with `size` leaves.
pub fn root(size: RosterIndex) -> (r: TreeIndex)
    requires
        1 <= size,
        2 * size - 1 <= usize::MAX,
    ensures
        r == model::root(size as nat),
{
    let w = node_width(size);
    proof {
        model::lemma_log2_bounds(w as nat);
        lemma_pow2_pos(model::log2(w as nat));
    }
    let l = log2(w);
    let p = pow2(l);
    p - 1
}

/// Left child of an index in the conceptual complete tree; a leaf is
/// its own left child.
pub fn left(index: TreeIndex) -> (r: TreeIndex)
    ensures
        r == model::left(index as nat),
{
    let k = level(index);
    if k == 0 {
        return index;
    }
    proof {
        model::lemma_level_lb(index as nat);
        lemma_pow2_unfold(k as nat);
        lemma_pow2_pos((k - 1) as nat);
    }
    let h = pow2(k - 1);
    index - h
}

/// One step from a node toward its parent in the conceptual complete
/// tree.
pub fn parent_step(x: usize) -> (r: usize)
    requires
        x < usize::MAX,
    ensures
        r == model::parent_step(x as nat),
{
    let k = level(x);
    proof {
        model::lemma_level_lb(x as nat);
        model::lemma_parent_step_level(x as nat);
        model::lemma_parent_step_fits(x as nat);
        lemma_pow2_pos(k as nat);
        lemma_pow2_unfold(k as nat + 1);
        lemma_div_denominator(x as int, model::pow2(k as nat) as int, 2);
    }
    let pk = pow2(k);
    let b = (x / pk / 2) % 2;
    if b == 0 {
        x + pk
    } else {
        x - pk
    }
}

/// Parent of an index inside the tree with `size` leaves; the root is
/// its own parent.
pub fn parent(index: TreeIndex, size: RosterIndex) -> (r: TreeIndex)
    requires
        1 <= size,
        2 * size - 1 <= usize::MAX,
        index < 2 * size - 1,
    ensures
        r == model::parent(index as nat, size as nat),
{
    let rt = root(size);
    if index == rt {
        return index;
    }
    let w = node_width(size);
    let ghost n = size as nat;
    let ghost ll = model::log2(w as nat);
    proof {
        model::lemma_root_props(n);
        model::lemma_log2_bounds(w as nat);
        model::lemma_level_window(index as nat, ll);
        model::lemma_parent_step_level(index as nat);
        model::lemma_parent_step_window(index as nat, ll);
    }
    let mut p = parent_step(index);
    while p >= w
        invariant
            1 <= n,
            w as nat == model::node_width(n),
            w <= usize::MAX,
            ll == model::log2(w as nat),
            (p as nat) < model::pow2(ll + 1) - 1,
            model::parent_clamp(p as nat, w as nat) == model::parent(index as nat, n),
        decreases ll + 1 - model::level(p as nat),
    {
        proof {
            model::lemma_root_props(n);
            model::lemma_log2_bounds(w as nat);
            model::lemma_level_window(p as nat, ll);
            assert(model::level(p as nat) < ll);
            model::lemma_parent_step_level(p as nat);
            model::lemma_parent_step_window(p as nat, ll);
            model::lemma_pow2_next_fits(ll);
            lemma_pow2_unfold(ll + 1);
        }
        p = parent_step(p);
    }
    p
}

/// Right child of an index inside the tree with `size` leaves; a leaf
/// is its own right child.
pub fn right(index: TreeIndex, size: RosterIndex) -> (r: TreeIndex)
    requires
        1 <= size,
        2 * size - 1 <= usize::MAX,
        index < 2 * size - 1,
    ensures
        r == model::right(index as nat, size as nat),
{
    let k = level(index);
    if k == 0 {
        return index;
    }
    let w = node_width(size);
    let ghost n = size as nat;
    let ghost ll = model::log2(w as nat);
    proof {
        model::lemma_log2_bounds(w as nat);
        model::lemma_right_candidate(index as nat, ll);
        model::lemma_level_lb(index as nat);
        lemma_pow2_unfold(k as nat);
        lemma_pow2_pos((k - 1) as nat);
        model::lemma_pow2_next_fits(ll);
        lemma_pow2_unfold(ll + 1);
    }
    let h = pow2(k - 1);
    let mut r = index + h;
    while r >= w
        invariant
            1 <= n,
            w as nat == model::node_width(n),
            (index as nat) < (w as nat),
            (index as nat) % 2 == 1,
            r as nat == index as nat + model::pow2(model::level(r as nat)),
            model::left_clamp(r as nat, w as nat) == model::right(index as nat, n),
        decreases r,
    {
        proof {
            if model::level(r as nat) == 0 {
                lemma2_to64();
                assert(false);
            }
            model::lemma_left_level(r as nat);
            lemma_pow2_unfold(model::level(r as nat));
        }
        r = left(r);
    }
    r
}

/// The other child of the parent of `index`; the root is its own
/// sibling.
pub fn sibling(index: TreeIndex, size: RosterIndex) -> (r: TreeIndex)
    requires
        1 <= size,
        2 * size - 1 <= usize::MAX,
        index < 2 * size - 1,
    ensures
        r == model::sibling(index as nat, size as nat),
{
    let p = parent(index, size);
    proof {
        if index as nat != model::root(size as nat) {
            model::lemma_parent_props(index as nat, size as nat);
        }
    }
    if index < p {
        right(p, size)
    } else if index > p {
        left(p)
    } else {
        p
    }
}

/// Ascending ancestors of `index`, from its parent up to but excluding
/// the root, in leaf-to-root order.
pub fn dirpath(index: TreeIndex, size: RosterIndex) -> (r: Vec<TreeIndex>)
    requires
        1 <= size,
        2 * size - 1 <= usize::MAX,
        index < 2 * size - 1,
    ensures
        to_nats(r@) == model::dirpath(index as nat, size as nat),
{
    let rt = root(size);
    let ghost n = size as nat;
    let mut d: Vec<usize> = Vec::new();
    proof {
        model::lemma_root_props(n);
        if index as nat != model::root(n) {
            model::lemma_parent_props(index as nat, n);
        }
    }
    let mut p = parent(index, size);
    proof {
        assert(model::dirpath(index as nat, n) == to_nats(d@) + (if p as nat == model::root(
            n,
        ) {
            Seq::<nat>::empty()
        } else {
            seq![p as nat] + model::dirpath(p as nat, n)
        })) by {
            assert(to_nats(d@) =~= Seq::<nat>::empty());
            if p as nat != model::root(n) {
                assert(Seq::<nat>::empty() + (seq![p as nat] + model::dirpath(p as nat, n))
                    =~= seq![p as nat] + model::dirpath(p as nat, n));
            } else {
                assert(Seq::<nat>::empty() + Seq::<nat>::empty() =~= Seq::<nat>::empty());
            }
        }
    }
    while p != rt
        invariant
            1 <= n,
            n == size as nat,
            2 * n - 1 <= usize::MAX,
            rt as nat == model::root(n),
            (p as nat) < model::node_width(n),
            model::dirpath(index as nat, n) == to_nats(d@) + (if p as nat == model::root(n) {
                Seq::<nat>::empty()
            } else {
                seq![p as nat] + model::dirpath(p as nat, n)
            }),
        decreases model::log2(model::node_width(n)) + 1 - model::level(p as nat),
    {
        proof {
            model::lemma_parent_props(p as nat, n);
        }
        let ghost olds = to_nats(d@);
        d.push(p);
        let oldp = p;
        p = parent(p, size);
        proof {
            assert(to_nats(d@) =~= olds.push(oldp as nat));
            let cont = if p as nat == model::root(n) {
                Seq::<nat>::empty()
            } else {
                seq![p as nat] + model::dirpath(p as nat, n)
            };
            assert(model::dirpath(oldp as nat, n) == cont);
            assert(olds + (seq![oldp as nat] + model::dirpath(oldp as nat, n)) =~= olds.push(
                oldp as nat,
            ) + cont);
        }
    }
    proof {
        assert(to_nats(d@) + Seq::<nat>::empty() =~= to_nats(d@));
    }
    d
}

/// Ascending ancestors from the parent up to and including the root.
pub fn dirpath_root(index: TreeIndex, size: RosterIndex) -> (r: Vec<TreeIndex>)
    requires
        1 <= size,
        2 * size - 1 <= usize::MAX,
        index < 2 * size - 1,
    ensures
        to_nats(r@) == model::dirpath_root(index as nat, size as nat),
{
    let ghost n = size as nat;
    let mut d = dirpath(index, size);
    let rt = root(size);
    let ghost olds = to_nats(d@);
    d.push(rt);
    proof {
        assert(to_nats(d@) =~= olds + seq![model::root(n)]);
    }
    d
}

/// The node itself, its ancestors, and the root, in leaf-to-root
/// order; for the root itself, a single-element path.
pub fn dirpath_long(index: TreeIndex, size: RosterIndex) -> (r: Vec<TreeIndex>)
    requires
        1 <= size,
        2 * size - 1 <= usize::MAX,
        index < 2 * size - 1,
    ensures
        to_nats(r@) == model::dirpath_long(index as nat, size as nat),
{
    let ghost n = size as nat;
    let rt = root(size);
    let mut d: Vec<usize> = Vec::new();
    d.push(index);
    if index == rt {
        proof {
            assert(to_nats(d@) =~= seq![index as nat]);
        }
        return d;
    }
    let mut tail = dirpath(index, size);
    d.append(&mut tail);
    let ghost mids = to_nats(d@);
    d.push(rt);
    proof {
        assert(mids =~= seq![index as nat] + model::dirpath(index as nat, n));
        assert(to_nats(d@) =~= mids + seq![model::root(n)]);
        assert((seq![index as nat] + model::dirpath(index as nat, n)) + seq![model::root(n)]
            =~= to_nats(d@));
    }
    d
}

/// Sibling of each node on the path `[index] ++ dirpath(index, size)`,
/// in the same leaf-to-root order.
pub fn copath(index: TreeIndex, size: RosterIndex) -> (r: Vec<TreeIndex>)
    requires
        1 <= size,
        2 * size - 1 <= usize::MAX,
        index < 2 * size - 1,
    ensures
        to_nats(r@) == model::copath(index as nat, size as nat),
{
    let ghost n = size as nat;
    let mut base: Vec<usize> = Vec::new();
    base.push(index);
    let mut tail = dirpath(index, size);
    base.append(&mut tail);
    proof {
        model::lemma_dirpath_bounds(index as nat, n);
        assert(to_nats(base@) =~= seq![index as nat] + model::dirpath(index as nat, n));
        assert forall|j: int| 0 <= j < base@.len() implies (#[trigger] base@[j] as nat)
            < model::node_width(n) by {
            assert(to_nats(base@)[j] == base@[j] as nat);
            if j > 0 {
                assert(to_nats(base@)[j] == model::dirpath(index as nat, n)[j - 1]);
            }
        }
    }
    let mut r: Vec<usize> = Vec::new();
    let mut i: usize = 0;
    while i < base.len()
        invariant
            1 <= n,
            n == size as nat,
            2 * n - 1 <= usize::MAX,
            (index as nat) < model::node_width(n),
            to_nats(base@) == seq![index as nat] + model::dirpath(index as nat, n),
            forall|j: int|
                0 <= j < base@.len() ==> (#[trigger] base@[j] as nat) < model::node_width(n),
            i <= base@.len(),
            r@.len() == i,
            forall|j: int|
                0 <= j < i ==> (#[trigger] r@[j] as nat) == model::sibling(
                    base@[j] as nat,
                    n,
                ),
        decreases base@.len() - i,
    {
        let s = sibling(base[i], size);
        r.push(s);
        i = i + 1;
    }
    proof {
        assert(to_nats(r@) =~= model::copath(index as nat, n));
    }
    r
}

/// Common ancestor of two distinct indices in the conceptual complete
/// tree; no clamping against a roster size is applied.
pub fn common_ancestor(x: TreeIndex, y: TreeIndex) -> (r: TreeIndex)
    requires
        x != y,
    ensures
        r == model::common_ancestor(x as nat, y as nat),
{
    proof {
        lemma2_to64();
        lemma_div_basics(x as int);
        lemma_div_basics(y as int);
    }
    let mut xn = x;
    let mut yn = y;
    let mut k: usize = 0;
    while xn != yn
        invariant
            xn as nat == (x as nat) / model::pow2(k as nat),
            yn as nat == (y as nat) / model::pow2(k as nat),
            model::ca_shift(x as nat, y as nat) == k + model::ca_shift(xn as nat, yn as nat),
            k == 0 ==> (xn == x && yn == y),
            1 <= k ==> model::pow2((k - 1) as nat) <= usize::MAX,
        decreases xn + yn,
    {
        proof {
            lemma_pow2_pos(k as nat);
            lemma_pow2_unfold(k as nat + 1);
            lemma_div_denominator(x as int, model::pow2(k as nat) as int, 2);
            lemma_div_denominator(y as int, model::pow2(k as nat) as int, 2);
            if xn >= 1 {
                lemma_fundamental_div_mod(x as int, model::pow2(k as nat) as int);
                lemma_mul_inequality(1, xn as int, model::pow2(k as nat) as int);
            } else {
                lemma_fundamental_div_mod(y as int, model::pow2(k as nat) as int);
                lemma_mul_inequality(1, yn as int, model::pow2(k as nat) as int);
            }
            assert(model::pow2(k as nat) <= usize::MAX);
            model::lemma_pow2_above(k as nat);
        }
        xn = xn / 2;
        yn = yn / 2;
        k = k + 1;
    }
    proof {
        lemma_pow2_pos((k - 1) as nat);
        lemma_pow2_unfold(k as nat);
    }
    let m = pow2(k - 1);
    if xn == 0 {
        proof {
            assert((x as nat / model::pow2(k as nat)) * model::pow2(k as nat) == 0)
                by (nonlinear_arith)
                requires
                    x as nat / model::pow2(k as nat) == 0,
            {}
        }
        m - 1
    } else {
        proof {
            lemma_div_is_ordered_by_denominator(x as int, 2, model::pow2(k as nat) as int);
            lemma_fundamental_div_mod(x as int, model::pow2(k as nat) as int);
            assert((xn as nat * 2) * (m as nat) == (xn as nat) * model::pow2(k as nat))
                by (nonlinear_arith)
                requires
                    model::pow2(k as nat) == 2 * (m as nat),
            {}
            assert(model::pow2(k as nat) * (xn as nat) == (xn as nat) * model::pow2(k as nat))
                by (nonlinear_arith)
            {}
            assert(((xn * 2) as nat * m as nat) % (m as nat) == 0) by {
                lemma_mod_multiples_basic((xn * 2) as int, m as int);
            }
            model::lemma_pow2_multiple_fits((xn as nat * 2) * (m as nat), (k - 1) as nat);
        }
        let a = xn * 2 * m;
        a + (m - 1)
    }
}

} // verus!

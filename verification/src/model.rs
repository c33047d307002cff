//! Mathematical model of the tree, over unbounded naturals.
//!
//! A tree with `n >= 1` leaves occupies `node_width(n) == 2n - 1` array
//! slots.  The `level` of an index is the number of consecutive set bits
//! starting at bit 0; leaves (even indices) have level 0.  Navigation is
//! defined on the conceptual complete tree and then clamped into the
//! actual array by `left_clamp` (descend through left children) or
//! `parent_clamp` (climb through parent candidates) until the index is
//! inside `[0, node_width(n))`.

use vstd::arithmetic::div_mod::{
    lemma_div_denominator, lemma_div_is_strictly_smaller, lemma_fundamental_div_mod,
    lemma_fundamental_div_mod_converse, lemma_mod_decreases, lemma_mod_multiples_basic,
    lemma_multiply_divide_lt,
};
use vstd::arithmetic::mul::{lemma_mul_inequality, lemma_mul_is_commutative};
use vstd::arithmetic::power2::{
    lemma2_to64, lemma_pow2_adds, lemma_pow2_pos, lemma_pow2_strictly_increases,
    lemma_pow2_unfold,
};
use vstd::prelude::*;

verus! {

/// 2 to the power `e`.
pub open spec fn pow2(e: nat) -> nat {
    vstd::arithmetic::power2::pow2(e)
}

/// Floor of the base-2 logarithm; `log2(0) == 0` by convention.
pub open spec fn log2(x: nat) -> nat
    decreases x,
{
    if x < 2 {
        0
    } else {
        1 + log2(x / 2)
    }
}

/// Height of an index in the conceptual complete tree: the number of
/// consecutive set bits starting at bit 0.  Even indices (leaves) have
/// level 0.
pub open spec fn level(x: nat) -> nat
    decreases x,
{
    if x % 2 == 0 {
        0
    } else {
        1 + level(x / 2)
    }
}

/// Number of array slots taken by a tree with `n` leaves.
pub open spec fn node_width(n: nat) -> nat {
    (2 * n - 1) as nat
}

/// Index of the root of the tree with `n` leaves.
pub open spec fn root(n: nat) -> nat {
    (pow2(log2(node_width(n))) - 1) as nat
}

/// Left child in the conceptual complete tree; a leaf is its own left
/// child.
pub open spec fn left(x: nat) -> nat {
    if level(x) == 0 {
        x
    } else {
        (x - pow2((level(x) - 1) as nat)) as nat
    }
}

/// One step from a node toward its parent in the conceptual complete
/// tree: set bit `level(x)` and, if bit `level(x) + 1` was set, clear it.
pub open spec fn parent_step(x: nat) -> nat {
    let k = level(x);
    if (x / pow2(k + 1)) % 2 == 0 {
        x + pow2(k)
    } else {
        (x - pow2(k)) as nat
    }
}

/// Descend through left children until the index lies inside the array
/// of width `w`.
pub open spec fn left_clamp(r: nat, w: nat) -> nat
    decreases r,
    via left_clamp_dec
{
    if r < w || level(r) == 0 {
        r
    } else {
        left_clamp(left(r), w)
    }
}

/// Right child: the candidate in the conceptual complete tree, clamped
/// into the array; a leaf is its own right child.
pub open spec fn right(x: nat, n: nat) -> nat {
    if level(x) == 0 {
        x
    } else {
        left_clamp(x + pow2((level(x) - 1) as nat), node_width(n))
    }
}

/// Climb through parent candidates until the index lies inside the
/// array of width `w`.  The second branch is never reached from a valid
/// index; it only bounds the recursion.
pub open spec fn parent_clamp(p: nat, w: nat) -> nat
    decreases log2(w) + 1 - level(p),
    via parent_clamp_dec
{
    if p < w {
        p
    } else if level(p) > log2(w) {
        p
    } else {
        parent_clamp(parent_step(p), w)
    }
}

/// Parent inside the tree with `n` leaves; the root is its own parent.
pub open spec fn parent(x: nat, n: nat) -> nat {
    if x == root(n) {
        x
    } else {
        parent_clamp(parent_step(x), node_width(n))
    }
}

/// The other child of `parent(x, n)`; the root is its own sibling.
pub open spec fn sibling(x: nat, n: nat) -> nat {
    let p = parent(x, n);
    if x < p {
        right(p, n)
    } else if x > p {
        left(p)
    } else {
        p
    }
}

/// Ascending ancestors of `x`, from its parent up to but excluding the
/// root; empty when the parent already is the root.
pub open spec fn dirpath(x: nat, n: nat) -> Seq<nat>
    decreases log2(node_width(n)) + 1 - level(x),
    via dirpath_dec
{
    if n < 1 || x >= node_width(n) {
        Seq::empty()
    } else if parent(x, n) == root(n) {
        Seq::empty()
    } else {
        seq![parent(x, n)] + dirpath(parent(x, n), n)
    }
}

/// Ascending ancestors from the parent up to and including the root.
pub open spec fn dirpath_root(x: nat, n: nat) -> Seq<nat> {
    dirpath(x, n) + seq![root(n)]
}

/// The node itself, then its ancestors up to and including the root;
/// for the root itself, a single-element path.
pub open spec fn dirpath_long(x: nat, n: nat) -> Seq<nat> {
    if x == root(n) {
        seq![x]
    } else {
        seq![x] + dirpath(x, n) + seq![root(n)]
    }
}

/// Sibling of each node on the path `[x] ++ dirpath(x, n)`, in the same
/// leaf-to-root order.
pub open spec fn copath(x: nat, n: nat) -> Seq<nat> {
    (seq![x] + dirpath(x, n)).map_values(|v: nat| sibling(v, n))
}

/// Number of lock-step right shifts after which `x` and `y` agree.
pub open spec fn ca_shift(x: nat, y: nat) -> nat
    decreases x + y,
    via ca_shift_dec
{
    if x == y {
        0
    } else {
        1 + ca_shift(x / 2, y / 2)
    }
}

/// Common ancestor of two distinct indices in the conceptual complete
/// tree (no clamping against a roster size).
pub open spec fn common_ancestor(x: nat, y: nat) -> nat {
    let k = ca_shift(x, y);
    ((x / pow2(k)) * pow2(k) + pow2((k - 1) as nat) - 1) as nat
}

#[via_fn]
proof fn left_clamp_dec(r: nat, w: nat) {
    if !(r < w || level(r) == 0) {
        lemma_level_lb(r);
        lemma_pow2_pos((level(r) - 1) as nat);
        lemma_pow2_unfold(level(r));
    }
}

#[via_fn]
proof fn parent_clamp_dec(p: nat, w: nat) {
    if !(p < w) && !(level(p) > log2(w)) {
        lemma_parent_step_level(p);
    }
}

#[via_fn]
proof fn dirpath_dec(x: nat, n: nat) {
    if 1 <= n && x < node_width(n) && parent(x, n) != root(n) {
        assert(x != root(n));
        lemma_parent_props(x, n);
    }
}

#[via_fn]
proof fn ca_shift_dec(x: nat, y: nat) {
    if x != y {
        if x >= 1 {
            lemma_div_is_strictly_smaller(x as int, 2);
        }
        if y >= 1 {
            lemma_div_is_strictly_smaller(y as int, 2);
        }
    }
}

/// Every index decomposes around its level: the low bits of `x` are
/// exactly `level(x)` ones followed by a zero.
pub proof fn lemma_level_decomp(x: nat)
    ensures
        x % pow2(level(x) + 1) == pow2(level(x)) - 1,
        x == pow2(level(x) + 1) * (x / pow2(level(x) + 1)) + pow2(level(x)) - 1,
    decreases x,
{
    lemma_pow2_pos(level(x) + 1);
    if x % 2 == 0 {
        assert(pow2(0) == 1 && pow2(1) == 2) by {
            lemma2_to64();
        }
    } else {
        let x2 = x / 2;
        lemma_level_decomp(x2);
        let k2 = level(x2);
        let m = pow2(k2 + 1);
        lemma_pow2_pos(k2);
        lemma_pow2_pos(k2 + 1);
        lemma_fundamental_div_mod(x as int, 2);
        lemma_fundamental_div_mod(x2 as int, m as int);
        let q = x2 as int / m as int;
        lemma_pow2_unfold(k2 + 1);
        lemma_pow2_unfold(k2 + 2);
        assert(x == q * pow2(k2 + 2) + (pow2(k2 + 1) - 1)) by (nonlinear_arith)
            requires
                x == 2 * x2 + 1,
                x2 == m * q + (pow2(k2 + 1) / 2 - 1),
                m == pow2(k2 + 1),
                pow2(k2 + 2) == 2 * pow2(k2 + 1),
                pow2(k2 + 1) == 2 * (pow2(k2 + 1) / 2),
        {}
        lemma_fundamental_div_mod_converse(
            x as int,
            pow2(k2 + 2) as int,
            q,
            pow2(k2 + 1) - 1,
        );
        lemma_fundamental_div_mod(x as int, pow2(k2 + 2) as int);
    }
    lemma_fundamental_div_mod(x as int, pow2(level(x) + 1) as int);
}

/// Conversely, a number of that shape has exactly that level.
pub proof fn lemma_level_of_form(q: nat, j: nat)
    ensures
        level((q * pow2(j + 1) + pow2(j) - 1) as nat) == j,
    decreases j,
{
    lemma_pow2_pos(j);
    lemma_pow2_pos(j + 1);
    let v = (q * pow2(j + 1) + pow2(j) - 1) as nat;
    if j == 0 {
        assert(pow2(0) == 1 && pow2(1) == 2) by {
            lemma2_to64();
        }
        assert(v == q * 2);
        lemma_mod_multiples_basic(q as int, 2);
    } else {
        lemma_pow2_pos((j - 1) as nat);
        lemma_level_of_form(q, (j - 1) as nat);
        let v2 = (q * pow2(j) + pow2((j - 1) as nat) - 1) as nat;
        lemma_pow2_unfold(j);
        lemma_pow2_unfold(j + 1);
        assert(v == 2 * v2 + 1) by (nonlinear_arith)
            requires
                v == q * pow2(j + 1) + pow2(j) - 1,
                v2 == q * pow2(j) + pow2((j - 1) as nat) - 1,
                pow2(j + 1) == 2 * pow2(j),
                pow2(j) == 2 * pow2((j - 1) as nat),
                pow2((j - 1) as nat) >= 1,
        {}
        lemma_fundamental_div_mod_converse(v as int, 2, v2 as int, 1);
    }
}

/// Powers of two outgrow their exponent.
pub proof fn lemma_pow2_above(e: nat)
    ensures
        e < pow2(e),
        1 <= e ==> 2 * e <= pow2(e),
    decreases e,
{
    if e == 0 {
        lemma2_to64();
    } else {
        lemma_pow2_above((e - 1) as nat);
        lemma_pow2_unfold(e);
    }
}

/// An index is at least `pow2(level) - 1`.
pub proof fn lemma_level_lb(x: nat)
    ensures
        x + 1 >= pow2(level(x)),
{
    lemma_level_decomp(x);
    lemma_pow2_pos(level(x) + 1);
    lemma_mod_decreases(x, pow2(level(x) + 1));
}

/// The floor logarithm brackets its argument between two powers of two.
pub proof fn lemma_log2_bounds(x: nat)
    requires
        1 <= x,
    ensures
        pow2(log2(x)) <= x,
        x < pow2(log2(x) + 1),
    decreases x,
{
    if x < 2 {
        assert(pow2(0) == 1 && pow2(1) == 2) by {
            lemma2_to64();
        }
    } else {
        lemma_log2_bounds(x / 2);
        lemma_pow2_unfold(log2(x));
        lemma_pow2_unfold(log2(x) + 1);
        lemma_fundamental_div_mod(x as int, 2);
    }
}

/// Below the root slot of the full tree of height `m + 1`, levels stay
/// at most `m`, and level `m` is reached only by that tree's root.
pub proof fn lemma_level_window(z: nat, m: nat)
    requires
        z < pow2(m + 1) - 1,
    ensures
        level(z) <= m,
        level(z) == m ==> z == pow2(m) - 1,
{
    let k = level(z);
    lemma_level_decomp(z);
    lemma_level_lb(z);
    lemma_pow2_pos(m);
    lemma_pow2_pos(m + 1);
    lemma_pow2_pos(k);
    if k > m {
        if k > m + 1 {
            lemma_pow2_strictly_increases(m + 1, k);
        }
        assert(false);
    }
    if k == m {
        let q = z / pow2(m + 1);
        if q >= 1 {
            assert(z >= pow2(m + 1)) by (nonlinear_arith)
                requires
                    z == pow2(m + 1) * q + pow2(m) - 1,
                    q >= 1,
                    pow2(m) >= 1,
                    pow2(m + 1) >= 1,
            {}
            assert(false);
        } else {
            assert(z == pow2(m) - 1) by (nonlinear_arith)
                requires
                    z == pow2(m + 1) * q + pow2(m) - 1,
                    q == 0,
            {}
        }
    }
}

/// `parent_step` climbs exactly one level and keeps the bits above
/// `level(x) + 1` unchanged.
pub proof fn lemma_parent_step_level(x: nat)
    ensures
        level(parent_step(x)) == level(x) + 1,
        parent_step(x) == pow2(level(x) + 2) * (x / pow2(level(x) + 2)) + pow2(level(x) + 1)
            - 1,
        (x / pow2(level(x) + 1)) % 2 == 0 ==> parent_step(x) == x + pow2(level(x)),
        (x / pow2(level(x) + 1)) % 2 != 0 ==> x >= pow2(level(x) + 1) + pow2(level(x)) - 1
            && parent_step(x) == x - pow2(level(x)),
{
    let k = level(x);
    lemma_level_decomp(x);
    let m1 = pow2(k + 1);
    let q = x / m1;
    lemma_pow2_pos(k);
    lemma_pow2_pos(k + 1);
    lemma_pow2_pos(k + 2);
    lemma_pow2_unfold(k + 1);
    lemma_pow2_unfold(k + 2);
    lemma_fundamental_div_mod(q as int, 2);
    lemma_div_denominator(x as int, m1 as int, 2);
    assert(q / 2 == x as int / pow2(k + 2) as int);
    let b = q % 2;
    let y = parent_step(x);
    if b == 0 {
        assert(y == x + pow2(k));
        assert(y == (q / 2) * pow2(k + 2) + (pow2(k + 1) - 1)) by (nonlinear_arith)
            requires
                x == m1 * q + (pow2(k) - 1),
                y == x + pow2(k),
                q == 2 * (q / 2),
                m1 == 2 * pow2(k),
                pow2(k + 2) == 2 * m1,
                pow2(k + 1) == m1,
        {}
        lemma_level_of_form((q / 2) as nat, k + 1);
    } else {
        assert(q >= 1);
        assert(x >= m1 * 1 + (pow2(k) - 1)) by (nonlinear_arith)
            requires
                x == m1 * q + (pow2(k) - 1),
                q >= 1,
                m1 >= 1,
                pow2(k) >= 1,
        {}
        assert(y == x - pow2(k));
        assert(y == (q / 2) * pow2(k + 2) + (pow2(k + 1) - 1)) by (nonlinear_arith)
            requires
                x == m1 * q + (pow2(k) - 1),
                y == x - pow2(k),
                q == 2 * (q / 2) + 1,
                m1 == 2 * pow2(k),
                pow2(k + 2) == 2 * m1,
                pow2(k + 1) == m1,
                pow2(k) >= 1,
        {}
        lemma_level_of_form((q / 2) as nat, k + 1);
    }
    assert(y == (q / 2) * pow2(k + 2) + (pow2(k + 1) - 1));
    lemma_mul_is_commutative((q / 2) as int, pow2(k + 2) as int);
    assert(level(y) == k + 1);
}

/// Inside the window of the full tree of height `m + 1`, a parent step
/// stays inside the window.
pub proof fn lemma_parent_step_window(x: nat, m: nat)
    requires
        level(x) < m,
        x < pow2(m + 1) - 1,
    ensures
        parent_step(x) < pow2(m + 1) - 1,
{
    let k = level(x);
    let y = parent_step(x);
    lemma_parent_step_level(x);
    let qq = x / pow2(k + 2);
    lemma_pow2_pos(k + 2);
    lemma_pow2_pos(k + 1);
    lemma_fundamental_div_mod(x as int, pow2(k + 2) as int);
    lemma_mod_decreases(x, pow2(k + 2));
    assert(pow2(k + 2) * qq <= x);
    lemma_pow2_adds(k + 2, (m - k - 1) as nat);
    assert(pow2(k + 2) * pow2((m - k - 1) as nat) == pow2(m + 1));
    lemma_multiply_divide_lt(x as int, pow2(k + 2) as int, pow2((m - k - 1) as nat) as int);
    assert(qq < pow2((m - k - 1) as nat));
    lemma_mul_inequality(qq as int, pow2((m - k - 1) as nat) - 1, pow2(k + 2) as int);
    assert(qq * pow2(k + 2) <= (pow2((m - k - 1) as nat) - 1) * pow2(k + 2));
    assert((pow2((m - k - 1) as nat) - 1) * pow2(k + 2) == pow2(m + 1) - pow2(k + 2))
        by (nonlinear_arith)
        requires
            pow2(k + 2) * pow2((m - k - 1) as nat) == pow2(m + 1),
            pow2((m - k - 1) as nat) >= 1,
    {}
    lemma_pow2_unfold(k + 2);
}

/// If `2^e` fits in `usize`, then `2^(e+1)` is at most `usize::MAX + 1`.
pub proof fn lemma_pow2_next_fits(e: nat)
    requires
        pow2(e) <= usize::MAX,
    ensures
        2 * pow2(e) <= usize::MAX as nat + 1,
{
    vstd::layout::unsigned_int_max_values();
    let b = usize::BITS as nat;
    if e >= b {
        if e > b {
            lemma_pow2_strictly_increases(b, e);
        }
        assert(false);
    }
    if e + 1 < b {
        lemma_pow2_strictly_increases(e + 1, b);
    }
    lemma_pow2_unfold(e + 1);
}

/// A multiple of `2^j` that fits in `usize` leaves room for `2^j - 1`
/// more.
pub proof fn lemma_pow2_multiple_fits(a: nat, j: nat)
    requires
        a % pow2(j) == 0,
        a <= usize::MAX,
        pow2(j) <= usize::MAX as nat + 1,
    ensures
        a + pow2(j) <= usize::MAX as nat + 1,
{
    vstd::layout::unsigned_int_max_values();
    let b = usize::BITS as nat;
    lemma_pow2_pos(j);
    lemma_pow2_pos(b);
    if j > b {
        lemma_pow2_strictly_increases(b, j);
        assert(false);
    }
    lemma_pow2_adds(j, (b - j) as nat);
    lemma_fundamental_div_mod(a as int, pow2(j) as int);
    let c = a / pow2(j);
    lemma_multiply_divide_lt(a as int, pow2(j) as int, pow2((b - j) as nat) as int);
    lemma_mul_inequality(c as int, pow2((b - j) as nat) - 1, pow2(j) as int);
    lemma_mul_is_commutative(c as int, pow2(j) as int);
    assert((pow2((b - j) as nat) - 1) * pow2(j) == pow2(b) - pow2(j)) by (nonlinear_arith)
        requires
            pow2(j) * pow2((b - j) as nat) == pow2(b),
    {}
}

/// A parent step from inside the machine word stays inside it.
pub proof fn lemma_parent_step_fits(x: nat)
    requires
        x < usize::MAX,
    ensures
        parent_step(x) <= usize::MAX,
{
    let k = level(x);
    lemma_parent_step_level(x);
    lemma_level_lb(x);
    lemma_pow2_pos(k + 1);
    lemma_pow2_pos(k + 2);
    lemma_pow2_unfold(k + 1);
    lemma_pow2_unfold(k + 2);
    lemma_pow2_next_fits(k);
    let m = x / pow2(k + 2);
    let aa = pow2(k + 2) * m;
    lemma_fundamental_div_mod(x as int, pow2(k + 2) as int);
    assert(aa <= x);
    assert(aa % pow2(k + 1) == 0) by {
        lemma_mod_multiples_basic(2 * m as int, pow2(k + 1) as int);
        assert(aa == (2 * m as int) * pow2(k + 1)) by (nonlinear_arith)
            requires
                aa == pow2(k + 2) * m,
                pow2(k + 2) == 2 * pow2(k + 1),
        {}
    }
    lemma_pow2_multiple_fits(aa, k + 1);
}

/// Left child of an internal node: one level down, value decreased by
/// half a subtree, and a parent step leads straight back.
pub proof fn lemma_left_level(x: nat)
    requires
        1 <= level(x),
    ensures
        left(x) == x - pow2((level(x) - 1) as nat),
        level(left(x)) == level(x) - 1,
        left(x) < x,
        parent_step(left(x)) == x,
{
    let k = level(x);
    lemma_level_decomp(x);
    lemma_level_lb(x);
    let q = x / pow2(k + 1);
    lemma_pow2_pos((k - 1) as nat);
    lemma_pow2_pos(k);
    lemma_pow2_pos(k + 1);
    lemma_pow2_unfold(k);
    lemma_pow2_unfold(k + 1);
    let y = (x - pow2((k - 1) as nat)) as nat;
    assert(y == (2 * q) * pow2(k) + pow2((k - 1) as nat) - 1) by (nonlinear_arith)
        requires
            x == pow2(k + 1) * q + pow2(k) - 1,
            y == x - pow2((k - 1) as nat),
            pow2(k + 1) == 2 * pow2(k),
            pow2(k) == 2 * pow2((k - 1) as nat),
            pow2((k - 1) as nat) >= 1,
    {}
    lemma_level_of_form(2 * q, (k - 1) as nat);
    lemma_fundamental_div_mod_converse(
        y as int,
        pow2(k) as int,
        2 * q as int,
        pow2((k - 1) as nat) - 1,
    );
    lemma_mod_multiples_basic(q as int, 2);
}

/// Candidate right child of an internal node: one level down, value
/// increased by half a subtree, still inside the window, and a parent
/// step leads straight back.
pub proof fn lemma_right_candidate(x: nat, m: nat)
    requires
        1 <= level(x),
        x < pow2(m + 1) - 1,
    ensures
        level((x + pow2((level(x) - 1) as nat)) as nat) == level(x) - 1,
        x + pow2((level(x) - 1) as nat) < pow2(m + 1) - 1,
        parent_step((x + pow2((level(x) - 1) as nat)) as nat) == x,
{
    let k = level(x);
    lemma_level_window(x, m);
    lemma_level_decomp(x);
    let q = x / pow2(k + 1);
    lemma_pow2_pos((k - 1) as nat);
    lemma_pow2_pos(k);
    lemma_pow2_pos(k + 1);
    lemma_pow2_unfold(k);
    lemma_pow2_unfold(k + 1);
    let c = (x + pow2((k - 1) as nat)) as nat;
    assert(c == (2 * q + 1) * pow2(k) + pow2((k - 1) as nat) - 1) by (nonlinear_arith)
        requires
            x == pow2(k + 1) * q + pow2(k) - 1,
            c == x + pow2((k - 1) as nat),
            pow2(k + 1) == 2 * pow2(k),
            pow2(k) == 2 * pow2((k - 1) as nat),
    {}
    lemma_level_of_form(2 * q + 1, (k - 1) as nat);
    lemma_pow2_adds(k, (m + 1 - k) as nat);
    assert(x + 1 == (2 * q + 1) * pow2(k)) by (nonlinear_arith)
        requires
            x == pow2(k + 1) * q + pow2(k) - 1,
            pow2(k + 1) == 2 * pow2(k),
    {}
    lemma_fundamental_div_mod_converse((x + 1) as int, pow2(k) as int, (2 * q + 1) as int, 0);
    lemma_multiply_divide_lt((x + 1) as int, pow2(k) as int, pow2((m + 1 - k) as nat) as int);
    lemma_mul_inequality((2 * q + 1) as int, pow2((m + 1 - k) as nat) - 1, pow2(k) as int);
    assert((pow2((m + 1 - k) as nat) - 1) * pow2(k) == pow2(m + 1) - pow2(k))
        by (nonlinear_arith)
        requires
            pow2(k) * pow2((m + 1 - k) as nat) == pow2(m + 1),
    {}
    lemma_fundamental_div_mod_converse(
        c as int,
        pow2(k) as int,
        (2 * q + 1) as int,
        pow2((k - 1) as nat) - 1,
    );
}

/// The root slot: its level is the tree height and it lies inside the
/// array.
pub proof fn lemma_root_props(n: nat)
    requires
        1 <= n,
    ensures
        root(n) == pow2(log2(node_width(n))) - 1,
        level(root(n)) == log2(node_width(n)),
        root(n) < node_width(n),
        node_width(n) < pow2(log2(node_width(n)) + 1),
{
    let w = node_width(n);
    lemma_log2_bounds(w);
    lemma_pow2_pos(log2(w));
    lemma_level_of_form(0, log2(w));
}

/// Climbing from inside the window always lands inside the array, never
/// below the starting level.
pub proof fn lemma_parent_clamp_props(p: nat, w: nat)
    requires
        1 <= w,
        p < pow2(log2(w) + 1) - 1,
    ensures
        parent_clamp(p, w) < w,
        parent_clamp(p, w) < pow2(log2(w) + 1) - 1,
        level(parent_clamp(p, w)) >= level(p),
        p < w ==> parent_clamp(p, w) == p,
    decreases log2(w) + 1 - level(p),
{
    let ll = log2(w);
    lemma_level_window(p, ll);
    lemma_log2_bounds(w);
    if p >= w {
        assert(level(p) < ll);
        lemma_parent_step_level(p);
        lemma_parent_step_window(p, ll);
        lemma_parent_clamp_props(parent_step(p), w);
    }
}

/// The parent of a valid non-root index is valid and strictly higher.
pub proof fn lemma_parent_props(x: nat, n: nat)
    requires
        1 <= n,
        x < node_width(n),
        x != root(n),
    ensures
        parent(x, n) < node_width(n),
        level(parent(x, n)) > level(x),
        level(parent(x, n)) <= log2(node_width(n)),
        parent(x, n) < pow2(log2(node_width(n)) + 1) - 1,
{
    let w = node_width(n);
    let ll = log2(w);
    lemma_root_props(n);
    lemma_level_window(x, ll);
    assert(level(x) < ll);
    lemma_parent_step_level(x);
    lemma_parent_step_window(x, ll);
    lemma_parent_clamp_props(parent_step(x), w);
    lemma_level_window(parent(x, n), ll);
}

/// Every entry of a direct path is a valid index.
pub proof fn lemma_dirpath_bounds(x: nat, n: nat)
    requires
        1 <= n,
        x < node_width(n),
    ensures
        forall|i: int|
            0 <= i < dirpath(x, n).len() ==> dirpath(x, n)[i] < node_width(n),
    decreases log2(node_width(n)) + 1 - level(x),
{
    if parent(x, n) != root(n) {
        assert(x != root(n));
        let p = parent(x, n);
        lemma_parent_props(x, n);
        lemma_dirpath_bounds(p, n);
        assert(dirpath(x, n) == seq![p] + dirpath(p, n));
        assert forall|i: int| 0 <= i < dirpath(x, n).len() implies dirpath(x, n)[i]
            < node_width(n) by {
            if i > 0 {
                assert(dirpath(x, n)[i] == dirpath(p, n)[i - 1]);
            }
        }
    }
}

} // verus!

//! Arithmetic about the implicit complete binary tree laid out in a flat,
//! 1-indexed array: node `i`'s children are `2i` and `2i + 1`, and the
//! chain `t, t/2, t/4, ..., 1` is the path from a node to the root.

use vstd::prelude::*;
use vstd::arithmetic::power2::pow2;
use vstd::arithmetic::div_mod::{
    lemma_div_denominator, lemma_fundamental_div_mod, lemma_mod_breakdown,
};

verus! {

/// Does `w` lie on the path from node `t` (inclusive) up to the root?
pub open spec fn on_path(t: int, w: int) -> bool
    decreases t,
{
    if t < 1 {
        false
    } else if w == t {
        true
    } else {
        on_path(t / 2, w)
    }
}

/// Path members lie between the root and the starting node.
pub proof fn lemma_on_path_bounds(t: int, w: int)
    requires
        on_path(t, w),
    ensures
        1 <= w <= t,
    decreases t,
{
    if t >= 1 && w != t {
        lemma_on_path_bounds(t / 2, w);
    }
}

/// The ancestor of `t` at height `d` lies on the path of `t`.
pub proof fn lemma_on_path_div(t: int, d: nat)
    requires
        1 <= t,
        1 <= t / pow2(d) as int,
    ensures
        on_path(t, t / pow2(d) as int),
    decreases d,
{
    if d == 0 {
        assert(pow2(0) == 1) by {
            vstd::arithmetic::power2::lemma2_to64();
        }
    } else {
        let p = pow2((d - 1) as nat) as int;
        assert(pow2(d) == 2 * pow2((d - 1) as nat)) by {
            vstd::arithmetic::power2::lemma_pow2_unfold(d);
        }
        vstd::arithmetic::power2::lemma_pow2_pos((d - 1) as nat);
        lemma_div_denominator(t, 2, p);
        assert(t / (2 * p) == (t / 2) / p);
        assert(t / (2 * p) <= t / 2) by {
            vstd::arithmetic::div_mod::lemma_div_is_ordered_by_denominator(t, 2, 2 * p);
        }
        assert(t / 2 < t) by {
            vstd::arithmetic::div_mod::lemma_div_is_strictly_smaller(t, 2);
        }
        lemma_on_path_div(t / 2, (d - 1) as nat);
    }
}

/// Every path member is an ancestor by repeated halving.
pub proof fn lemma_on_path_height(t: int, w: int) -> (d: nat)
    requires
        on_path(t, w),
    ensures
        w == t / pow2(d) as int,
    decreases t,
{
    if t >= 1 && w == t {
        assert(pow2(0) == 1) by {
            vstd::arithmetic::power2::lemma2_to64();
        }
        0
    } else {
        let d0 = lemma_on_path_height(t / 2, w);
        assert(pow2(d0 + 1) == 2 * pow2(d0)) by {
            vstd::arithmetic::power2::lemma_pow2_unfold(d0 + 1);
        }
        vstd::arithmetic::power2::lemma_pow2_pos(d0);
        lemma_div_denominator(t, 2, pow2(d0) as int);
        d0 + 1
    }
}

/// Two members of one path are comparable: the smaller lies on the path
/// of the larger.
pub proof fn lemma_on_path_in(t: int, w: int, u: int)
    requires
        on_path(t, w),
        on_path(t, u),
        w <= u,
    ensures
        on_path(u, w),
    decreases t,
{
    if t >= 1 {
        if u == t {
        } else if w == t {
            lemma_on_path_bounds(t / 2, u);
        } else {
            lemma_on_path_in(t / 2, w, u);
        }
    }
}

/// A strict path member is at most half of the starting node.
pub proof fn lemma_on_path_strict(t: int, w: int)
    requires
        on_path(t, w),
        w != t,
    ensures
        on_path(t / 2, w),
        w <= t / 2,
{
    lemma_on_path_bounds(t / 2, w);
}

/// Path membership is transitive.
pub proof fn lemma_on_path_trans(t: int, w: int, u: int)
    requires
        on_path(t, w),
        on_path(w, u),
    ensures
        on_path(t, u),
    decreases t,
{
    if t >= 1 && w != t {
        lemma_on_path_trans(t / 2, w, u);
        lemma_on_path_bounds(w, u);
        lemma_on_path_bounds(t / 2, w);
    }
}

/// The parent of a path member is itself a path member.
pub proof fn lemma_on_path_parent(t: int, w: int)
    requires
        on_path(t, w),
        w >= 2,
    ensures
        on_path(t, w / 2),
    decreases t,
{
    if w == t {
        assert(on_path(t / 2, t / 2));
    } else {
        lemma_on_path_parent(t / 2, w);
        lemma_on_path_bounds(t / 2, w / 2);
    }
}

/// Dividing twice by powers of two composes.
pub proof fn lemma_div_pow2_add(x: int, a: nat, b: nat)
    requires
        0 <= x,
    ensures
        x / pow2(a) as int / pow2(b) as int == x / pow2(a + b) as int,
{
    vstd::arithmetic::power2::lemma_pow2_pos(a);
    vstd::arithmetic::power2::lemma_pow2_pos(b);
    vstd::arithmetic::power2::lemma_pow2_adds(a, b);
    lemma_div_denominator(x, pow2(a) as int, pow2(b) as int);
}

/// If `2^(a + b)` divides `x` evenly then so does `2^a`.
pub proof fn lemma_pow2_divides_down(x: int, a: nat, b: nat)
    requires
        0 <= x,
        x % pow2(a + b) as int == 0,
    ensures
        x % pow2(a) as int == 0,
{
    vstd::arithmetic::power2::lemma_pow2_pos(a);
    vstd::arithmetic::power2::lemma_pow2_pos(b);
    vstd::arithmetic::power2::lemma_pow2_adds(a, b);
    lemma_mod_breakdown(x, pow2(a) as int, pow2(b) as int);
}

/// Characterization of floor division by a positive divisor.
pub proof fn lemma_div_char(x: int, d: int, q: int)
    requires
        d >= 1,
        q * d <= x < (q + 1) * d,
    ensures
        x / d == q,
{
    lemma_fundamental_div_mod(x, d);
    assert((q + 1) * d == q * d + d) by (nonlinear_arith);
    vstd::arithmetic::div_mod::lemma_fundamental_div_mod_converse(x, d, q, x - q * d);
}


/// A node index has a unique height placing its block inside `[m, 2m)`.
pub proof fn lemma_canonical_exp(w: int, d: nat, s: nat, k: nat)
    requires
        1 <= w,
        pow2(k) <= w * pow2(d) < 2 * pow2(k),
        pow2(k) <= w * pow2(s) < 2 * pow2(k),
    ensures
        d == s,
{
    let m = pow2(k) as int;
    if d < s {
        vstd::arithmetic::power2::lemma_pow2_unfold(d + 1);
        if d + 1 < s {
            vstd::arithmetic::power2::lemma_pow2_strictly_increases(d + 1, s);
        }
        assert(w * pow2(s) >= 2 * (w * pow2(d))) by (nonlinear_arith)
            requires
                pow2(s) >= 2 * pow2(d),
                w >= 1,
        ;
    } else if s < d {
        vstd::arithmetic::power2::lemma_pow2_unfold(s + 1);
        if s + 1 < d {
            vstd::arithmetic::power2::lemma_pow2_strictly_increases(s + 1, d);
        }
        assert(w * pow2(d) >= 2 * (w * pow2(s))) by (nonlinear_arith)
            requires
                pow2(d) >= 2 * pow2(s),
                w >= 1,
        ;
    }
}

/// Rounding a position in `[m, 2m)` down to its height-`d` block keeps it
/// at or above `m`, because `m` is itself a multiple of `2^d`.
pub proof fn lemma_blocks_align(x: int, d: nat, k: nat)
    requires
        d <= k,
        pow2(k) <= x < 2 * pow2(k),
    ensures
        pow2(k) <= (x / pow2(d) as int) * pow2(d) as int,
        x / pow2(d) as int >= 1,
        (x / pow2(d) as int) * pow2(d) as int <= x,
        d <= k,
{
    let p = pow2(d) as int;
    let m = pow2(k) as int;
    vstd::arithmetic::power2::lemma_pow2_pos(d);
    vstd::arithmetic::power2::lemma_pow2_pos(k);
    lemma_fundamental_div_mod(x, p);
    vstd::arithmetic::div_mod::lemma_mod_bound(x, p);
    let q = x / p;
    // q * p > x - p >= m - p; q * p is a multiple of p, and so is m.
    vstd::arithmetic::power2::lemma_pow2_adds(d, (k - d) as nat);
    let c = pow2((k - d) as nat) as int;
    assert(m == p * c);
    if q * p < m {
        assert(q < c) by (nonlinear_arith)
            requires
                q * p < c * p,
                p >= 1,
        ;
        assert((q + 1) * p <= c * p) by (nonlinear_arith)
            requires
                q + 1 <= c,
                p >= 1,
        ;
        assert((q + 1) * p == q * p + p) by (nonlinear_arith);
    }
    vstd::arithmetic::power2::lemma_pow2_pos((k - d) as nat);
    assert(q >= 1) by (nonlinear_arith)
        requires
            q * p >= p * c,
            p >= 1,
            c >= 1,
            q * p <= x,
    ;
}

/// A node covering a leaf block that contains `t` is an ancestor of `t`.
pub proof fn lemma_block_to_path(t: int, w: int, s: nat, k: nat)
    requires
        1 <= w,
        pow2(k) <= t < 2 * pow2(k),
        w * pow2(s) <= t < (w + 1) * pow2(s),
    ensures
        on_path(t, w),
        w == t / pow2(s) as int,
{
    vstd::arithmetic::power2::lemma_pow2_pos(s);
    lemma_div_char(t, pow2(s) as int, w);
    lemma_on_path_div(t, s);
}

/// An ancestor of `t` covers the height-`s` leaf block containing `t`,
/// where `s` is the ancestor's canonical height.
pub proof fn lemma_path_to_block(t: int, w: int, s: nat, k: nat)
    requires
        on_path(t, w),
        pow2(k) <= t < 2 * pow2(k),
        pow2(k) <= w * pow2(s) < 2 * pow2(k),
    ensures
        w * pow2(s) <= t < (w + 1) * pow2(s),
        w == t / pow2(s) as int,
{
    let m = pow2(k) as int;
    let d = lemma_on_path_height(t, w);
    let p = pow2(d) as int;
    vstd::arithmetic::power2::lemma_pow2_pos(d);
    lemma_fundamental_div_mod(t, p);
    vstd::arithmetic::div_mod::lemma_mod_bound(t, p);
    lemma_on_path_bounds(t, w);
    // d <= k since 2^d <= w * 2^d <= t < 2^(k+1)
    assert(p <= w * p) by (nonlinear_arith)
        requires
            w >= 1,
            p >= 1,
    ;
    assert(d <= k) by {
        if d > k {
            vstd::arithmetic::power2::lemma_pow2_unfold(k + 1);
            if k + 1 < d {
                vstd::arithmetic::power2::lemma_pow2_strictly_increases(k + 1, d);
            }
        }
    }
    lemma_blocks_align(t, d, k);
    assert((w + 1) * p == w * p + p) by (nonlinear_arith);
    lemma_canonical_exp(w, d, s, k);
}

/// When `b` is not a block boundary, stepping back one leaf stays in the
/// same block.
pub proof fn lemma_pred_div(b: int, d: int)
    requires
        d >= 1,
        b % d != 0,
        b >= 1,
    ensures
        (b - 1) / d == b / d,
{
    lemma_fundamental_div_mod(b, d);
    vstd::arithmetic::div_mod::lemma_mod_bound(b, d);
    assert((b / d) * d == d * (b / d)) by (nonlinear_arith);
    assert((b / d + 1) * d == (b / d) * d + d) by (nonlinear_arith);
    lemma_div_char(b - 1, d, b / d);
}

/// A strict ancestor of the node reached by the climbing left boundary is
/// a misaligned ancestor of the original boundary leaf.
///
/// Here `a` is the original boundary (a leaf index), `w` is the current
/// boundary node at height `s` (the ceiling of `a / 2^s`, and odd), and
/// `u` is a strict ancestor of `w`.  The returned height `h` locates `u`
/// on the boundary leaf's own ancestor chain, at a height where the leaf
/// is not aligned.
pub proof fn lemma_walk_anc_left(a: int, s: nat, w: int, u: int, k: nat) -> (h: nat)
    requires
        pow2(k) <= a < 2 * pow2(k),
        1 <= w,
        w % 2 == 1,
        w * pow2(s) >= a,
        (w - 1) * pow2(s) < a,
        w * pow2(s) < 2 * pow2(k),
        on_path(w, u),
        u != w,
    ensures
        s < h <= k,
        u == a / pow2(h) as int,
        a % pow2(h) as int != 0,
{
    let p = pow2(s) as int;
    vstd::arithmetic::power2::lemma_pow2_pos(s);
    vstd::arithmetic::power2::lemma_pow2_unfold(s + 1);
    let p2 = pow2(s + 1) as int;
    // a is not aligned at height s + 1
    assert(a % p2 != 0) by {
        if a % p2 == 0 {
            let c = a / p2;
            lemma_fundamental_div_mod(a, p2);
            assert(c * p2 == p2 * c) by (nonlinear_arith);
            assert(a == c * p2);
            assert((2 * c) * p == c * p2) by (nonlinear_arith)
                requires
                    p2 == 2 * p,
            ;
            // w * p >= 2c * p and (w - 1) * p < 2c * p forces w == 2c, even
            assert(w >= 2 * c) by (nonlinear_arith)
                requires
                    w * p >= (2 * c) * p,
                    p >= 1,
            ;
            assert(w - 1 < 2 * c) by (nonlinear_arith)
                requires
                    (w - 1) * p < (2 * c) * p,
                    p >= 1,
            ;
        }
    }
    // w / 2 == a / 2^(s+1)
    assert((w / 2) * p2 == (w - 1) * p) by (nonlinear_arith)
        requires
            w % 2 == 1,
            p2 == 2 * p,
            w >= 1,
    ;
    assert((w / 2 + 1) * p2 == (w + 1) * p) by (nonlinear_arith)
        requires
            w % 2 == 1,
            p2 == 2 * p,
            w >= 1,
    ;
    assert((w + 1) * p == w * p + p) by (nonlinear_arith);
    lemma_div_char(a, p2, w / 2);
    // u is on the path of w / 2
    lemma_on_path_strict(w, u);
    let d = lemma_on_path_height(w / 2, u);
    lemma_div_pow2_add(a, s + 1, d);
    let h = (s + 1 + d) as nat;
    assert(u == a / pow2(h) as int);
    // misalignment propagates upward
    assert(a % pow2(h) as int != 0) by {
        if a % pow2(h) as int == 0 {
            lemma_pow2_divides_down(a, s + 1, d);
        }
    }
    // h <= k since u >= 1 implies 2^h <= a < 2^(k+1)
    lemma_on_path_bounds(w / 2, u);
    vstd::arithmetic::power2::lemma_pow2_pos(h);
    assert(h <= k) by {
        if h > k {
            vstd::arithmetic::power2::lemma_pow2_unfold(k + 1);
            if k + 1 < h {
                vstd::arithmetic::power2::lemma_pow2_strictly_increases(k + 1, h);
            }
            assert(pow2(h) >= 2 * pow2(k));
            vstd::arithmetic::div_mod::lemma_basic_div(a, pow2(h) as int);
        }
    }
    h
}

/// The mirror image of [`lemma_walk_anc_left`] for the right boundary.
///
/// Here `b` is the original right boundary, `w` is the node just folded
/// on the right at height `s` (so `w + 1` is odd and is the floor of
/// `b / 2^s`), and `u` is a strict ancestor of `w`.
pub proof fn lemma_walk_anc_right(b: int, s: nat, w: int, u: int, k: nat) -> (h: nat)
    requires
        pow2(k) <= b <= 2 * pow2(k),
        b - 1 >= pow2(k),
        1 <= w,
        (w + 1) % 2 == 1,
        (w + 1) * pow2(s) <= b,
        (w + 2) * pow2(s) > b,
        w * pow2(s) >= pow2(k),
        on_path(w, u),
        u != w,
    ensures
        s < h <= k,
        u == (b - 1) / pow2(h) as int,
        b % pow2(h) as int != 0,
    decreases 0int,
{
    let p = pow2(s) as int;
    vstd::arithmetic::power2::lemma_pow2_pos(s);
    vstd::arithmetic::power2::lemma_pow2_unfold(s + 1);
    let p2 = pow2(s + 1) as int;
    assert(b % p2 != 0) by {
        if b % p2 == 0 {
            let c = b / p2;
            lemma_fundamental_div_mod(b, p2);
            assert(c * p2 == p2 * c) by (nonlinear_arith);
            assert(b == c * p2);
            assert((2 * c) * p == c * p2) by (nonlinear_arith)
                requires
                    p2 == 2 * p,
            ;
            assert(w + 1 <= 2 * c) by (nonlinear_arith)
                requires
                    (w + 1) * p <= (2 * c) * p,
                    p >= 1,
            ;
            assert(2 * c < w + 2) by (nonlinear_arith)
                requires
                    (2 * c) * p < (w + 2) * p,
                    p >= 1,
            ;
        }
    }
    // w / 2 == (b - 1) / 2^(s+1)
    assert(w % 2 == 0);
    assert((w / 2) * p2 == w * p) by (nonlinear_arith)
        requires
            w % 2 == 0,
            p2 == 2 * p,
            w >= 0,
    ;
    assert((w / 2 + 1) * p2 == (w + 2) * p) by (nonlinear_arith)
        requires
            w % 2 == 0,
            p2 == 2 * p,
            w >= 0,
    ;
    assert((w + 1) * p == w * p + p) by (nonlinear_arith);
    assert((w + 2) * p == w * p + 2 * p) by (nonlinear_arith);
    lemma_div_char(b - 1, p2, w / 2);
    lemma_on_path_strict(w, u);
    let d = lemma_on_path_height(w / 2, u);
    lemma_div_pow2_add(b - 1, s + 1, d);
    let h = (s + 1 + d) as nat;
    assert(u == (b - 1) / pow2(h) as int);
    assert(b % pow2(h) as int != 0) by {
        if b % pow2(h) as int == 0 {
            lemma_pow2_divides_down(b, s + 1, d);
        }
    }
    lemma_on_path_bounds(w / 2, u);
    vstd::arithmetic::power2::lemma_pow2_pos(h);
    assert(h <= k) by {
        if h > k {
            vstd::arithmetic::power2::lemma_pow2_unfold(k + 1);
            if k + 1 < h {
                vstd::arithmetic::power2::lemma_pow2_strictly_increases(k + 1, h);
            }
            vstd::arithmetic::div_mod::lemma_basic_div(b - 1, pow2(h) as int);
        }
    }
    h
}


/// Monotonicity of `pow2`.
pub proof fn lemma_pow2_le(e1: nat, e2: nat)
    requires
        e1 <= e2,
    ensures
        pow2(e1) <= pow2(e2),
{
    if e1 < e2 {
        vstd::arithmetic::power2::lemma_pow2_strictly_increases(e1, e2);
    }
}

} // verus!

//! Dual segment tree: range apply, point read.
//!
//! Only pending actions are stored on the internal nodes; the leaves keep
//! raw values.  A point read composes the pending actions on the leaf's
//! path to the root; a range apply first pushes down any pending action
//! sitting on a node that the range boundary would split, then merges the
//! new action into the `O(log n)` nodes covering the range.

use vstd::prelude::*;
use vstd::arithmetic::power2::pow2;

use crate::algebra::Monoid;
use crate::segtree::next_pow2;
use crate::segtree::paths::{
    lemma_merge_at, lemma_path_comp_clean, lemma_push_preserves, path_comp,
};
use crate::treemath::{
    lemma_block_to_path, lemma_blocks_align, lemma_canonical_exp, lemma_div_char,
    lemma_on_path_bounds, lemma_path_to_block, lemma_pred_div, lemma_walk_anc_left,
    lemma_walk_anc_right, on_path,
};

verus! {

/// An action monoid: the monoid's values transform values of a carrier
/// type `X`, compatibly with composition and the identity.
///
/// `spec_op(g, f)` is the action "first `f`, then `g`": the later action
/// composes on the left.
pub trait MonoidAction: Monoid {
    /// The type of values being acted upon.
    type X: Copy;

    /// The action of `f` on `x`, at the specification level.
    spec fn spec_apply(x: Self::X, f: Self) -> Self::X;

    /// The identity action leaves every value unchanged.
    proof fn lemma_apply_identity(x: Self::X)
        ensures
            Self::spec_apply(x, Self::spec_e()) == x,
    ;

    /// Acting twice is acting once with the composition.
    proof fn lemma_apply_compose(x: Self::X, f: Self, g: Self)
        ensures
            Self::spec_apply(Self::spec_apply(x, f), g) == Self::spec_apply(
                x,
                Self::spec_op(g, f),
            ),
    ;

    /// The action of `f` on `x`.
    fn apply(x: &Self::X, f: &Self) -> (r: Self::X)
        ensures
            r == Self::spec_apply(*x, *f),
    ;
}

/// Every ancestor of leaf position `x` at a height in `(vlow, k]` where
/// the boundary `b` is misaligned holds the identity action.
pub(crate) open spec fn cleared_in<F: Monoid>(ms: Seq<F>, b: int, x: int, vlow: nat, k: nat) -> bool {
    forall|h: nat|
        vlow < h <= k && b % pow2(h) as int != 0 ==> ms[x / #[trigger] pow2(h) as int]
            == F::spec_e()
}

/// A misaligned right boundary is interior: the position one left of it
/// is still a leaf position.
pub(crate) proof fn lemma_rb_interior(rb: int, h: nat, k: nat)
    requires
        h <= k,
        pow2(k) <= rb <= 2 * pow2(k),
        rb % pow2(h) as int != 0,
    ensures
        pow2(k) <= rb - 1 < 2 * pow2(k),
{
    vstd::arithmetic::power2::lemma_pow2_pos(h);
    vstd::arithmetic::power2::lemma_pow2_adds(h, (k - h) as nat);
    vstd::arithmetic::div_mod::lemma_mod_multiples_basic(pow2((k - h) as nat) as int, pow2(h) as int);
    assert(pow2(h) * pow2((k - h) as nat) == pow2((k - h) as nat) * pow2(h)) by (nonlinear_arith);
    assert(pow2(k) as int % pow2(h) as int == 0);
}

/// A misaligned left boundary is interior as well.
pub(crate) proof fn lemma_la_interior(la: int, h: nat, k: nat)
    requires
        h <= k,
        pow2(k) <= la <= 2 * pow2(k),
        la % pow2(h) as int != 0,
    ensures
        pow2(k) <= la < 2 * pow2(k),
{
    vstd::arithmetic::power2::lemma_pow2_pos(h);
    vstd::arithmetic::power2::lemma_pow2_adds(h, (k + 1 - h) as nat);
    vstd::arithmetic::div_mod::lemma_mod_multiples_basic(
        pow2((k + 1 - h) as nat) as int,
        pow2(h) as int,
    );
    assert(pow2(h) * pow2((k + 1 - h) as nat) == pow2((k + 1 - h) as nat) * pow2(h))
        by (nonlinear_arith);
    assert(pow2(k + 1) == 2 * pow2(k)) by {
        vstd::arithmetic::power2::lemma_pow2_unfold(k + 1);
    }
    assert((2 * pow2(k)) as int % pow2(h) as int == 0);
}

/// Index bounds for the boundary climb at height `v`: the ancestor of a
/// leaf position `x` sits in `[2^(k-v), 2^k)`, while every ancestor at a
/// greater height sits below `2^(k-v)`.
pub(crate) proof fn lemma_level_bounds(x: int, v: nat, k: nat)
    requires
        1 <= v <= k,
        pow2(k) <= x < 2 * pow2(k),
    ensures
        pow2((k - v) as nat) <= x / pow2(v) as int,
        (x / pow2(v) as int) < pow2(k) as int,
        forall|h: nat|
            v < h <= k ==> (x / #[trigger] pow2(h) as int) < pow2((k - v) as nat) as int,
{
    let p = pow2(v) as int;
    let m = pow2(k) as int;
    let q = pow2((k - v) as nat) as int;
    vstd::arithmetic::power2::lemma_pow2_pos(v);
    vstd::arithmetic::power2::lemma_pow2_pos(k);
    vstd::arithmetic::power2::lemma_pow2_pos((k - v) as nat);
    vstd::arithmetic::power2::lemma_pow2_adds((k - v) as nat, v);
    assert(m == q * p);
    vstd::arithmetic::div_mod::lemma_div_is_ordered(m, x, p);
    vstd::arithmetic::div_mod::lemma_div_by_multiple(q, p);
    assert(m / p == q);
    assert(2 * m == (2 * q) * p) by (nonlinear_arith)
        requires
            m == q * p,
    ;
    assert(p * (2 * q) == (2 * q) * p) by (nonlinear_arith);
    vstd::arithmetic::div_mod::lemma_multiply_divide_lt(x, p, 2 * q);
    assert(2 * q <= m) by {
        vstd::arithmetic::power2::lemma_pow2_unfold((k - v + 1) as nat);
        crate::treemath::lemma_pow2_le((k - v + 1) as nat, k);
    }
    assert forall|h: nat| v < h <= k implies (x / #[trigger] pow2(h) as int) < pow2(
        (k - v) as nat,
    ) as int by {
        let pv1 = pow2(v + 1) as int;
        let ph = pow2(h) as int;
        vstd::arithmetic::power2::lemma_pow2_pos(h);
        vstd::arithmetic::power2::lemma_pow2_pos(v + 1);
        crate::treemath::lemma_pow2_le(v + 1, h);
        vstd::arithmetic::div_mod::lemma_div_is_ordered_by_denominator(x, pv1, ph);
        assert(pow2((k - v) as nat) * pow2(v + 1) == 2 * m) by {
            vstd::arithmetic::power2::lemma_pow2_adds((k - v) as nat, v + 1);
            vstd::arithmetic::power2::lemma_pow2_unfold(k + 1);
        }
        assert(pv1 * q == q * pv1) by (nonlinear_arith);
        vstd::arithmetic::div_mod::lemma_multiply_divide_lt(x, pv1, q);
    }
}

/// The boundary ancestor at height `v` sits below `2^(k-v+1)`.
pub(crate) proof fn lemma_level_upper(x: int, v: nat, k: nat)
    requires
        1 <= v <= k,
        pow2(k) <= x < 2 * pow2(k),
    ensures
        (x / pow2(v) as int) < pow2((k - v + 1) as nat) as int,
{
    let p = pow2(v) as int;
    let q = pow2((k - v + 1) as nat) as int;
    vstd::arithmetic::power2::lemma_pow2_pos(v);
    vstd::arithmetic::power2::lemma_pow2_pos((k - v + 1) as nat);
    assert(p * q == 2 * pow2(k)) by {
        vstd::arithmetic::power2::lemma_pow2_adds(v, (k - v + 1) as nat);
        vstd::arithmetic::power2::lemma_pow2_unfold(k + 1);
    }
    vstd::arithmetic::div_mod::lemma_multiply_divide_lt(x, p, q);
}

/// Dual segment tree: range apply and point read, both in `O(log n)`.
pub struct DualSegTree<T: MonoidAction> {
    n: usize,
    m: usize,
    k: usize,
    vals: Vec<T::X>,
    maps: Vec<T>,
}

impl<T: MonoidAction> View for DualSegTree<T> {
    type V = Seq<T::X>;

    /// The abstract contents: each raw leaf with every pending action on
    /// its root path applied, deepest first.
    closed spec fn view(&self) -> Seq<T::X> {
        Seq::new(
            self.n as nat,
            |j: int| T::spec_apply(self.vals@[j], path_comp(self.maps@, self.m + j)),
        )
    }
}

impl<T: MonoidAction> DualSegTree<T> {
    /// Structural well-formedness.
    pub closed spec fn inv(&self) -> bool {
        &&& self.m == pow2(self.k as nat)
        &&& self.n <= self.m
        &&& 1 <= self.m
        &&& self.m <= usize::MAX / 2
        &&& self.vals@.len() == self.n
        &&& self.maps@.len() == 2 * self.m
    }

    /// Create a tree of `n` leaves, all holding `ini`, with no pending
    /// actions.
    pub fn new(n: usize, ini: &T::X) -> (r: Self)
        requires
            n <= usize::MAX / 4,
        ensures
            r.inv(),
            r@ == Seq::new(n as nat, |j: int| *ini),
    {
        let mut vals: Vec<T::X> = Vec::new();
        let mut i: usize = 0;
        while i < n
            invariant
                i <= n,
                vals@.len() == i,
                forall|j: int| 0 <= j < i ==> vals@[j] == *ini,
            decreases n - i,
        {
            vals.push(*ini);
            i = i + 1;
        }
        let r = Self::assemble(n, vals);
        proof {
            assert(r@ =~= Seq::new(n as nat, |j: int| *ini));
        }
        r
    }

    /// Build a tree holding exactly the values of `a`, with no pending
    /// actions.
    pub fn from_vec(a: Vec<T::X>) -> (r: Self)
        requires
            a@.len() <= usize::MAX / 4,
        ensures
            r.inv(),
            r@ == a@,
    {
        let n = a.len();
        Self::assemble(n, a)
    }

    /// Shared constructor tail: wrap `vals` with an all-identity action
    /// tree.
    fn assemble(n: usize, vals: Vec<T::X>) -> (r: Self)
        requires
            n <= usize::MAX / 4,
            vals@.len() == n,
        ensures
            r.inv(),
            r@ == vals@,
    {
        let ghost vseq = vals@;
        let (m, k) = next_pow2(n);
        let mut maps: Vec<T> = Vec::new();
        let mut i: usize = 0;
        while i < 2 * m
            invariant
                i <= 2 * m,
                m <= usize::MAX / 2,
                maps@.len() == i,
                forall|j: int| 0 <= j < i ==> maps@[j] == T::spec_e(),
            decreases 2 * m - i,
        {
            maps.push(T::e());
            i = i + 1;
        }
        let r = DualSegTree { n, m, k, vals, maps };
        proof {
            assert forall|j: int| 0 <= j < n implies r@[j] == r.vals@[j] by {
                assert forall|u: int| #[trigger] on_path(m + j, u) implies r.maps@[u]
                    == T::spec_e() by {
                    lemma_on_path_bounds(m + j, u);
                }
                lemma_path_comp_clean(r.maps@, m + j);
                T::lemma_apply_identity(r.vals@[j]);
            }
            assert(r@ =~= vseq);
        }
        r
    }

    /// Read the value at index `i`, with all pending actions applied.
    pub fn get(&self, i: usize) -> (r: T::X)
        requires
            self.inv(),
            i < self@.len(),
        ensures
            r == self@[i as int],
    {
        let ghost m = self.m as int;
        let mut val = self.vals[i];
        let mut idx = i + self.m;
        while idx >= 1
            invariant
                self.inv(),
                i < self.n,
                m == self.m as int,
                idx < 2 * self.m,
                T::spec_apply(self.vals@[i as int], path_comp(self.maps@, m + i)) == T::spec_apply(
                    val,
                    path_comp(self.maps@, idx as int),
                ),
            decreases idx,
        {
            let ghost prev = val;
            val = T::apply(&val, &self.maps[idx]);
            proof {
                T::lemma_apply_compose(prev, self.maps@[idx as int], path_comp(
                    self.maps@,
                    idx as int / 2,
                ));
            }
            idx = idx / 2;
        }
        proof {
            T::lemma_apply_identity(val);
        }
        val
    }

    /// Push the pending action at node `w` into its two children.
    fn push_at(&mut self, w: usize)
        requires
            old(self).inv(),
            1 <= w < old(self).m,
        ensures
            final(self).inv(),
            final(self).n == old(self).n,
            final(self).m == old(self).m,
            final(self).k == old(self).k,
            final(self).vals@ == old(self).vals@,
            final(self).maps@ == old(self).maps@.update(w as int, T::spec_e()).update(
                2 * w as int,
                T::spec_op(old(self).maps@[w as int], old(self).maps@[2 * w as int]),
            ).update(
                2 * w + 1 as int,
                T::spec_op(old(self).maps@[w as int], old(self).maps@[2 * w + 1 as int]),
            ),
            final(self)@ == old(self)@,
    {
        let ghost m = self.m as int;
        let g = self.maps[w];
        self.maps[w] = T::e();
        let c1 = T::op(&g, &self.maps[2 * w]);
        self.maps[2 * w] = c1;
        let c2 = T::op(&g, &self.maps[2 * w + 1]);
        self.maps[2 * w + 1] = c2;
        proof {
            assert(self.maps@ =~= old(self).maps@.update(w as int, T::spec_e()).update(
                2 * w as int,
                T::spec_op(old(self).maps@[w as int], old(self).maps@[2 * w as int]),
            ).update(
                2 * w + 1 as int,
                T::spec_op(old(self).maps@[w as int], old(self).maps@[2 * w + 1 as int]),
            ));
            assert forall|j: int| 0 <= j < self.n as int implies self@[j] == old(self)@[j] by {
                lemma_push_preserves::<T>(old(self).maps@, self.maps@, w as int, m + j);
            }
            assert(self@ =~= old(self)@);
        }
    }

    /// After a push at a height-`v` boundary ancestor, every cleared
    /// entry at a greater height is untouched.
    proof fn cleared_preserved(&self, pre: Seq<T>, la: int, rb: int, v: nat, w: int)
        requires
            self.inv(),
            1 <= v <= self.k as nat,
            pow2(self.k as nat) <= la <= 2 * pow2(self.k as nat),
            pow2(self.k as nat) <= rb <= 2 * pow2(self.k as nat),
            pow2((self.k as nat - v) as nat) <= w,
            w < pow2(self.k as nat),
            pre.len() == self.maps@.len(),
            self.maps@ == pre.update(w, T::spec_e()).update(
                2 * w,
                T::spec_op(pre[w], pre[2 * w]),
            ).update(2 * w + 1, T::spec_op(pre[w], pre[2 * w + 1])),
            cleared_in(pre, la, la, v, self.k as nat),
            cleared_in(pre, rb, rb - 1, v, self.k as nat),
        ensures
            cleared_in(self.maps@, la, la, v, self.k as nat),
            cleared_in(self.maps@, rb, rb - 1, v, self.k as nat),
    {
        let k = self.k as nat;
        let q = pow2((k - v) as nat) as int;
        assert forall|h: nat|
            v < h <= k && la % pow2(h) as int != 0 implies self.maps@[la / #[trigger] pow2(
            h,
        ) as int] == T::spec_e() by {
            lemma_la_interior(la, h, k);
            lemma_level_bounds(la, v, k);
            let u = la / pow2(h) as int;
            assert(u < q);
            vstd::arithmetic::power2::lemma_pow2_pos(h);
            vstd::arithmetic::div_mod::lemma_div_pos_is_pos(la, pow2(h) as int);
            assert(pre[u] == T::spec_e());
            assert(0 <= u < w);
            assert(u != w && u != 2 * w && u != 2 * w + 1);
            assert(self.maps@[u] == pre[u]);
        }
        assert forall|h: nat|
            v < h <= k && rb % pow2(h) as int != 0 implies self.maps@[(rb - 1) / #[trigger] pow2(
            h,
        ) as int] == T::spec_e() by {
            lemma_rb_interior(rb, h, k);
            lemma_level_bounds(rb - 1, v, k);
            let u = (rb - 1) / pow2(h) as int;
            assert(u < q);
            vstd::arithmetic::power2::lemma_pow2_pos(h);
            vstd::arithmetic::div_mod::lemma_div_pos_is_pos(rb - 1, pow2(h) as int);
            assert(pre[u] == T::spec_e());
            assert(0 <= u < w);
            assert(u != w && u != 2 * w && u != 2 * w + 1);
            assert(self.maps@[u] == pre[u]);
        }
    }

    /// Push down every pending action on a node that the boundaries of
    /// `[l, r)` would split, top-down.
    fn push_boundaries(&mut self, l: usize, r: usize)
        requires
            old(self).inv(),
            l <= r,
            r <= old(self).n,
        ensures
            final(self).inv(),
            final(self).n == old(self).n,
            final(self).m == old(self).m,
            final(self).k == old(self).k,
            final(self).vals@ == old(self).vals@,
            final(self)@ == old(self)@,
            cleared_in(final(self).maps@, l + final(self).m as int, l + final(self).m as int, 0, final(self).k as nat),
            cleared_in(
                final(self).maps@,
                r + final(self).m as int,
                r + final(self).m as int - 1,
                0,
                final(self).k as nat,
            ),
    {
        let ghost m = self.m as int;
        let ghost kk = self.k as nat;
        let la = l + self.m;
        let rb = r + self.m;
        let mut v: usize = self.k;
        let mut p: usize = self.m;
        while v >= 1
            invariant
                self.inv(),
                self.n == old(self).n,
                self.m == old(self).m,
                self.k == old(self).k,
                self.vals@ == old(self).vals@,
                self@ == old(self)@,
                m == self.m as int,
                kk == self.k as nat,
                l <= r <= self.n,
                la == l + m,
                rb == r + m,
                v <= self.k,
                p == pow2(v as nat),
                cleared_in(self.maps@, la as int, la as int, v as nat, kk),
                cleared_in(self.maps@, rb as int, rb as int - 1, v as nat, kk),
            decreases v,
        {
            let ghost vn = v as nat;
            let ghost pre0 = self.maps@;
            proof {
                vstd::arithmetic::power2::lemma_pow2_pos(vn);
            }
            let doa = la % p != 0;
            if doa {
                proof {
                    lemma_la_interior(la as int, vn, kk);
                    lemma_level_bounds(la as int, vn, kk);
                    vstd::arithmetic::power2::lemma_pow2_pos((kk - vn) as nat);
                }
                let w = la / p;
                self.push_at(w);
                proof {
                    self.cleared_preserved(pre0, la as int, rb as int, vn, w as int);
                }
            }
            let ghost pre1 = self.maps@;
            let dob = rb % p != 0;
            if dob {
                proof {
                    lemma_rb_interior(rb as int, vn, kk);
                    lemma_level_bounds(rb as int - 1, vn, kk);
                    vstd::arithmetic::power2::lemma_pow2_pos((kk - vn) as nat);
                }
                let w2 = (rb - 1) / p;
                self.push_at(w2);
                proof {
                    self.cleared_preserved(pre1, la as int, rb as int, vn, w2 as int);
                }
            }
            proof {
                vstd::arithmetic::power2::lemma_pow2_pos((kk - vn) as nat);
                vstd::arithmetic::power2::lemma_pow2_unfold((kk - vn + 1) as nat);
                let wa = la as int / pow2(vn) as int;
                let wb = (rb as int - 1) / pow2(vn) as int;
                if doa {
                    lemma_la_interior(la as int, vn, kk);
                    lemma_level_bounds(la as int, vn, kk);
                    lemma_level_upper(la as int, vn, kk);
                    assert(pre1[wa] == T::spec_e());
                    if dob {
                        lemma_rb_interior(rb as int, vn, kk);
                        lemma_level_bounds(rb as int - 1, vn, kk);
                        if wa != wb {
                            assert(wa < 2 * wb && wa < 2 * wb + 1);
                        }
                        assert(self.maps@[wa] == T::spec_e());
                    } else {
                        assert(self.maps@[wa] == T::spec_e());
                    }
                }
                if dob {
                    assert(self.maps@[wb] == T::spec_e());
                }
                assert forall|h: nat|
                    ((vn - 1) as nat) < h <= kk && la as int % pow2(h) as int != 0 implies
                    self.maps@[la as int / #[trigger] pow2(h) as int] == T::spec_e() by {
                    if h > vn {
                    } else {
                        assert(h == vn);
                        assert(doa);
                    }
                }
                assert forall|h: nat|
                    ((vn - 1) as nat) < h <= kk && rb as int % pow2(h) as int != 0 implies
                    self.maps@[(rb as int - 1) / #[trigger] pow2(h) as int] == T::spec_e() by {
                    if h > vn {
                    } else {
                        assert(h == vn);
                        assert(dob);
                    }
                }
                vstd::arithmetic::power2::lemma_pow2_unfold(vn);
            }
            v = v - 1;
            p = p / 2;
        }
    }

    /// Effect of merging the new action onto a left-boundary cover node.
    proof fn merge_left_ok(
        &self,
        prev: Self,
        orig: Seq<T::X>,
        f: T,
        l: int,
        r: int,
        w: int,
        s: nat,
        hi: int,
    )
        requires
            self.inv(),
            prev.inv(),
            prev.n == self.n,
            prev.m == self.m,
            prev.k == self.k,
            prev.vals@ == self.vals@,
            0 <= l <= r <= self.n,
            orig.len() == self.n,
            w % 2 == 1,
            1 <= w,
            w * pow2(s) >= l + self.m,
            (w - 1) * pow2(s) < l + self.m,
            w < hi,
            hi * pow2(s) <= r + self.m,
            (hi + 1) * pow2(s) > r + self.m,
            self.maps@ == prev.maps@.update(w, T::spec_op(f, prev.maps@[w])),
            cleared_in(prev.maps@, l + self.m as int, l + self.m as int, 0, self.k as nat),
            cleared_in(prev.maps@, r + self.m as int, r + self.m as int - 1, 0, self.k as nat),
            forall|j: int|
                0 <= j < self.n as int ==> #[trigger] prev@[j] == (if (l <= j < w * pow2(s)
                    - self.m) || (hi * pow2(s) - self.m <= j < r) {
                    T::spec_apply(orig[j], f)
                } else {
                    orig[j]
                }),
        ensures
            cleared_in(self.maps@, l + self.m as int, l + self.m as int, 0, self.k as nat),
            cleared_in(self.maps@, r + self.m as int, r + self.m as int - 1, 0, self.k as nat),
            forall|j: int|
                0 <= j < self.n as int ==> #[trigger] self@[j] == (if (l <= j < (w + 1) * pow2(s)
                    - self.m) || (hi * pow2(s) - self.m <= j < r) {
                    T::spec_apply(orig[j], f)
                } else {
                    orig[j]
                }),
    {
        let m = self.m as int;
        let k = self.k as nat;
        let p = pow2(s) as int;
        let la = l + m;
        let rb = r + m;
        let pre = prev.maps@;
        vstd::arithmetic::power2::lemma_pow2_pos(s);
        assert((w + 1) * p == w * p + p) by (nonlinear_arith);
        assert((w + 1) * p <= hi * p) by (nonlinear_arith)
            requires
                w + 1 <= hi,
                p >= 1,
        ;
        assert(hi * p <= rb);
        assert(m <= w * p < 2 * m);
        assert(w <= w * p) by (nonlinear_arith)
            requires
                w >= 1,
                p >= 1,
        ;
        // Everything strictly above w is clean.
        assert forall|u: int| #[trigger] on_path(w, u) && u != w implies pre[u]
            == T::spec_e() by {
            let h = lemma_walk_anc_left(la, s, w, u, k);
            assert(pre[la / pow2(h) as int] == T::spec_e());
        }
        // Per-leaf effect of the merge.
        assert forall|j: int| 0 <= j < self.n as int implies #[trigger] self@[j] == (if (l <= j < (
        w + 1) * p - m) || (hi * p - m <= j < r) {
            T::spec_apply(orig[j], f)
        } else {
            orig[j]
        }) by {
            let t = m + j;
            assert(prev@[j] == T::spec_apply(self.vals@[j], path_comp(pre, t)));
            assert(self@[j] == T::spec_apply(self.vals@[j], path_comp(self.maps@, t)));
            lemma_merge_at(pre, self.maps@, w, f, t);
            if on_path(t, w) {
                lemma_path_to_block(t, w, s, k);
                assert(w * p - m <= j < (w + 1) * p - m);
                T::lemma_apply_compose(self.vals@[j], path_comp(pre, t), f);
                assert(prev@[j] == orig[j]);
            } else {
                if w * p - m <= j < (w + 1) * p - m {
                    lemma_block_to_path(t, w, s, k);
                }
                assert(self@[j] == prev@[j]);
            }
        }
        // The merged node is not one of the cleared boundary ancestors.
        assert forall|h: nat|
            0 < h <= k && la % pow2(h) as int != 0 implies self.maps@[la / #[trigger] pow2(
            h,
        ) as int] == T::spec_e() by {
            assert(pre[la / pow2(h) as int] == T::spec_e());
            vstd::arithmetic::power2::lemma_pow2_pos(h);
            vstd::arithmetic::div_mod::lemma_div_pos_is_pos(la, pow2(h) as int);
            vstd::arithmetic::div_mod::lemma_div_nonincreasing(la, pow2(h) as int);
            if la / pow2(h) as int == w {
                lemma_blocks_align(la, h, k);
                lemma_canonical_exp(w, h, s, k);
                vstd::arithmetic::div_mod::lemma_fundamental_div_mod(la, p);
                vstd::arithmetic::div_mod::lemma_mod_bound(la, p);
                assert((la / p) * p == p * (la / p)) by (nonlinear_arith);
                assert(w * p < la);
                assert(false);
            }
        }
        assert forall|h: nat|
            0 < h <= k && rb % pow2(h) as int != 0 implies self.maps@[(rb - 1) / #[trigger] pow2(
            h,
        ) as int] == T::spec_e() by {
            assert(pre[(rb - 1) / pow2(h) as int] == T::spec_e());
            vstd::arithmetic::power2::lemma_pow2_pos(h);
            vstd::arithmetic::div_mod::lemma_div_pos_is_pos(rb - 1, pow2(h) as int);
            vstd::arithmetic::div_mod::lemma_div_nonincreasing(rb - 1, pow2(h) as int);
            if (rb - 1) / pow2(h) as int == w {
                lemma_rb_interior(rb, h, k);
                lemma_blocks_align(rb - 1, h, k);
                lemma_canonical_exp(w, h, s, k);
                lemma_pred_div(rb, p);
                lemma_div_char(rb, p, hi);
                assert(false);
            }
        }
    }

    /// Effect of merging the new action onto a right-boundary cover node.
    proof fn merge_right_ok(
        &self,
        prev: Self,
        orig: Seq<T::X>,
        f: T,
        l: int,
        r: int,
        w: int,
        s: nat,
        lo: int,
    )
        requires
            self.inv(),
            prev.inv(),
            prev.n == self.n,
            prev.m == self.m,
            prev.k == self.k,
            prev.vals@ == self.vals@,
            0 <= l <= r <= self.n,
            orig.len() == self.n,
            (w + 1) % 2 == 1,
            1 <= w,
            lo <= w,
            1 <= lo,
            lo * pow2(s) >= l + self.m,
            (w + 1) * pow2(s) <= r + self.m,
            (w + 2) * pow2(s) > r + self.m,
            self.maps@ == prev.maps@.update(w, T::spec_op(f, prev.maps@[w])),
            cleared_in(prev.maps@, l + self.m as int, l + self.m as int, 0, self.k as nat),
            cleared_in(prev.maps@, r + self.m as int, r + self.m as int - 1, 0, self.k as nat),
            forall|j: int|
                0 <= j < self.n as int ==> #[trigger] prev@[j] == (if (l <= j < lo * pow2(s)
                    - self.m) || ((w + 1) * pow2(s) - self.m <= j < r) {
                    T::spec_apply(orig[j], f)
                } else {
                    orig[j]
                }),
        ensures
            cleared_in(self.maps@, l + self.m as int, l + self.m as int, 0, self.k as nat),
            cleared_in(self.maps@, r + self.m as int, r + self.m as int - 1, 0, self.k as nat),
            forall|j: int|
                0 <= j < self.n as int ==> #[trigger] self@[j] == (if (l <= j < lo * pow2(s)
                    - self.m) || (w * pow2(s) - self.m <= j < r) {
                    T::spec_apply(orig[j], f)
                } else {
                    orig[j]
                }),
    {
        let m = self.m as int;
        let k = self.k as nat;
        let p = pow2(s) as int;
        let la = l + m;
        let rb = r + m;
        let pre = prev.maps@;
        vstd::arithmetic::power2::lemma_pow2_pos(s);
        assert((w + 1) * p == w * p + p) by (nonlinear_arith);
        assert((w + 2) * p == w * p + 2 * p) by (nonlinear_arith);
        assert(lo * p <= w * p) by (nonlinear_arith)
            requires
                lo <= w,
                p >= 1,
        ;
        assert(m <= w * p < 2 * m);
        assert(rb - 1 >= la >= m);
        assert(w <= w * p) by (nonlinear_arith)
            requires
                w >= 1,
                p >= 1,
        ;
        // Everything strictly above w is clean.
        assert forall|u: int| #[trigger] on_path(w, u) && u != w implies pre[u]
            == T::spec_e() by {
            let h = lemma_walk_anc_right(rb, s, w, u, k);
            assert(pre[(rb - 1) / pow2(h) as int] == T::spec_e());
        }
        // Per-leaf effect of the merge.
        assert forall|j: int| 0 <= j < self.n as int implies #[trigger] self@[j] == (if (l <= j
            < lo * p - m) || (w * p - m <= j < r) {
            T::spec_apply(orig[j], f)
        } else {
            orig[j]
        }) by {
            let t = m + j;
            assert(prev@[j] == T::spec_apply(self.vals@[j], path_comp(pre, t)));
            assert(self@[j] == T::spec_apply(self.vals@[j], path_comp(self.maps@, t)));
            lemma_merge_at(pre, self.maps@, w, f, t);
            if on_path(t, w) {
                lemma_path_to_block(t, w, s, k);
                assert(w * p - m <= j < (w + 1) * p - m);
                T::lemma_apply_compose(self.vals@[j], path_comp(pre, t), f);
                assert(prev@[j] == orig[j]);
            } else {
                if w * p - m <= j < (w + 1) * p - m {
                    lemma_block_to_path(t, w, s, k);
                }
                assert(self@[j] == prev@[j]);
            }
        }
        // The merged node is not one of the cleared boundary ancestors.
        assert forall|h: nat|
            0 < h <= k && la % pow2(h) as int != 0 implies self.maps@[la / #[trigger] pow2(
            h,
        ) as int] == T::spec_e() by {
            assert(pre[la / pow2(h) as int] == T::spec_e());
            vstd::arithmetic::power2::lemma_pow2_pos(h);
            vstd::arithmetic::div_mod::lemma_div_pos_is_pos(la, pow2(h) as int);
            vstd::arithmetic::div_mod::lemma_div_nonincreasing(la, pow2(h) as int);
            if la / pow2(h) as int == w {
                lemma_la_interior(la, h, k);
                lemma_blocks_align(la, h, k);
                lemma_canonical_exp(w, h, s, k);
                vstd::arithmetic::div_mod::lemma_fundamental_div_mod(la, p);
                vstd::arithmetic::div_mod::lemma_mod_bound(la, p);
                assert((la / p) * p == p * (la / p)) by (nonlinear_arith);
                assert((la / p) * p < lo * p);
                assert(la / p < lo) by (nonlinear_arith)
                    requires
                        (la / p) * p < lo * p,
                        p >= 1,
                ;
                assert(false);
            }
        }
        assert forall|h: nat|
            0 < h <= k && rb % pow2(h) as int != 0 implies self.maps@[(rb - 1) / #[trigger] pow2(
            h,
        ) as int] == T::spec_e() by {
            assert(pre[(rb - 1) / pow2(h) as int] == T::spec_e());
            vstd::arithmetic::power2::lemma_pow2_pos(h);
            vstd::arithmetic::div_mod::lemma_div_pos_is_pos(rb - 1, pow2(h) as int);
            vstd::arithmetic::div_mod::lemma_div_nonincreasing(rb - 1, pow2(h) as int);
            if (rb - 1) / pow2(h) as int == w {
                lemma_rb_interior(rb, h, k);
                lemma_blocks_align(rb - 1, h, k);
                lemma_canonical_exp(w, h, s, k);
                lemma_pred_div(rb, p);
                lemma_div_char(rb, p, w + 1);
                assert(false);
            }
        }
    }

    /// Apply `f` to every index in the half-open range `[l, r)`.
    pub fn range_apply(&mut self, l: usize, r: usize, f: &T)
        requires
            old(self).inv(),
            l <= r,
            r <= old(self)@.len(),
        ensures
            final(self).inv(),
            final(self)@.len() == old(self)@.len(),
            forall|j: int|
                0 <= j < old(self)@.len() ==> final(self)@[j] == (if l <= j < r {
                    T::spec_apply(old(self)@[j], *f)
                } else {
                    old(self)@[j]
                }),
    {
        let ghost m = self.m as int;
        let ghost kk = self.k as nat;
        let ghost orig = old(self)@;
        let la = l + self.m;
        let rb = r + self.m;
        self.push_boundaries(l, r);
        let mut lo = la;
        let mut hi = rb;
        let ghost mut s: nat = 0;
        proof {
            assert(pow2(0) == 1) by {
                vstd::arithmetic::power2::lemma2_to64();
            }
            assert(lo as int * pow2(0) == lo as int) by (nonlinear_arith)
                requires
                    pow2(0) == 1,
            ;
            assert(hi as int * pow2(0) == hi as int) by (nonlinear_arith)
                requires
                    pow2(0) == 1,
            ;
        }
        while lo < hi
            invariant
                self.inv(),
                self.n == old(self).n,
                self.m == old(self).m,
                self.k == old(self).k,
                self.vals@ == old(self).vals@,
                m == self.m as int,
                kk == self.k as nat,
                l <= r <= self.n,
                la == l + m,
                rb == r + m,
                orig.len() == self.n,
                1 <= lo,
                lo <= hi,
                lo * pow2(s) >= la,
                (lo - 1) * pow2(s) < la,
                hi * pow2(s) <= rb,
                (hi + 1) * pow2(s) > rb,
                cleared_in(self.maps@, la as int, la as int, 0, kk),
                cleared_in(self.maps@, rb as int, rb as int - 1, 0, kk),
                forall|j: int|
                    0 <= j < self.n as int ==> #[trigger] self@[j] == (if (l <= j < lo * pow2(s)
                        - m) || (hi * pow2(s) - m <= j < r) {
                        T::spec_apply(orig[j], *f)
                    } else {
                        orig[j]
                    }),
            decreases hi,
        {
            let ghost p = pow2(s) as int;
            proof {
                vstd::arithmetic::power2::lemma_pow2_pos(s);
                assert(hi <= hi * p) by (nonlinear_arith)
                    requires
                        p >= 1,
                        hi >= 0,
                ;
                assert(lo * p <= hi * p) by (nonlinear_arith)
                    requires
                        lo <= hi,
                        p >= 1,
                ;
            }
            if lo % 2 == 1 {
                let ghost prev = *self;
                let newm = T::op(f, &self.maps[lo]);
                self.maps[lo] = newm;
                proof {
                    self.merge_left_ok(prev, orig, *f, l as int, r as int, lo as int, s, hi as int);
                    assert((lo + 1) * p == lo * p + p) by (nonlinear_arith);
                }
                lo = lo + 1;
            }
            if hi % 2 == 1 {
                hi = hi - 1;
                let ghost prev = *self;
                let newm = T::op(f, &self.maps[hi]);
                self.maps[hi] = newm;
                proof {
                    self.merge_right_ok(prev, orig, *f, l as int, r as int, hi as int, s, lo as int);
                    assert((hi + 1) * p == hi * p + p) by (nonlinear_arith);
                    assert((hi + 2) * p == hi * p + 2 * p) by (nonlinear_arith);
                }
            }
            proof {
                let lov = lo as int;
                let hv = hi as int;
                vstd::arithmetic::power2::lemma_pow2_unfold(s + 1);
                assert((lov / 2) * pow2(s + 1) == lov * p) by (nonlinear_arith)
                    requires
                        lov % 2 == 0,
                        pow2(s + 1) == 2 * p,
                ;
                assert((lov / 2 - 1) * pow2(s + 1) == (lov - 2) * p) by (nonlinear_arith)
                    requires
                        lov % 2 == 0,
                        pow2(s + 1) == 2 * p,
                ;
                assert((lov - 2) * p <= (lov - 1) * p) by (nonlinear_arith)
                    requires
                        p >= 0,
                ;
                assert((lov - 1) * p <= lov * p) by (nonlinear_arith)
                    requires
                        p >= 0,
                ;
                assert((hv / 2) * pow2(s + 1) == hv * p) by (nonlinear_arith)
                    requires
                        hv % 2 == 0,
                        pow2(s + 1) == 2 * p,
                ;
                assert((hv / 2 + 1) * pow2(s + 1) == (hv + 2) * p) by (nonlinear_arith)
                    requires
                        hv % 2 == 0,
                        pow2(s + 1) == 2 * p,
                ;
                assert((hv + 1) * p <= (hv + 2) * p) by (nonlinear_arith)
                    requires
                        p >= 0,
                ;
                s = s + 1;
            }
            lo = lo / 2;
            hi = hi / 2;
        }
    }
}

} // verus!

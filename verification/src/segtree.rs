//! Point-update, range-fold segment tree over an arbitrary monoid.
//!
//! Values live in the leaves of an implicit complete binary tree stored in
//! a flat array; every internal node caches the fold of its two children,
//! so a fold over any contiguous range can be assembled from `O(log n)`
//! cached nodes.

pub mod dual;
pub(crate) mod paths;
pub mod lazy;

use vstd::prelude::*;
use vstd::arithmetic::power2::pow2;

use crate::algebra::Monoid;
use crate::folds::{lemma_fold_empty, lemma_fold_singleton, lemma_fold_split, seq_fold};

verus! {

/// Node `i` caches the combination of its two children.
pub open spec fn node_cached<T: Monoid>(v: Seq<T>, i: int) -> bool {
    v[i] == T::spec_op(v[2 * i], v[2 * i + 1])
}

/// Every internal node of `v` (a 1-indexed implicit tree whose leaves
/// start at `m`) caches the combination of its children.
pub open spec fn tree_cached<T: Monoid>(v: Seq<T>, m: int) -> bool {
    forall|i: int| 1 <= i < m ==> #[trigger] node_cached(v, i)
}

/// A cached node equals the fold of the leaves it covers.
///
/// Node `node` sits `d` levels above the leaves, so it covers the leaf
/// block `[node * 2^d, (node + 1) * 2^d)` in tree coordinates.
pub proof fn lemma_node_fold<T: Monoid>(v: Seq<T>, m: int, k: nat, node: int, d: nat)
    requires
        m == pow2(k),
        v.len() == 2 * m,
        tree_cached(v, m),
        1 <= node,
        m <= node * pow2(d),
        node * pow2(d) < 2 * m,
    ensures
        (node + 1) * pow2(d) <= 2 * m,
        v[node] == seq_fold(v.subrange(node * pow2(d), (node + 1) * pow2(d))),
    decreases d,
{
    vstd::arithmetic::power2::lemma_pow2_pos(d);
    let p = pow2(d) as int;
    assert((node + 1) * p == node * p + p) by (nonlinear_arith);
    assert(p <= node * p) by (nonlinear_arith)
        requires
            node >= 1,
            p >= 1,
    ;
    assert(d <= k) by {
        if d > k {
            vstd::arithmetic::power2::lemma_pow2_adds(k + 1, (d - k - 1) as nat);
            vstd::arithmetic::power2::lemma_pow2_pos((d - k - 1) as nat);
            assert(pow2(k + 1) <= pow2(k + 1) * pow2((d - k - 1) as nat)) by (nonlinear_arith)
                requires
                    pow2((d - k - 1) as nat) >= 1,
                    pow2(k + 1) >= 0,
            ;
            vstd::arithmetic::power2::lemma_pow2_unfold(k + 1);
        }
    }
    let q = pow2((k + 1 - d) as nat) as int;
    assert(p * q == 2 * m) by {
        vstd::arithmetic::power2::lemma_pow2_adds(d, (k + 1 - d) as nat);
        vstd::arithmetic::power2::lemma_pow2_unfold(k + 1);
    }
    assert(node < q) by (nonlinear_arith)
        requires
            node * p < q * p,
            p >= 1,
    ;
    assert((node + 1) * p <= q * p) by (nonlinear_arith)
        requires
            node + 1 <= q,
            p >= 1,
    ;
    if d == 0 {
        assert(p == 1) by {
            vstd::arithmetic::power2::lemma2_to64();
        }
        assert(node * p == node && (node + 1) * p == node + 1) by (nonlinear_arith)
            requires
                p == 1,
        ;
        assert(m <= node < 2 * m);
        let s = v.subrange(node, node + 1);
        assert(s =~= seq![v[node]]);
        lemma_fold_singleton(v[node]);
    } else {
        let h = pow2((d - 1) as nat) as int;
        vstd::arithmetic::power2::lemma_pow2_pos((d - 1) as nat);
        assert(p == 2 * h) by {
            vstd::arithmetic::power2::lemma_pow2_unfold(d);
        }
        // The node is internal: a leaf-level node would cover past the array.
        assert(node < m) by {
            if node >= m {
                assert(node * p >= m * 2) by (nonlinear_arith)
                    requires
                        node >= m,
                        p >= 2,
                        m >= 1,
                ;
            }
        }
        assert((2 * node) * h == node * p) by (nonlinear_arith)
            requires
                p == 2 * h,
        ;
        assert((2 * node + 1) * h == node * p + h) by (nonlinear_arith)
            requires
                p == 2 * h,
        ;
        assert((2 * node + 2) * h == node * p + 2 * h) by (nonlinear_arith)
            requires
                p == 2 * h,
        ;
        lemma_node_fold::<T>(v, m, k, 2 * node, (d - 1) as nat);
        lemma_node_fold::<T>(v, m, k, 2 * node + 1, (d - 1) as nat);
        lemma_fold_split(v, node * p, node * p + h, node * p + p);
        assert(node_cached(v, node));
    }
}

/// Compute the least power of two that is at least `n`, with its exponent.
pub(crate) fn next_pow2(n: usize) -> (r: (usize, usize))
    requires
        n <= usize::MAX / 4,
    ensures
        r.0 == pow2(r.1 as nat),
        n <= r.0,
        r.0 <= usize::MAX / 2,
        1 <= r.0,
        r.1 <= 62,
{
    let mut m: usize = 1;
    let mut e: usize = 0;
    proof {
        assert(pow2(0) == 1) by {
            vstd::arithmetic::power2::lemma2_to64();
        }
    }
    while m < n
        invariant
            m == pow2(e as nat),
            1 <= m,
            e <= 62,
            m <= usize::MAX / 2,
            n <= usize::MAX / 4,
        decreases 2 * n - m,
    {
        proof {
            assert(e < 62) by {
                if e >= 62 {
                    crate::treemath::lemma_pow2_le(62, e as nat);
                    assert(pow2(62) == 0x4000000000000000) by {
                        vstd::arithmetic::power2::lemma2_to64_rest();
                    }
                }
            }
            vstd::arithmetic::power2::lemma_pow2_unfold((e + 1) as nat);
        }
        e = e + 1;
        m = m * 2;
    }
    (m, e)
}

/// Segment tree: point update, range fold, both in `O(log n)`.
pub struct SegTree<T: Monoid> {
    n: usize,
    m: usize,
    vals: Vec<T>,
}

impl<T: Monoid> View for SegTree<T> {
    type V = Seq<T>;

    /// The abstract contents: the `n` leaf values.
    closed spec fn view(&self) -> Seq<T> {
        self.vals@.subrange(self.m as int, self.m + self.n)
    }
}

impl<T: Monoid> SegTree<T> {
    /// Structural well-formedness: the padded capacity is a power of two
    /// and every internal node caches the fold of its children.
    pub closed spec fn inv(&self) -> bool {
        &&& (exists|e: nat| self.m == pow2(e))
        &&& self.n <= self.m
        &&& 1 <= self.m
        &&& self.m <= usize::MAX / 2
        &&& self.vals@.len() == 2 * self.m
        &&& tree_cached(self.vals@, self.m as int)
    }

    /// The logical length.
    pub open spec fn spec_len(&self) -> nat {
        self@.len()
    }

    /// Create a tree of `n` leaves, all set to the identity element.
    pub fn new(n: usize) -> (r: Self)
        requires
            n <= usize::MAX / 4,
        ensures
            r.inv(),
            r@ == Seq::new(n as nat, |i: int| T::spec_e()),
    {
        let (m, e) = next_pow2(n);
        let mut vals: Vec<T> = Vec::new();
        let mut i: usize = 0;
        while i < 2 * m
            invariant
                i <= 2 * m,
                m <= usize::MAX / 2,
                vals@.len() == i,
                forall|j: int| 0 <= j < i ==> vals@[j] == T::spec_e(),
            decreases 2 * m - i,
        {
            vals.push(T::e());
            i = i + 1;
        }
        proof {
            T::lemma_identity(T::spec_e());
            assert forall|t: int| 1 <= t < m implies #[trigger] node_cached(vals@, t) by {}
        }
        let r = SegTree { n, m, vals };
        proof {
            assert(r@ =~= Seq::new(n as nat, |i: int| T::spec_e()));
        }
        r
    }

    /// Build a tree holding exactly the values of `a`.
    #[verifier::rlimit(50)]
    pub fn from_vec(a: &Vec<T>) -> (r: Self)
        requires
            a@.len() <= usize::MAX / 4,
        ensures
            r.inv(),
            r@ == a@,
    {
        let n = a.len();
        let (m, e) = next_pow2(n);
        let mut vals: Vec<T> = Vec::new();
        let mut i: usize = 0;
        while i < 2 * m
            invariant
                i <= 2 * m,
                m <= usize::MAX / 2,
                vals@.len() == i,
                forall|j: int| 0 <= j < i ==> vals@[j] == T::spec_e(),
            decreases 2 * m - i,
        {
            vals.push(T::e());
            i = i + 1;
        }
        let mut j: usize = 0;
        while j < n
            invariant
                j <= n,
                n <= m,
                m <= usize::MAX / 2,
                vals@.len() == 2 * m,
                a@.len() == n,
                forall|t: int| m <= t < m + j ==> vals@[t] == a@[t - m],
                forall|t: int| 0 <= t < m ==> vals@[t] == T::spec_e(),
                forall|t: int| m + j <= t < 2 * m ==> vals@[t] == T::spec_e(),
            decreases n - j,
        {
            vals[m + j] = a[j];
            j = j + 1;
        }
        let mut idx: usize = m;
        while idx > 1
            invariant
                1 <= idx <= m,
                n <= m,
                a@.len() == n,
                m <= usize::MAX / 2,
                vals@.len() == 2 * m,
                forall|t: int| m <= t < m + n ==> vals@[t] == a@[t - m],
                forall|t: int| idx <= t < m ==> #[trigger] node_cached(vals@, t),
            decreases idx,
        {
            idx = idx - 1;
            let ghost pre = vals@;
            let x = T::op(&vals[2 * idx], &vals[2 * idx + 1]);
            vals[idx] = x;
            proof {
                assert forall|t: int| idx <= t < m implies #[trigger] node_cached(vals@, t) by {
                    if t > idx {
                        assert(node_cached(pre, t));
                    }
                }
            }
        }
        let r = SegTree { n, m, vals };
        proof {
            assert(r@ =~= a@);
        }
        r
    }

    /// Overwrite the value at index `i` with `x` and recompute the caches
    /// of all its ancestors.
    pub fn set_at(&mut self, i: usize, x: &T)
        requires
            old(self).inv(),
            i < old(self)@.len(),
        ensures
            final(self).inv(),
            final(self)@ == old(self)@.update(i as int, *x),
    {
        let ghost lt = (i + self.m) as int;
        let ghost m = self.m as int;
        let mut idx = i + self.m;
        self.vals[idx] = *x;
        proof {
            assert(crate::treemath::on_path(lt, lt));
            if lt / 2 >= 1 {
                crate::treemath::lemma_on_path_parent(lt, lt);
            }
            assert forall|t: int|
                (1 <= t < m && !(crate::treemath::on_path(lt, t) && t <= lt / 2))
                    implies #[trigger] node_cached(self.vals@, t) by {
                if 2 * t == lt || 2 * t + 1 == lt {
                    assert(t == lt / 2);
                    assert(false);
                } else {
                    assert(node_cached(old(self).vals@, t));
                }
            }
            assert(self.vals@.subrange(m, 2 * m)
                =~= old(self).vals@.subrange(m, 2 * m).update(i as int, *x));
        }
        idx = idx / 2;
        while idx >= 1
            invariant
                self.n == old(self).n,
                self.m == old(self).m,
                self.n <= self.m,
                1 <= self.m,
                self.m <= usize::MAX / 2,
                (exists|e: nat| self.m == pow2(e)),
                i < self.n,
                lt == i + self.m,
                m == self.m as int,
                self.vals@.len() == 2 * self.m,
                idx < self.m,
                idx >= 1 ==> crate::treemath::on_path(lt, idx as int),
                self.vals@.subrange(m, 2 * m)
                    == old(self).vals@.subrange(m, 2 * m).update(i as int, *x),
                forall|t: int|
                    (1 <= t < m && !(crate::treemath::on_path(lt, t) && t <= idx))
                        ==> #[trigger] node_cached(self.vals@, t),
            decreases idx,
        {
            let ghost pre = self.vals@;
            let v = T::op(&self.vals[2 * idx], &self.vals[2 * idx + 1]);
            self.vals[idx] = v;
            proof {
                let prev = idx as int;
                assert forall|t: int|
                    (1 <= t < m && !(crate::treemath::on_path(lt, t) && t <= prev / 2))
                        implies #[trigger] node_cached(self.vals@, t) by {
                    if t == prev {
                        assert(node_cached(self.vals@, t));
                    } else if crate::treemath::on_path(lt, t) && t <= prev {
                        crate::treemath::lemma_on_path_in(lt, t, prev);
                        crate::treemath::lemma_on_path_strict(prev, t);
                        assert(false);
                    } else if 2 * t == prev || 2 * t + 1 == prev {
                        assert(t == prev / 2);
                        crate::treemath::lemma_on_path_parent(lt, prev);
                        assert(false);
                    } else {
                        assert(node_cached(pre, t));
                    }
                }
                assert(self.vals@.subrange(m, 2 * m)
                    =~= old(self).vals@.subrange(m, 2 * m).update(i as int, *x));
                if prev / 2 >= 1 {
                    crate::treemath::lemma_on_path_parent(lt, prev);
                }
            }
            idx = idx / 2;
        }
        proof {
            assert(self@ =~= old(self)@.update(i as int, *x));
        }
    }

    /// Read the value at index `i`.
    pub fn get_at(&self, i: usize) -> (r: T)
        requires
            self.inv(),
            i < self@.len(),
        ensures
            r == self@[i as int],
    {
        self.vals[self.m + i]
    }

    /// Fold the monoid operator over the half-open range `[l, r)`,
    /// left to right.
    pub fn range_fold(&self, l: usize, r: usize) -> (res: T)
        requires
            self.inv(),
            l <= r,
            r <= self@.len(),
        ensures
            res == seq_fold(self@.subrange(l as int, r as int)),
    {
        let ghost k = choose|e: nat| self.m == pow2(e);
        let ghost m = self.m as int;
        let ghost nn = self.n as int;
        let mut lo = l + self.m;
        let mut hi = r + self.m;
        let mut accl = T::e();
        let mut accr = T::e();
        let ghost mut s: nat = 0;
        proof {
            assert(pow2(0) == 1) by {
                vstd::arithmetic::power2::lemma2_to64();
            }
            assert(lo as int * pow2(0) == lo as int) by (nonlinear_arith)
                requires
                    pow2(0) == 1,
            ;
            assert(hi as int * pow2(0) == hi as int) by (nonlinear_arith)
                requires
                    pow2(0) == 1,
            ;
            lemma_fold_empty::<T>(self@, l as int);
            lemma_fold_empty::<T>(self@, r as int);
        }
        while lo < hi
            invariant
                self.inv(),
                self.m == pow2(k),
                m == self.m as int,
                nn == self.n as int,
                l <= r <= nn,
                self@.len() == nn,
                1 <= lo,
                lo <= hi,
                lo * pow2(s) >= l + m,
                hi * pow2(s) <= r + m,
                accl == seq_fold(self@.subrange(l as int, lo * pow2(s) - m)),
                accr == seq_fold(self@.subrange(hi * pow2(s) - m, r as int)),
            decreases hi,
        {
            let ghost p = pow2(s) as int;
            proof {
                vstd::arithmetic::power2::lemma_pow2_pos(s);
                assert(hi <= hi * p) by (nonlinear_arith)
                    requires
                        p >= 1,
                        hi >= 0,
                ;
                assert(lo * p <= hi * p) by (nonlinear_arith)
                    requires
                        lo <= hi,
                        p >= 1,
                ;
                assert(hi <= 2 * m);
            }
            if lo % 2 == 1 {
                proof {
                    let lov = lo as int;
                    assert((lov + 1) * p <= hi * p) by (nonlinear_arith)
                        requires
                            lov + 1 <= hi,
                            p >= 1,
                    ;
                    assert((lov + 1) * p == lov * p + p) by (nonlinear_arith);
                    lemma_node_fold::<T>(self.vals@, m, k, lov, s);
                    assert(self.vals@.subrange(lov * p, lov * p + p)
                        =~= self@.subrange(lov * p - m, lov * p + p - m));
                    lemma_fold_split(self@, l as int, lov * p - m, lov * p + p - m);
                }
                accl = T::op(&accl, &self.vals[lo]);
                lo = lo + 1;
            }
            if hi % 2 == 1 {
                hi = hi - 1;
                proof {
                    let hv = hi as int;
                    assert((hv + 1) * p == hv * p + p) by (nonlinear_arith);
                    assert(hv * p >= lo * p) by (nonlinear_arith)
                        requires
                            lo <= hv,
                            p >= 1,
                    ;
                    lemma_node_fold::<T>(self.vals@, m, k, hv, s);
                    assert(self.vals@.subrange(hv * p, hv * p + p)
                        =~= self@.subrange(hv * p - m, hv * p + p - m));
                    lemma_fold_split(self@, hv * p - m, hv * p + p - m, r as int);
                }
                accr = T::op(&self.vals[hi], &accr);
            }
            proof {
                let lov = lo as int;
                let hv = hi as int;
                vstd::arithmetic::power2::lemma_pow2_unfold(s + 1);
                assert((lov / 2) * pow2(s + 1) == lov * p) by (nonlinear_arith)
                    requires
                        lov % 2 == 0,
                        pow2(s + 1) == 2 * p,
                ;
                assert((hv / 2) * pow2(s + 1) == hv * p) by (nonlinear_arith)
                    requires
                        hv % 2 == 0,
                        pow2(s + 1) == 2 * p,
                ;
                s = s + 1;
            }
            lo = lo / 2;
            hi = hi / 2;
        }
        proof {
            lemma_fold_split(self@, l as int, lo * pow2(s) - m, r as int);
        }
        T::op(&accl, &accr)
    }
}

} // verus!

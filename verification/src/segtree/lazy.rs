//! Lazy segment tree: range apply and range fold together.
//!
//! Every node stores both an aggregate and a pending action.  A node's
//! stored aggregate already reflects its own pending action, but not its
//! ancestors'; push-down moves a pending action one level toward the
//! leaves, and every operation pushes top-down before it descends and
//! recomputes bottom-up on the way back out.

use vstd::prelude::*;
use vstd::arithmetic::power2::pow2;

use crate::algebra::Monoid;
use crate::folds::{lemma_fold_concat, lemma_fold_empty, lemma_fold_singleton, lemma_fold_split, seq_fold};
use crate::segtree::next_pow2;
use crate::segtree::paths::{
    lemma_merge_at, lemma_path_comp_below_frame, lemma_path_comp_below_split,
    lemma_path_comp_clean, lemma_path_comp_frame, lemma_path_comp_split, lemma_push_preserves,
    path_comp, path_comp_below,
};
use crate::treemath::{
    lemma_block_to_path, lemma_blocks_align, lemma_canonical_exp, lemma_div_char,
    lemma_div_pow2_add, lemma_on_path_bounds, lemma_on_path_div, lemma_on_path_height,
    lemma_on_path_strict, lemma_on_path_trans, lemma_path_to_block, lemma_pow2_le,
    lemma_pred_div, lemma_walk_anc_left, lemma_walk_anc_right, on_path,
};

verus! {

/// A monoid action on the aggregate monoid: values of the value monoid
/// are transformed by values of the action monoid `F`, compatibly with
/// the identity, with composition, and with the monoid operator itself.
///
/// The distributivity law is what lets a whole aggregated node be
/// transformed in one step; an action whose effect depends on the size
/// of the aggregated range must therefore carry that size inside the
/// value monoid.
pub trait Action<F: Monoid>: Monoid {
    /// The action of `f` on the aggregate `v`, at the specification
    /// level.
    spec fn spec_apply(v: Self, f: F) -> Self;

    /// The identity action leaves every aggregate unchanged.
    proof fn lemma_apply_identity(v: Self)
        ensures
            Self::spec_apply(v, F::spec_e()) == v,
    ;

    /// Acting twice is acting once with the composition.
    proof fn lemma_apply_compose(v: Self, f: F, g: F)
        ensures
            Self::spec_apply(Self::spec_apply(v, f), g) == Self::spec_apply(
                v,
                F::spec_op(g, f),
            ),
    ;

    /// Actions distribute over the aggregate operator.
    proof fn lemma_apply_distributes(x: Self, y: Self, f: F)
        ensures
            Self::spec_apply(Self::spec_op(x, y), f) == Self::spec_op(
                Self::spec_apply(x, f),
                Self::spec_apply(y, f),
            ),
    ;

    /// The action of `f` on `val`.
    fn apply(val: &Self, f: &F) -> (r: Self)
        ensures
            r == Self::spec_apply(*val, *f),
    ;
}

/// Node `i`'s stored aggregate combines its children and then applies
/// its own pending action.
pub open spec fn lazy_cached_at<V: Action<F>, F: Monoid>(
    vals: Seq<V>,
    ms: Seq<F>,
    i: int,
) -> bool {
    vals[i] == V::spec_apply(V::spec_op(vals[2 * i], vals[2 * i + 1]), ms[i])
}

/// The composition of the pending actions on the path from leaf `t` up
/// to and including ancestor `a`, but excluding everything above `a`.
pub open spec fn seg_comp<F: Monoid>(ms: Seq<F>, a: int, t: int) -> F {
    if t == a {
        F::spec_e()
    } else {
        F::spec_op(ms[a], path_comp_below(ms, a, t / 2))
    }
}

/// Applying an action to a non-empty fold is folding the transformed
/// elements.
pub proof fn lemma_fold_map_apply<V: Action<F>, F: Monoid>(s: Seq<V>, f: F)
    requires
        s.len() >= 1,
    ensures
        V::spec_apply(seq_fold(s), f) == seq_fold(s.map_values(|x: V| V::spec_apply(x, f))),
    decreases s.len(),
{
    let mapped = s.map_values(|x: V| V::spec_apply(x, f));
    if s.len() == 1 {
        assert(s =~= seq![s[0]]);
        lemma_fold_singleton(s[0]);
        assert(mapped =~= seq![V::spec_apply(s[0], f)]);
        lemma_fold_singleton(V::spec_apply(s[0], f));
    } else {
        let s0 = s.drop_last();
        lemma_fold_map_apply::<V, F>(s0, f);
        V::lemma_apply_distributes(seq_fold(s0), s.last(), f);
        assert(mapped.drop_last() =~= s0.map_values(|x: V| V::spec_apply(x, f)));
        assert(mapped.last() == V::spec_apply(s.last(), f));
    }
}

/// A node whose whole subtree is cached aggregates exactly the leaves it
/// covers, each resolved through the pending actions between the leaf
/// and the node.
pub proof fn lemma_lazy_node_fold<V: Action<F>, F: Monoid>(
    vals: Seq<V>,
    ms: Seq<F>,
    m: int,
    k: nat,
    node: int,
    d: nat,
)
    requires
        m == pow2(k),
        vals.len() == 2 * m,
        ms.len() == 2 * m,
        forall|i: int|
            1 <= i < m && on_path(i, node) ==> #[trigger] lazy_cached_at(vals, ms, i),
        1 <= node,
        m <= node * pow2(d),
        node * pow2(d) < 2 * m,
    ensures
        (node + 1) * pow2(d) <= 2 * m,
        vals[node] == seq_fold(
            Seq::new(
                pow2(d),
                |t: int|
                    V::spec_apply(
                        vals[node * pow2(d) + t],
                        seg_comp(ms, node, node * pow2(d) + t),
                    ),
            ),
        ),
    decreases d,
{
    vstd::arithmetic::power2::lemma_pow2_pos(d);
    let p = pow2(d) as int;
    assert((node + 1) * p == node * p + p) by (nonlinear_arith);
    assert(p <= node * p) by (nonlinear_arith)
        requires
            node >= 1,
            p >= 1,
    ;
    assert(d <= k) by {
        if d > k {
            vstd::arithmetic::power2::lemma_pow2_unfold(k + 1);
            lemma_pow2_le(k + 1, d);
        }
    }
    let q = pow2((k + 1 - d) as nat) as int;
    assert(p * q == 2 * m) by {
        vstd::arithmetic::power2::lemma_pow2_adds(d, (k + 1 - d) as nat);
        vstd::arithmetic::power2::lemma_pow2_unfold(k + 1);
    }
    assert(node < q) by (nonlinear_arith)
        requires
            node * p < q * p,
            p >= 1,
    ;
    assert((node + 1) * p <= q * p) by (nonlinear_arith)
        requires
            node + 1 <= q,
            p >= 1,
    ;
    let blk = Seq::new(
        pow2(d),
        |t: int| V::spec_apply(vals[node * p + t], seg_comp(ms, node, node * p + t)),
    );
    if d == 0 {
        assert(p == 1) by {
            vstd::arithmetic::power2::lemma2_to64();
        }
        assert(node * p == node && (node + 1) * p == node + 1) by (nonlinear_arith)
            requires
                p == 1,
        ;
        V::lemma_apply_identity(vals[node]);
        assert(blk =~= seq![vals[node]]);
        lemma_fold_singleton(vals[node]);
    } else {
        let h = pow2((d - 1) as nat) as int;
        vstd::arithmetic::power2::lemma_pow2_pos((d - 1) as nat);
        assert(p == 2 * h) by {
            vstd::arithmetic::power2::lemma_pow2_unfold(d);
        }
        assert(node < m) by {
            if node >= m {
                assert(node * p >= m * 2) by (nonlinear_arith)
                    requires
                        node >= m,
                        p >= 2,
                        m >= 1,
                ;
            }
        }
        assert((2 * node) * h == node * p) by (nonlinear_arith)
            requires
                p == 2 * h,
        ;
        assert((2 * node + 1) * h == node * p + h) by (nonlinear_arith)
            requires
                p == 2 * h,
        ;
        assert((2 * node + 2) * h == node * p + 2 * h) by (nonlinear_arith)
            requires
                p == 2 * h,
        ;
        // Both children lie on paths through `node`.
        assert(on_path(node, node));
        assert((2 * node) / 2 == node && (2 * node + 1) / 2 == node);
        assert(on_path(2 * node, node));
        assert(on_path(2 * node + 1, node));
        assert forall|i: int|
            1 <= i < m && on_path(i, 2 * node) implies #[trigger] lazy_cached_at(
            vals,
            ms,
            i,
        ) by {
            lemma_on_path_trans(i, 2 * node, node);
        }
        assert forall|i: int|
            1 <= i < m && on_path(i, 2 * node + 1) implies #[trigger] lazy_cached_at(
            vals,
            ms,
            i,
        ) by {
            lemma_on_path_trans(i, 2 * node + 1, node);
        }
        lemma_lazy_node_fold::<V, F>(vals, ms, m, k, 2 * node, (d - 1) as nat);
        lemma_lazy_node_fold::<V, F>(vals, ms, m, k, 2 * node + 1, (d - 1) as nat);
        let bl = Seq::new(
            pow2((d - 1) as nat),
            |t: int|
                V::spec_apply(
                    vals[2 * node * h + t],
                    seg_comp(ms, 2 * node, 2 * node * h + t),
                ),
        );
        let br = Seq::new(
            pow2((d - 1) as nat),
            |t: int|
                V::spec_apply(
                    vals[(2 * node + 1) * h + t],
                    seg_comp(ms, 2 * node + 1, (2 * node + 1) * h + t),
                ),
        );
        assert(lazy_cached_at(vals, ms, node));
        V::lemma_apply_distributes(vals[2 * node], vals[2 * node + 1], ms[node]);
        lemma_fold_map_apply::<V, F>(bl, ms[node]);
        lemma_fold_map_apply::<V, F>(br, ms[node]);
        let mbl = bl.map_values(|x: V| V::spec_apply(x, ms[node]));
        let mbr = br.map_values(|x: V| V::spec_apply(x, ms[node]));
        // The mapped child blocks are the two halves of the node's block.
        assert forall|t: int| 0 <= t < h implies mbl[t] == blk[t] by {
            let tt = node * p + t;
            lemma_seg_step::<V, F>(vals, ms, m, k, node, 2 * node, (d - 1) as nat, tt);
            V::lemma_apply_compose(vals[tt], seg_comp(ms, 2 * node, tt), ms[node]);
        }
        assert forall|t: int| 0 <= t < h implies mbr[t] == blk[h + t] by {
            let tt = node * p + h + t;
            lemma_seg_step::<V, F>(vals, ms, m, k, node, 2 * node + 1, (d - 1) as nat, tt);
            V::lemma_apply_compose(vals[tt], seg_comp(ms, 2 * node + 1, tt), ms[node]);
        }
        assert(blk =~= mbl + mbr);
        lemma_fold_concat(mbl, mbr);
    }
}

/// Extending the resolution segment of a leaf from a child up to its
/// parent composes the parent's pending action on the outside.
proof fn lemma_seg_step<V: Action<F>, F: Monoid>(
    vals: Seq<V>,
    ms: Seq<F>,
    m: int,
    k: nat,
    node: int,
    child: int,
    dc: nat,
    t: int,
)
    requires
        m == pow2(k),
        ms.len() == 2 * m,
        1 <= node,
        child == 2 * node || child == 2 * node + 1,
        m <= child * pow2(dc),
        child * pow2(dc) < 2 * m,
        child * pow2(dc) <= t < (child + 1) * pow2(dc),
        m <= t < 2 * m,
    ensures
        F::spec_op(ms[node], seg_comp(ms, child, t)) == seg_comp(ms, node, t),
{
    vstd::arithmetic::power2::lemma_pow2_pos(dc);
    assert((child + 1) * pow2(dc) == child * pow2(dc) + pow2(dc)) by (nonlinear_arith);
    assert(on_path(node, node));
    assert((2 * node) / 2 == node && (2 * node + 1) / 2 == node);
    assert(t != node) by {
        assert(node < child <= child * pow2(dc)) by (nonlinear_arith)
            requires
                child >= 1,
                pow2(dc) >= 1,
                node < child,
        ;
    }
    if t == child {
        // dc == 0; the segment from the child is empty.
        F::lemma_identity(ms[node]);
        assert(t / 2 == node);
        assert(path_comp_below(ms, node, node) == F::spec_e());
    } else {
        lemma_block_to_path(t, child, dc, k);
        lemma_on_path_strict(t, child);
        assert(on_path(child, node)) by {
            assert(on_path(node, node));
        }
        lemma_path_comp_below_split(ms, node, child, t / 2);
        assert(path_comp_below(ms, node, child) == F::spec_op(
            path_comp_below(ms, node, node),
            ms[child],
        ));
        F::lemma_identity(ms[child]);
        F::lemma_assoc(ms[node], ms[child], path_comp_below(ms, child, t / 2));
        assert(seg_comp(ms, child, t) == F::spec_op(ms[child], path_comp_below(ms, child, t / 2)));
    }
}


/// Lazy segment tree: range apply and range fold, both in `O(log n)`.
pub struct LazySegTree<S: Action<F>, F: Monoid> {
    n: usize,
    m: usize,
    k: usize,
    vals: Vec<S>,
    maps: Vec<F>,
}

impl<S: Action<F>, F: Monoid> View for LazySegTree<S, F> {
    type V = Seq<S>;

    /// The abstract contents: each leaf aggregate with every pending
    /// action on its strict ancestor path applied, deepest first.
    closed spec fn view(&self) -> Seq<S> {
        Seq::new(
            self.n as nat,
            |j: int| S::spec_apply(self.vals@[self.m + j], path_comp(self.maps@, (self.m + j) / 2)),
        )
    }
}

impl<S: Action<F>, F: Monoid> LazySegTree<S, F> {
    /// Array sizes and the power-of-two capacity.
    pub(crate) closed spec fn shape_inv(&self) -> bool {
        &&& self.m == pow2(self.k as nat)
        &&& self.k <= 62
        &&& self.n <= self.m
        &&& 1 <= self.m
        &&& self.m <= usize::MAX / 2
        &&& self.vals@.len() == 2 * self.m
        &&& self.maps@.len() == 2 * self.m
    }

    /// Every internal node is cached.
    pub(crate) closed spec fn cached_all(&self) -> bool {
        forall|i: int|
            1 <= i < self.m ==> #[trigger] lazy_cached_at(self.vals@, self.maps@, i)
    }

    /// Structural well-formedness.
    pub closed spec fn inv(&self) -> bool {
        self.shape_inv() && self.cached_all()
    }

    /// Create a tree of `n` leaves, all set to the identity aggregate,
    /// with no pending actions.
    pub fn new(n: usize) -> (r: Self)
        requires
            n <= usize::MAX / 4,
        ensures
            r.inv(),
            r@ == Seq::new(n as nat, |j: int| S::spec_e()),
    {
        let (m, k) = next_pow2(n);
        let mut vals: Vec<S> = Vec::new();
        let mut i: usize = 0;
        while i < 2 * m
            invariant
                i <= 2 * m,
                m <= usize::MAX / 2,
                vals@.len() == i,
                forall|j: int| 0 <= j < i ==> vals@[j] == S::spec_e(),
            decreases 2 * m - i,
        {
            vals.push(S::e());
            i = i + 1;
        }
        let mut maps: Vec<F> = Vec::new();
        let mut i2: usize = 0;
        while i2 < 2 * m
            invariant
                i2 <= 2 * m,
                m <= usize::MAX / 2,
                maps@.len() == i2,
                forall|j: int| 0 <= j < i2 ==> maps@[j] == F::spec_e(),
            decreases 2 * m - i2,
        {
            maps.push(F::e());
            i2 = i2 + 1;
        }
        let r = LazySegTree { n, m, k, vals, maps };
        proof {
            S::lemma_identity(S::spec_e());
            S::lemma_apply_identity(S::spec_op(S::spec_e(), S::spec_e()));
            assert forall|i3: int| 1 <= i3 < m implies #[trigger] lazy_cached_at(
                r.vals@,
                r.maps@,
                i3,
            ) by {}
            assert forall|j: int| 0 <= j < n implies r@[j] == S::spec_e() by {
                assert forall|u: int| #[trigger] on_path((m + j) / 2, u) implies r.maps@[u]
                    == F::spec_e() by {
                    lemma_on_path_bounds((m + j) / 2, u);
                }
                lemma_path_comp_clean::<F>(r.maps@, (m + j) / 2);
                S::lemma_apply_identity(r.vals@[m + j]);
            }
            assert(r@ =~= Seq::new(n as nat, |j: int| S::spec_e()));
        }
        r
    }

    /// Build a tree holding exactly the values of `a`, with no pending
    /// actions.
    pub fn from_vec(a: &Vec<S>) -> (r: Self)
        requires
            a@.len() <= usize::MAX / 4,
        ensures
            r.inv(),
            r@ == a@,
    {
        let n = a.len();
        let (m, k) = next_pow2(n);
        let mut vals: Vec<S> = Vec::new();
        let mut i: usize = 0;
        while i < 2 * m
            invariant
                i <= 2 * m,
                m <= usize::MAX / 2,
                vals@.len() == i,
                forall|j: int| 0 <= j < i ==> vals@[j] == S::spec_e(),
            decreases 2 * m - i,
        {
            vals.push(S::e());
            i = i + 1;
        }
        let mut j: usize = 0;
        while j < n
            invariant
                j <= n,
                n <= m,
                m <= usize::MAX / 2,
                vals@.len() == 2 * m,
                a@.len() == n,
                forall|t: int| m <= t < m + j ==> vals@[t] == a@[t - m],
                forall|t: int| 0 <= t < m ==> vals@[t] == S::spec_e(),
                forall|t: int| m + j <= t < 2 * m ==> vals@[t] == S::spec_e(),
            decreases n - j,
        {
            vals[m + j] = a[j];
            j = j + 1;
        }
        let mut idx: usize = m;
        while idx > 1
            invariant
                1 <= idx <= m,
                n <= m,
                a@.len() == n,
                m <= usize::MAX / 2,
                vals@.len() == 2 * m,
                forall|t: int| m <= t < m + n ==> vals@[t] == a@[t - m],
                forall|t: int|
                    idx <= t < m ==> #[trigger] vals@[t] == S::spec_op(
                        vals@[2 * t],
                        vals@[2 * t + 1],
                    ),
            decreases idx,
        {
            idx = idx - 1;
            let ghost pre = vals@;
            let x = S::op(&vals[2 * idx], &vals[2 * idx + 1]);
            vals[idx] = x;
            proof {
                assert forall|t: int|
                    idx <= t < m implies #[trigger] vals@[t] == S::spec_op(
                    vals@[2 * t],
                    vals@[2 * t + 1],
                ) by {
                    if t > idx {
                        assert(pre[t] == S::spec_op(pre[2 * t], pre[2 * t + 1]));
                    }
                }
            }
        }
        let mut maps: Vec<F> = Vec::new();
        let mut i2: usize = 0;
        while i2 < 2 * m
            invariant
                i2 <= 2 * m,
                m <= usize::MAX / 2,
                maps@.len() == i2,
                forall|j2: int| 0 <= j2 < i2 ==> maps@[j2] == F::spec_e(),
            decreases 2 * m - i2,
        {
            maps.push(F::e());
            i2 = i2 + 1;
        }
        let r = LazySegTree { n, m, k, vals, maps };
        proof {
            assert forall|i3: int| 1 <= i3 < m implies #[trigger] lazy_cached_at(
                r.vals@,
                r.maps@,
                i3,
            ) by {
                S::lemma_apply_identity(S::spec_op(r.vals@[2 * i3], r.vals@[2 * i3 + 1]));
            }
            assert forall|j2: int| 0 <= j2 < n implies r@[j2] == a@[j2] by {
                assert forall|u: int| #[trigger] on_path((m + j2) / 2, u) implies r.maps@[u]
                    == F::spec_e() by {
                    lemma_on_path_bounds((m + j2) / 2, u);
                }
                lemma_path_comp_clean::<F>(r.maps@, (m + j2) / 2);
                S::lemma_apply_identity(r.vals@[m + j2]);
            }
            assert(r@ =~= a@);
        }
        r
    }

    /// Push the pending action at node `w` onto its two children:
    /// apply it to their aggregates, merge it into their pending
    /// actions, and clear it here.
    fn push(&mut self, w: usize)
        requires
            old(self).inv(),
            1 <= w < old(self).m,
        ensures
            final(self).inv(),
            final(self).n == old(self).n,
            final(self).m == old(self).m,
            final(self).k == old(self).k,
            final(self)@ == old(self)@,
            final(self).maps@ == old(self).maps@.update(w as int, F::spec_e()).update(
                2 * w as int,
                F::spec_op(old(self).maps@[w as int], old(self).maps@[2 * w as int]),
            ).update(
                2 * w + 1 as int,
                F::spec_op(old(self).maps@[w as int], old(self).maps@[2 * w + 1 as int]),
            ),
            final(self).maps@[w as int] == F::spec_e(),
    {
        let ghost m = self.m as int;
        let ghost pv = old(self).vals@;
        let ghost pm = old(self).maps@;
        let g = self.maps[w];
        self.maps[w] = F::e();
        let a = S::apply(&self.vals[2 * w], &g);
        self.vals[2 * w] = a;
        let b = S::apply(&self.vals[2 * w + 1], &g);
        self.vals[2 * w + 1] = b;
        let c1 = F::op(&g, &self.maps[2 * w]);
        self.maps[2 * w] = c1;
        let c2 = F::op(&g, &self.maps[2 * w + 1]);
        self.maps[2 * w + 1] = c2;
        proof {
            let wi = w as int;
            assert(self.maps@ =~= pm.update(wi, F::spec_e()).update(
                2 * wi,
                F::spec_op(pm[wi], pm[2 * wi]),
            ).update(2 * wi + 1, F::spec_op(pm[wi], pm[2 * wi + 1])));
            assert(self.vals@ =~= pv.update(2 * wi, S::spec_apply(pv[2 * wi], pm[wi])).update(
                2 * wi + 1,
                S::spec_apply(pv[2 * wi + 1], pm[wi]),
            ));
            // Caching is preserved at every internal node.
            assert forall|i: int| 1 <= i < m implies #[trigger] lazy_cached_at(
                self.vals@,
                self.maps@,
                i,
            ) by {
                assert(lazy_cached_at(pv, pm, i));
                if i == wi {
                    S::lemma_apply_distributes(pv[2 * wi], pv[2 * wi + 1], pm[wi]);
                    S::lemma_apply_identity(
                        S::spec_op(self.vals@[2 * wi], self.vals@[2 * wi + 1]),
                    );
                } else if i == 2 * wi || i == 2 * wi + 1 {
                    S::lemma_apply_compose(
                        S::spec_op(pv[2 * i], pv[2 * i + 1]),
                        pm[i],
                        pm[wi],
                    );
                }
            }
            // The abstract contents are unchanged.
            assert forall|j: int| 0 <= j < self.n as int implies self@[j] == old(self)@[j] by {
                let t = m + j;
                lemma_push_preserves::<F>(pm, self.maps@, wi, t / 2);
                if t == 2 * wi || t == 2 * wi + 1 {
                    assert(t / 2 == wi);
                    S::lemma_apply_compose(pv[t], pm[wi], path_comp(pm, wi / 2));
                    assert(path_comp(pm, wi) == F::spec_op(path_comp(pm, wi / 2), pm[wi]));
                } else {
                    assert(t / 2 != wi);
                    assert(self.vals@[t] == pv[t]);
                }
            }
            assert(self@ =~= old(self)@);
        }
    }

    /// Push down every pending action on a strict ancestor of leaf `i`,
    /// top-down, so that the whole path above the leaf is clean.
    fn push_path(&mut self, i: usize)
        requires
            old(self).inv(),
            i < old(self).n,
        ensures
            final(self).inv(),
            final(self).n == old(self).n,
            final(self).m == old(self).m,
            final(self).k == old(self).k,
            final(self)@ == old(self)@,
            forall|h: nat|
                0 < h <= final(self).k as nat ==> final(self).maps@[(i + final(self).m)
                    as int / #[trigger] pow2(h) as int] == F::spec_e(),
    {
        let ghost m = self.m as int;
        let ghost kk = self.k as nat;
        let lt = i + self.m;
        let mut v: usize = self.k;
        let mut p: usize = self.m;
        while v >= 1
            invariant
                self.inv(),
                self.n == old(self).n,
                self.m == old(self).m,
                self.k == old(self).k,
                self@ == old(self)@,
                m == self.m as int,
                kk == self.k as nat,
                i < self.n,
                lt == i + self.m,
                v <= self.k,
                p == pow2(v as nat),
                forall|h: nat|
                    v < h <= kk ==> self.maps@[lt as int / #[trigger] pow2(h) as int]
                        == F::spec_e(),
            decreases v,
        {
            let ghost vn = v as nat;
            proof {
                vstd::arithmetic::power2::lemma_pow2_pos(vn);
                crate::segtree::dual::lemma_level_bounds(lt as int, vn, kk);
                vstd::arithmetic::power2::lemma_pow2_pos((kk - vn) as nat);
            }
            let w = lt / p;
            let ghost pre = self.maps@;
            self.push(w);
            proof {
                let q = pow2((kk - vn) as nat) as int;
                assert forall|h: nat|
                    ((vn - 1) as nat) < h <= kk implies self.maps@[lt as int / #[trigger] pow2(
                    h,
                ) as int] == F::spec_e() by {
                    if h > vn {
                        let u = lt as int / pow2(h) as int;
                        assert(u < q);
                        vstd::arithmetic::power2::lemma_pow2_pos(h);
                        vstd::arithmetic::div_mod::lemma_div_pos_is_pos(lt as int, pow2(h) as int);
                        assert(pre[u] == F::spec_e());
                        assert(0 <= u < w);
                        assert(self.maps@[u] == pre[u]);
                    } else {
                        assert(h == vn);
                    }
                }
                vstd::arithmetic::power2::lemma_pow2_unfold(vn);
            }
            v = v - 1;
            p = p / 2;
        }
    }

    /// The composition above a fully pushed leaf is the identity.
    proof fn path_clean_after_push(&self, lt: int)
        requires
            self.shape_inv(),
            self.m <= lt < 2 * self.m,
            forall|h: nat|
                0 < h <= self.k as nat ==> self.maps@[lt / #[trigger] pow2(h) as int]
                    == F::spec_e(),
        ensures
            path_comp(self.maps@, lt / 2) == F::spec_e(),
    {
        let kk = self.k as nat;
        assert forall|u: int| #[trigger] on_path(lt / 2, u) implies self.maps@[u]
            == F::spec_e() by {
            lemma_on_path_bounds(lt / 2, u);
            let d = lemma_on_path_height(lt / 2, u);
            assert(pow2(1) == 2) by {
                vstd::arithmetic::power2::lemma2_to64();
            }
            lemma_div_pow2_add(lt, 1, d);
            assert(u == lt / pow2(1 + d) as int);
            let h = (1 + d) as nat;
            vstd::arithmetic::power2::lemma_pow2_pos(h);
            assert(h <= kk) by {
                if h > kk {
                    vstd::arithmetic::power2::lemma_pow2_unfold(kk + 1);
                    lemma_pow2_le(kk + 1, h);
                    vstd::arithmetic::div_mod::lemma_basic_div(lt, pow2(h) as int);
                }
            }
        }
        lemma_path_comp_clean::<F>(self.maps@, lt / 2);
    }

    /// Read the value at index `i`, with all pending actions applied.
    pub fn get(&mut self, i: usize) -> (r: S)
        requires
            old(self).inv(),
            i < old(self)@.len(),
        ensures
            final(self).inv(),
            final(self)@ == old(self)@,
            r == old(self)@[i as int],
    {
        self.push_path(i);
        proof {
            self.path_clean_after_push((i + self.m) as int);
            S::lemma_apply_identity(self.vals@[(i + self.m) as int]);
        }
        self.vals[i + self.m]
    }

    /// Overwrite the value at index `i` with `x`.
    pub fn update(&mut self, i: usize, x: &S)
        requires
            old(self).inv(),
            i < old(self)@.len(),
        ensures
            final(self).inv(),
            final(self)@ == old(self)@.update(i as int, *x),
    {
        self.push_path(i);
        let ghost m = self.m as int;
        let ghost kk = self.k as nat;
        let ghost mid = *self;
        let lt = i + self.m;
        let ghost lti = lt as int;
        self.vals[lt] = *x;
        let mut idx = lt / 2;
        proof {
            assert(on_path(lti, lti));
            if lti / 2 >= 1 {
                crate::treemath::lemma_on_path_parent(lti, lti);
            }
            assert forall|t: int|
                (1 <= t < m && !(on_path(lti, t) && t <= lti / 2)) implies #[trigger]
                lazy_cached_at(self.vals@, self.maps@, t) by {
                if 2 * t == lti || 2 * t + 1 == lti {
                    assert(t == lti / 2);
                    assert(false);
                } else {
                    assert(lazy_cached_at(mid.vals@, mid.maps@, t));
                }
            }
            // The new leaf is the new abstract value at i.
            self.path_clean_after_push(lti);
            S::lemma_apply_identity(*x);
            assert forall|j: int| 0 <= j < self.n as int implies self@[j] == old(self)@.update(
                i as int,
                *x,
            )[j] by {
                if j != i {
                    assert(self.vals@[m + j] == mid.vals@[m + j]);
                }
            }
            assert(self@ =~= old(self)@.update(i as int, *x));
        }
        while idx >= 1
            invariant
                self.n == old(self).n,
                self.m == old(self).m,
                self.k == old(self).k,
                self.shape_inv(),
                i < self.n,
                lti == i + self.m,
                m == self.m as int,
                kk == self.k as nat,
                self.maps@ == mid.maps@,
                idx < self.m,
                idx >= 1 ==> on_path(lti, idx as int),
                self@ == old(self)@.update(i as int, *x),
                forall|h: nat|
                    0 < h <= kk ==> self.maps@[lti / #[trigger] pow2(h) as int] == F::spec_e(),
                forall|t: int|
                    (1 <= t < m && !(on_path(lti, t) && t <= idx)) ==> #[trigger] lazy_cached_at(
                        self.vals@,
                        self.maps@,
                        t,
                    ),
            decreases idx,
        {
            let ghost pre = *self;
            let v = S::op(&self.vals[2 * idx], &self.vals[2 * idx + 1]);
            self.vals[idx] = v;
            proof {
                let prev = idx as int;
                // The recomputed node's pending action is the identity.
                let d = lemma_on_path_height(lti, prev);
                assert(d >= 1) by {
                    if d == 0 {
                        assert(pow2(0) == 1) by {
                            vstd::arithmetic::power2::lemma2_to64();
                        }
                        assert(lti / 1 == lti);
                        assert(prev == lti);
                    }
                }
                vstd::arithmetic::power2::lemma_pow2_pos(d);
                assert(d <= kk) by {
                    if d > kk {
                        vstd::arithmetic::power2::lemma_pow2_unfold(kk + 1);
                        lemma_pow2_le(kk + 1, d);
                        vstd::arithmetic::div_mod::lemma_basic_div(lti, pow2(d) as int);
                    }
                }
                assert(self.maps@[prev] == F::spec_e());
                S::lemma_apply_identity(S::spec_op(self.vals@[2 * prev], self.vals@[2 * prev + 1]));
                assert(lazy_cached_at(self.vals@, self.maps@, prev));
                assert forall|t: int|
                    (1 <= t < m && !(on_path(lti, t) && t <= prev / 2)) implies #[trigger]
                    lazy_cached_at(self.vals@, self.maps@, t) by {
                    if t == prev {
                    } else if on_path(lti, t) && t <= prev {
                        crate::treemath::lemma_on_path_in(lti, t, prev);
                        lemma_on_path_strict(prev, t);
                        assert(false);
                    } else if 2 * t == prev || 2 * t + 1 == prev {
                        assert(t == prev / 2);
                        crate::treemath::lemma_on_path_parent(lti, prev);
                        assert(false);
                    } else {
                        assert(lazy_cached_at(pre.vals@, pre.maps@, t));
                    }
                }
                assert forall|j: int| 0 <= j < self.n as int implies self@[j] == pre@[j] by {
                    assert(self.vals@[m + j] == pre.vals@[m + j]);
                }
                assert(self@ =~= pre@);
                if prev / 2 >= 1 {
                    crate::treemath::lemma_on_path_parent(lti, prev);
                }
            }
            idx = idx / 2;
        }
    }
}


impl<S: Action<F>, F: Monoid> LazySegTree<S, F> {
    /// After a push at a height-`v` boundary ancestor, every cleared
    /// entry at a greater height is untouched.
    proof fn cleared_kept(&self, pre: Seq<F>, la: int, rb: int, v: nat, w: int)
        requires
            self.shape_inv(),
            1 <= v <= self.k as nat,
            pow2(self.k as nat) <= la <= 2 * pow2(self.k as nat),
            pow2(self.k as nat) <= rb <= 2 * pow2(self.k as nat),
            pow2((self.k as nat - v) as nat) <= w,
            w < pow2(self.k as nat),
            pre.len() == self.maps@.len(),
            self.maps@ == pre.update(w, F::spec_e()).update(
                2 * w,
                F::spec_op(pre[w], pre[2 * w]),
            ).update(2 * w + 1, F::spec_op(pre[w], pre[2 * w + 1])),
            crate::segtree::dual::cleared_in(pre, la, la, v, self.k as nat),
            crate::segtree::dual::cleared_in(pre, rb, rb - 1, v, self.k as nat),
        ensures
            crate::segtree::dual::cleared_in(self.maps@, la, la, v, self.k as nat),
            crate::segtree::dual::cleared_in(self.maps@, rb, rb - 1, v, self.k as nat),
    {
        let k = self.k as nat;
        let q = pow2((k - v) as nat) as int;
        assert forall|h: nat|
            v < h <= k && la % pow2(h) as int != 0 implies self.maps@[la / #[trigger] pow2(
            h,
        ) as int] == F::spec_e() by {
            crate::segtree::dual::lemma_la_interior(la, h, k);
            crate::segtree::dual::lemma_level_bounds(la, v, k);
            let u = la / pow2(h) as int;
            assert(u < q);
            vstd::arithmetic::power2::lemma_pow2_pos(h);
            vstd::arithmetic::div_mod::lemma_div_pos_is_pos(la, pow2(h) as int);
            assert(pre[u] == F::spec_e());
            assert(0 <= u < w);
            assert(self.maps@[u] == pre[u]);
        }
        assert forall|h: nat|
            v < h <= k && rb % pow2(h) as int != 0 implies self.maps@[(rb - 1) / #[trigger] pow2(
            h,
        ) as int] == F::spec_e() by {
            crate::segtree::dual::lemma_rb_interior(rb, h, k);
            crate::segtree::dual::lemma_level_bounds(rb - 1, v, k);
            let u = (rb - 1) / pow2(h) as int;
            assert(u < q);
            vstd::arithmetic::power2::lemma_pow2_pos(h);
            vstd::arithmetic::div_mod::lemma_div_pos_is_pos(rb - 1, pow2(h) as int);
            assert(pre[u] == F::spec_e());
            assert(0 <= u < w);
            assert(self.maps@[u] == pre[u]);
        }
    }

    /// Push down every pending action on a node that the boundaries of
    /// `[l, r)` would split, top-down.
    fn push_boundaries(&mut self, l: usize, r: usize)
        requires
            old(self).inv(),
            l <= r,
            r <= old(self).n,
        ensures
            final(self).inv(),
            final(self).n == old(self).n,
            final(self).m == old(self).m,
            final(self).k == old(self).k,
            final(self)@ == old(self)@,
            crate::segtree::dual::cleared_in(
                final(self).maps@,
                l + final(self).m as int,
                l + final(self).m as int,
                0,
                final(self).k as nat,
            ),
            crate::segtree::dual::cleared_in(
                final(self).maps@,
                r + final(self).m as int,
                r + final(self).m as int - 1,
                0,
                final(self).k as nat,
            ),
    {
        let ghost m = self.m as int;
        let ghost kk = self.k as nat;
        let la = l + self.m;
        let rb = r + self.m;
        let mut v: usize = self.k;
        let mut p: usize = self.m;
        while v >= 1
            invariant
                self.inv(),
                self.n == old(self).n,
                self.m == old(self).m,
                self.k == old(self).k,
                self@ == old(self)@,
                m == self.m as int,
                kk == self.k as nat,
                l <= r <= self.n,
                la == l + m,
                rb == r + m,
                v <= self.k,
                p == pow2(v as nat),
                crate::segtree::dual::cleared_in(self.maps@, la as int, la as int, v as nat, kk),
                crate::segtree::dual::cleared_in(
                    self.maps@,
                    rb as int,
                    rb as int - 1,
                    v as nat,
                    kk,
                ),
            decreases v,
        {
            let ghost vn = v as nat;
            proof {
                vstd::arithmetic::power2::lemma_pow2_pos(vn);
            }
            let doa = la % p != 0;
            if doa {
                proof {
                    crate::segtree::dual::lemma_la_interior(la as int, vn, kk);
                    crate::segtree::dual::lemma_level_bounds(la as int, vn, kk);
                    vstd::arithmetic::power2::lemma_pow2_pos((kk - vn) as nat);
                }
                let w = la / p;
                let ghost pre = self.maps@;
                self.push(w);
                proof {
                    self.cleared_kept(pre, la as int, rb as int, vn, w as int);
                }
            }
            let ghost pre1 = self.maps@;
            let dob = rb % p != 0;
            if dob {
                proof {
                    crate::segtree::dual::lemma_rb_interior(rb as int, vn, kk);
                    crate::segtree::dual::lemma_level_bounds(rb as int - 1, vn, kk);
                    vstd::arithmetic::power2::lemma_pow2_pos((kk - vn) as nat);
                }
                let w2 = (rb - 1) / p;
                self.push(w2);
                proof {
                    self.cleared_kept(pre1, la as int, rb as int, vn, w2 as int);
                }
            }
            proof {
                vstd::arithmetic::power2::lemma_pow2_pos((kk - vn) as nat);
                vstd::arithmetic::power2::lemma_pow2_unfold((kk - vn + 1) as nat);
                let wa = la as int / pow2(vn) as int;
                let wb = (rb as int - 1) / pow2(vn) as int;
                if doa {
                    crate::segtree::dual::lemma_la_interior(la as int, vn, kk);
                    crate::segtree::dual::lemma_level_bounds(la as int, vn, kk);
                    crate::segtree::dual::lemma_level_upper(la as int, vn, kk);
                    assert(pre1[wa] == F::spec_e());
                    if dob {
                        crate::segtree::dual::lemma_rb_interior(rb as int, vn, kk);
                        crate::segtree::dual::lemma_level_bounds(rb as int - 1, vn, kk);
                        if wa != wb {
                            assert(wa < 2 * wb && wa < 2 * wb + 1);
                        }
                        assert(self.maps@[wa] == F::spec_e());
                    } else {
                        assert(self.maps@[wa] == F::spec_e());
                    }
                }
                if dob {
                    assert(self.maps@[wb] == F::spec_e());
                }
                assert forall|h: nat|
                    ((vn - 1) as nat) < h <= kk && la as int % pow2(h) as int != 0 implies
                    self.maps@[la as int / #[trigger] pow2(h) as int] == F::spec_e() by {
                    if h > vn {
                    } else {
                        assert(h == vn);
                        assert(doa);
                    }
                }
                assert forall|h: nat|
                    ((vn - 1) as nat) < h <= kk && rb as int % pow2(h) as int != 0 implies
                    self.maps@[(rb as int - 1) / #[trigger] pow2(h) as int] == F::spec_e() by {
                    if h > vn {
                    } else {
                        assert(h == vn);
                        assert(dob);
                    }
                }
                vstd::arithmetic::power2::lemma_pow2_unfold(vn);
            }
            v = v - 1;
            p = p / 2;
        }
    }

    /// A boundary cover node whose strict ancestors are all clean holds
    /// the fold of its block of the abstract contents.
    proof fn node_block_fold(&self, w: int, s: nat)
        requires
            self.inv(),
            1 <= w,
            pow2(self.k as nat) <= w * pow2(s),
            w * pow2(s) < 2 * pow2(self.k as nat),
            (w + 1) * pow2(s) <= self.n + self.m,
            forall|u: int|
                #[trigger] on_path(w, u) && u != w ==> self.maps@[u] == F::spec_e(),
        ensures
            (w + 1) * pow2(s) <= 2 * pow2(self.k as nat),
            self.vals@[w] == seq_fold(
                self@.subrange(w * pow2(s) - self.m, (w + 1) * pow2(s) - self.m),
            ),
    {
        let m = self.m as int;
        let kk = self.k as nat;
        let p = pow2(s) as int;
        vstd::arithmetic::power2::lemma_pow2_pos(s);
        assert((w + 1) * p == w * p + p) by (nonlinear_arith);
        assert forall|i: int| 1 <= i < m && on_path(i, w) implies #[trigger] lazy_cached_at(
            self.vals@,
            self.maps@,
            i,
        ) by {}
        lemma_lazy_node_fold::<S, F>(self.vals@, self.maps@, m, kk, w, s);
        let blk = Seq::new(
            pow2(s),
            |t: int| S::spec_apply(self.vals@[w * p + t], seg_comp(self.maps@, w, w * p + t)),
        );
        assert forall|u: int| #[trigger] on_path(w / 2, u) implies self.maps@[u]
            == F::spec_e() by {
            lemma_on_path_bounds(w / 2, u);
            assert(on_path(w, u));
        }
        lemma_path_comp_clean::<F>(self.maps@, w / 2);
        assert forall|t: int| 0 <= t < p implies blk[t] == self@[w * p - m + t] by {
            let tt = w * p + t;
            assert(m <= tt < m + self.n);
            if tt == w {
                assert(path_comp(self.maps@, tt / 2) == F::spec_e());
            } else {
                lemma_block_to_path(tt, w, s, kk);
                lemma_on_path_strict(tt, w);
                lemma_path_comp_split(self.maps@, w, tt / 2);
                assert(path_comp(self.maps@, w) == F::spec_op(
                    path_comp(self.maps@, w / 2),
                    self.maps@[w],
                ));
                F::lemma_identity(self.maps@[w]);
                F::lemma_identity(F::spec_op(self.maps@[w], path_comp_below(self.maps@, w, tt / 2)));
                assert(path_comp(self.maps@, tt / 2) == F::spec_op(
                    F::spec_op(F::spec_e(), self.maps@[w]),
                    path_comp_below(self.maps@, w, tt / 2),
                ));
                F::lemma_assoc(F::spec_e(), self.maps@[w], path_comp_below(self.maps@, w, tt / 2));
                assert(seg_comp(self.maps@, w, tt) == F::spec_op(
                    self.maps@[w],
                    path_comp_below(self.maps@, w, tt / 2),
                ));
            }
        }
        assert(blk =~= self@.subrange(w * p - m, (w + 1) * p - m));
    }

    /// Fold the monoid operator over the half-open range `[l, r)`,
    /// left to right, after flushing the pending actions that straddle
    /// its boundaries.
    pub fn range_fold(&mut self, l: usize, r: usize) -> (res: S)
        requires
            old(self).inv(),
            l <= r,
            r <= old(self)@.len(),
        ensures
            final(self).inv(),
            final(self)@ == old(self)@,
            res == seq_fold(old(self)@.subrange(l as int, r as int)),
    {
        self.push_boundaries(l, r);
        let ghost m = self.m as int;
        let ghost kk = self.k as nat;
        let la = l + self.m;
        let rb = r + self.m;
        let mut lo = la;
        let mut hi = rb;
        let mut accl = S::e();
        let mut accr = S::e();
        let ghost mut s: nat = 0;
        proof {
            assert(pow2(0) == 1) by {
                vstd::arithmetic::power2::lemma2_to64();
            }
            assert(lo as int * pow2(0) == lo as int) by (nonlinear_arith)
                requires
                    pow2(0) == 1,
            ;
            assert(hi as int * pow2(0) == hi as int) by (nonlinear_arith)
                requires
                    pow2(0) == 1,
            ;
            lemma_fold_empty::<S>(self@, l as int);
            lemma_fold_empty::<S>(self@, r as int);
        }
        while lo < hi
            invariant
                self.inv(),
                self.n == old(self).n,
                self.m == old(self).m,
                self.k == old(self).k,
                self@ == old(self)@,
                m == self.m as int,
                kk == self.k as nat,
                l <= r <= self.n,
                la == l + m,
                rb == r + m,
                self@.len() == self.n,
                1 <= lo,
                lo <= hi,
                lo * pow2(s) >= la,
                (lo - 1) * pow2(s) < la,
                hi * pow2(s) <= rb,
                (hi + 1) * pow2(s) > rb,
                crate::segtree::dual::cleared_in(self.maps@, la as int, la as int, 0, kk),
                crate::segtree::dual::cleared_in(self.maps@, rb as int, rb as int - 1, 0, kk),
                accl == seq_fold(self@.subrange(l as int, lo * pow2(s) - m)),
                accr == seq_fold(self@.subrange(hi * pow2(s) - m, r as int)),
            decreases hi,
        {
            let ghost p = pow2(s) as int;
            proof {
                vstd::arithmetic::power2::lemma_pow2_pos(s);
                assert(hi <= hi * p) by (nonlinear_arith)
                    requires
                        p >= 1,
                        hi >= 0,
                ;
                assert(lo * p <= hi * p) by (nonlinear_arith)
                    requires
                        lo <= hi,
                        p >= 1,
                ;
            }
            if lo % 2 == 1 {
                proof {
                    let lov = lo as int;
                    assert((lov + 1) * p <= hi * p) by (nonlinear_arith)
                        requires
                            lov + 1 <= hi,
                            p >= 1,
                    ;
                    assert((lov + 1) * p == lov * p + p) by (nonlinear_arith);
                    assert forall|u: int| #[trigger] on_path(lov, u) && u != lov implies
                        self.maps@[u] == F::spec_e() by {
                        let h = lemma_walk_anc_left(la as int, s, lov, u, kk);
                        assert(self.maps@[la as int / pow2(h) as int] == F::spec_e());
                    }
                    self.node_block_fold(lov, s);
                    lemma_fold_split(self@, l as int, lov * p - m, lov * p + p - m);
                }
                accl = S::op(&accl, &self.vals[lo]);
                lo = lo + 1;
            }
            if hi % 2 == 1 {
                hi = hi - 1;
                proof {
                    let hv = hi as int;
                    assert((hv + 1) * p == hv * p + p) by (nonlinear_arith);
                    assert((hv + 2) * p == hv * p + 2 * p) by (nonlinear_arith);
                    assert(hv * p >= lo * p) by (nonlinear_arith)
                        requires
                            lo <= hv,
                            p >= 1,
                    ;
                    assert(rb as int - 1 >= la as int >= m);
                    assert forall|u: int| #[trigger] on_path(hv, u) && u != hv implies
                        self.maps@[u] == F::spec_e() by {
                        let h = lemma_walk_anc_right(rb as int, s, hv, u, kk);
                        assert(self.maps@[(rb as int - 1) / pow2(h) as int] == F::spec_e());
                    }
                    self.node_block_fold(hv, s);
                    lemma_fold_split(self@, hv * p - m, hv * p + p - m, r as int);
                }
                accr = S::op(&self.vals[hi], &accr);
            }
            proof {
                let lov = lo as int;
                let hv = hi as int;
                vstd::arithmetic::power2::lemma_pow2_unfold(s + 1);
                assert((lov / 2) * pow2(s + 1) == lov * p) by (nonlinear_arith)
                    requires
                        lov % 2 == 0,
                        pow2(s + 1) == 2 * p,
                ;
                assert((lov / 2 - 1) * pow2(s + 1) == (lov - 2) * p) by (nonlinear_arith)
                    requires
                        lov % 2 == 0,
                        pow2(s + 1) == 2 * p,
                ;
                assert((lov - 2) * p <= (lov - 1) * p) by (nonlinear_arith)
                    requires
                        p >= 0,
                ;
                assert((hv / 2) * pow2(s + 1) == hv * p) by (nonlinear_arith)
                    requires
                        hv % 2 == 0,
                        pow2(s + 1) == 2 * p,
                ;
                assert((hv / 2 + 1) * pow2(s + 1) == (hv + 2) * p) by (nonlinear_arith)
                    requires
                        hv % 2 == 0,
                        pow2(s + 1) == 2 * p,
                ;
                assert((hv + 1) * p <= (hv + 2) * p) by (nonlinear_arith)
                    requires
                        p >= 0,
                ;
                s = s + 1;
            }
            lo = lo / 2;
            hi = hi / 2;
        }
        proof {
            lemma_fold_split(self@, l as int, lo * pow2(s) - m, r as int);
        }
        S::op(&accl, &accr)
    }
}


/// Is `i` a misaligned boundary ancestor (of either boundary of the
/// range `[la, rb)`, at a height in `[vlow, k]`)?
pub(crate) open spec fn bnd_anc(la: int, rb: int, vlow: nat, k: nat, i: int) -> bool {
    exists|h: nat|
        vlow <= h <= k && ((la % pow2(h) as int != 0 && i == la / pow2(h) as int) || (rb % pow2(
            h,
        ) as int != 0 && i == (rb - 1) / #[trigger] pow2(h) as int))
}

impl<S: Action<F>, F: Monoid> LazySegTree<S, F> {
    /// Every internal node is cached, except possibly the misaligned
    /// boundary ancestors at heights in `[vlow, k]`.
    pub(crate) closed spec fn wf_except(&self, la: int, rb: int, vlow: nat) -> bool {
        forall|i: int|
            1 <= i < self.m && !bnd_anc(la, rb, vlow, self.k as nat, i)
                ==> #[trigger] lazy_cached_at(self.vals@, self.maps@, i)
    }

    /// A cover node touched by the walk is not a boundary ancestor.
    proof fn cover_not_bnd(&self, la: int, rb: int, w: int, s: nat, lo: int, hi: int)
        requires
            self.shape_inv(),
            pow2(self.k as nat) <= la <= 2 * pow2(self.k as nat),
            pow2(self.k as nat) <= rb <= 2 * pow2(self.k as nat),
            1 <= lo <= w,
            w < hi,
            lo * pow2(s) >= la,
            hi * pow2(s) <= rb,
            (hi + 1) * pow2(s) > rb,
            pow2(self.k as nat) <= w * pow2(s),
            w * pow2(s) < 2 * pow2(self.k as nat),
        ensures
            !bnd_anc(la, rb, 1, self.k as nat, w),
            forall|h: nat|
                0 < h <= self.k as nat && la % pow2(h) as int != 0 ==> w != la / #[trigger] pow2(
                    h,
                ) as int,
            forall|h: nat|
                0 < h <= self.k as nat && rb % pow2(h) as int != 0 ==> w != (rb - 1)
                    / #[trigger] pow2(h) as int,
    {
        let k = self.k as nat;
        let p = pow2(s) as int;
        vstd::arithmetic::power2::lemma_pow2_pos(s);
        assert forall|h: nat|
            0 < h <= k && la % pow2(h) as int != 0 implies w != la / #[trigger] pow2(
            h,
        ) as int by {
            if w == la / pow2(h) as int {
                crate::segtree::dual::lemma_la_interior(la, h, k);
                lemma_blocks_align(la, h, k);
                lemma_canonical_exp(w, h, s, k);
                vstd::arithmetic::div_mod::lemma_fundamental_div_mod(la, p);
                vstd::arithmetic::div_mod::lemma_mod_bound(la, p);
                assert((la / p) * p == p * (la / p)) by (nonlinear_arith);
                assert((la / p) * p < lo * p);
                assert(la / p < lo) by (nonlinear_arith)
                    requires
                        (la / p) * p < lo * p,
                        p >= 1,
                ;
                assert(false);
            }
        }
        assert forall|h: nat|
            0 < h <= k && rb % pow2(h) as int != 0 implies w != (rb - 1) / #[trigger] pow2(
            h,
        ) as int by {
            if w == (rb - 1) / pow2(h) as int {
                crate::segtree::dual::lemma_rb_interior(rb, h, k);
                lemma_blocks_align(rb - 1, h, k);
                lemma_canonical_exp(w, h, s, k);
                lemma_pred_div(rb, p);
                lemma_div_char(rb, p, hi);
                assert(false);
            }
        }
        assert(!bnd_anc(la, rb, 1, k, w)) by {
            if bnd_anc(la, rb, 1, k, w) {
                let h = choose|h: nat|
                    1 <= h <= k && ((la % pow2(h) as int != 0 && w == la / pow2(h) as int) || (
                    rb % pow2(h) as int != 0 && w == (rb - 1) / #[trigger] pow2(h) as int));
                assert(false);
            }
        }
    }

    /// Effect of transforming a cover node during the walk: its block of
    /// the abstract contents is transformed; outside the block nothing
    /// moves; caching breaks only on boundary ancestors.
    proof fn apply_at_ok(
        &self,
        prev: Self,
        orig: Seq<S>,
        f: F,
        l: int,
        r: int,
        w: int,
        s: nat,
        lo: int,
        hi: int,
    )
        requires
            self.shape_inv(),
            prev.shape_inv(),
            prev.n == self.n,
            prev.m == self.m,
            prev.k == self.k,
            0 <= l <= r <= self.n,
            orig.len() == self.n,
            1 <= lo <= w,
            w < hi,
            lo * pow2(s) >= l + self.m,
            hi * pow2(s) <= r + self.m,
            (hi + 1) * pow2(s) > r + self.m,
            pow2(self.k as nat) <= w * pow2(s),
            w * pow2(s) < 2 * pow2(self.k as nat),
            self.vals@ == prev.vals@.update(w, S::spec_apply(prev.vals@[w], f)),
            self.maps@ == prev.maps@.update(w, F::spec_op(f, prev.maps@[w])),
            forall|u: int|
                #[trigger] on_path(w, u) && u != w ==> prev.maps@[u] == F::spec_e(),
            w >= 2 ==> bnd_anc(l + self.m as int, r + self.m as int, 1, self.k as nat, w / 2),
            crate::segtree::dual::cleared_in(
                prev.maps@,
                l + self.m as int,
                l + self.m as int,
                0,
                self.k as nat,
            ),
            crate::segtree::dual::cleared_in(
                prev.maps@,
                r + self.m as int,
                r + self.m as int - 1,
                0,
                self.k as nat,
            ),
            prev.wf_except(l + self.m as int, r + self.m as int, 1),
        ensures
            crate::segtree::dual::cleared_in(
                self.maps@,
                l + self.m as int,
                l + self.m as int,
                0,
                self.k as nat,
            ),
            crate::segtree::dual::cleared_in(
                self.maps@,
                r + self.m as int,
                r + self.m as int - 1,
                0,
                self.k as nat,
            ),
            self.wf_except(l + self.m as int, r + self.m as int, 1),
            forall|j: int|
                0 <= j < self.n as int ==> #[trigger] self@[j] == (if w * pow2(s) - self.m <= j
                    < (w + 1) * pow2(s) - self.m {
                    S::spec_apply(prev@[j], f)
                } else {
                    prev@[j]
                }),
    {
        let m = self.m as int;
        let k = self.k as nat;
        let p = pow2(s) as int;
        let la = l + m;
        let rb = r + m;
        vstd::arithmetic::power2::lemma_pow2_pos(s);
        assert((w + 1) * p == w * p + p) by (nonlinear_arith);
        assert(lo * p <= w * p && w * p < hi * p) by (nonlinear_arith)
            requires
                lo <= w < hi,
                p >= 1,
        ;
        assert(w <= w * p) by (nonlinear_arith)
            requires
                w >= 1,
                p >= 1,
        ;
        self.cover_not_bnd(la, rb, w, s, lo, hi);
        // Cleared entries survive: the touched node is not one of them.
        assert forall|h: nat|
            0 < h <= k && la % pow2(h) as int != 0 implies self.maps@[la / #[trigger] pow2(
            h,
        ) as int] == F::spec_e() by {
            assert(prev.maps@[la / pow2(h) as int] == F::spec_e());
            vstd::arithmetic::power2::lemma_pow2_pos(h);
            vstd::arithmetic::div_mod::lemma_div_pos_is_pos(la, pow2(h) as int);
            vstd::arithmetic::div_mod::lemma_div_nonincreasing(la, pow2(h) as int);
        }
        assert forall|h: nat|
            0 < h <= k && rb % pow2(h) as int != 0 implies self.maps@[(rb - 1) / #[trigger] pow2(
            h,
        ) as int] == F::spec_e() by {
            assert(prev.maps@[(rb - 1) / pow2(h) as int] == F::spec_e());
            crate::segtree::dual::lemma_rb_interior(rb, h, k);
            vstd::arithmetic::power2::lemma_pow2_pos(h);
            vstd::arithmetic::div_mod::lemma_div_pos_is_pos(rb - 1, pow2(h) as int);
            vstd::arithmetic::div_mod::lemma_div_nonincreasing(rb - 1, pow2(h) as int);
        }
        // Caching: the touched node keeps its equation; its parent is a
        // boundary ancestor; everything else is untouched.
        assert(lazy_cached_at(prev.vals@, prev.maps@, w) || w >= m);
        assert forall|i: int|
            1 <= i < m && !bnd_anc(la, rb, 1, k, i) implies #[trigger] lazy_cached_at(
            self.vals@,
            self.maps@,
            i,
        ) by {
            if i == w {
                assert(lazy_cached_at(prev.vals@, prev.maps@, w));
                S::lemma_apply_compose(
                    S::spec_op(prev.vals@[2 * w], prev.vals@[2 * w + 1]),
                    prev.maps@[w],
                    f,
                );
            } else if 2 * i == w || 2 * i + 1 == w {
                assert(i == w / 2);
                assert(w >= 2);
                assert(bnd_anc(la, rb, 1, k, i));
                assert(false);
            } else {
                assert(lazy_cached_at(prev.vals@, prev.maps@, i));
            }
        }
        // The abstract contents of the node's block are transformed.
        assert forall|j: int| 0 <= j < self.n as int implies #[trigger] self@[j] == (if w * p - m
            <= j < (w + 1) * p - m {
            S::spec_apply(prev@[j], f)
        } else {
            prev@[j]
        }) by {
            let t = m + j;
            assert(prev@[j] == S::spec_apply(prev.vals@[t], path_comp(prev.maps@, t / 2)));
            assert(self@[j] == S::spec_apply(self.vals@[t], path_comp(self.maps@, t / 2)));
            if on_path(t, w) {
                lemma_path_to_block(t, w, s, k);
                assert(w * p - m <= j < (w + 1) * p - m);
                if t == w {
                    // Leaf-level cover node.
                    assert forall|u: int| #[trigger] on_path(w / 2, u) implies prev.maps@[u]
                        == F::spec_e() by {
                        lemma_on_path_bounds(w / 2, u);
                        assert(on_path(w, u));
                    }
                    lemma_path_comp_clean::<F>(prev.maps@, w / 2);
                    assert forall|u: int| #[trigger] on_path(w / 2, u) implies self.maps@[u]
                        == prev.maps@[u] by {
                        lemma_on_path_bounds(w / 2, u);
                    }
                    lemma_path_comp_frame(prev.maps@, self.maps@, w / 2);
                    S::lemma_apply_identity(prev.vals@[t]);
                    S::lemma_apply_identity(S::spec_apply(prev.vals@[t], f));
                } else {
                    lemma_on_path_strict(t, w);
                    lemma_merge_at(prev.maps@, self.maps@, w, f, t / 2);
                    assert(self.vals@[t] == prev.vals@[t]);
                    S::lemma_apply_compose(prev.vals@[t], path_comp(prev.maps@, t / 2), f);
                }
            } else {
                if w * p - m <= j < (w + 1) * p - m {
                    lemma_block_to_path(t, w, s, k);
                }
                assert(t != w);
                assert(self.vals@[t] == prev.vals@[t]);
                assert(!on_path(t / 2, w)) by {
                    if on_path(t / 2, w) {
                        assert(on_path(t, w));
                    }
                }
                lemma_merge_at(prev.maps@, self.maps@, w, f, t / 2);
            }
        }
    }

    /// Apply `f` to every index in the half-open range `[l, r)`.
    pub fn range_apply(&mut self, l: usize, r: usize, f: &F)
        requires
            old(self).inv(),
            l <= r,
            r <= old(self)@.len(),
        ensures
            final(self).inv(),
            final(self)@.len() == old(self)@.len(),
            forall|j: int|
                0 <= j < old(self)@.len() ==> final(self)@[j] == (if l <= j < r {
                    S::spec_apply(old(self)@[j], *f)
                } else {
                    old(self)@[j]
                }),
    {
        let ghost m = self.m as int;
        let ghost kk = self.k as nat;
        let ghost orig = old(self)@;
        let la = l + self.m;
        let rb = r + self.m;
        self.push_boundaries(l, r);
        let mut lo = la;
        let mut hi = rb;
        let ghost mut s: nat = 0;
        proof {
            assert(pow2(0) == 1) by {
                vstd::arithmetic::power2::lemma2_to64();
            }
            assert(lo as int * pow2(0) == lo as int) by (nonlinear_arith)
                requires
                    pow2(0) == 1,
            ;
            assert(hi as int * pow2(0) == hi as int) by (nonlinear_arith)
                requires
                    pow2(0) == 1,
            ;
            assert forall|i: int|
                1 <= i < m && !bnd_anc(la as int, rb as int, 1, kk, i) implies #[trigger]
                lazy_cached_at(self.vals@, self.maps@, i) by {}
        }
        while lo < hi
            invariant
                self.shape_inv(),
                self.n == old(self).n,
                self.m == old(self).m,
                self.k == old(self).k,
                m == self.m as int,
                kk == self.k as nat,
                l <= r <= self.n,
                la == l + m,
                rb == r + m,
                orig.len() == self.n,
                1 <= lo,
                lo <= hi,
                lo * pow2(s) >= la,
                (lo - 1) * pow2(s) < la,
                hi * pow2(s) <= rb,
                (hi + 1) * pow2(s) > rb,
                crate::segtree::dual::cleared_in(self.maps@, la as int, la as int, 0, kk),
                crate::segtree::dual::cleared_in(self.maps@, rb as int, rb as int - 1, 0, kk),
                self.wf_except(la as int, rb as int, 1),
                forall|j: int|
                    0 <= j < self.n as int ==> #[trigger] self@[j] == (if (l <= j < lo * pow2(s)
                        - m) || (hi * pow2(s) - m <= j < r) {
                        S::spec_apply(orig[j], *f)
                    } else {
                        orig[j]
                    }),
            decreases hi,
        {
            let ghost p = pow2(s) as int;
            proof {
                vstd::arithmetic::power2::lemma_pow2_pos(s);
                assert(hi <= hi * p) by (nonlinear_arith)
                    requires
                        p >= 1,
                        hi >= 0,
                ;
                assert(lo * p <= hi * p) by (nonlinear_arith)
                    requires
                        lo <= hi,
                        p >= 1,
                ;
            }
            if lo % 2 == 1 {
                let ghost prev = *self;
                proof {
                    assert((lo + 1) * p <= hi * p) by (nonlinear_arith)
                        requires
                            lo + 1 <= hi,
                            p >= 1,
                    ;
                    assert((lo + 1) * p == lo * p + p) by (nonlinear_arith);
                    assert forall|u: int|
                        #[trigger] on_path(lo as int, u) && u != lo as int implies self.maps@[u]
                        == F::spec_e() by {
                        let h = lemma_walk_anc_left(la as int, s, lo as int, u, kk);
                        assert(self.maps@[la as int / pow2(h) as int] == F::spec_e());
                    }
                    if lo >= 2 {
                        assert(on_path(lo as int, lo as int));
                        crate::treemath::lemma_on_path_parent(lo as int, lo as int);
                        let h = lemma_walk_anc_left(la as int, s, lo as int, lo as int / 2, kk);
                        assert(bnd_anc(la as int, rb as int, 1, kk, lo as int / 2));
                    }
                }
                let nv = S::apply(&self.vals[lo], f);
                self.vals[lo] = nv;
                let nm = F::op(f, &self.maps[lo]);
                self.maps[lo] = nm;
                proof {
                    self.apply_at_ok(
                        prev,
                        orig,
                        *f,
                        l as int,
                        r as int,
                        lo as int,
                        s,
                        lo as int,
                        hi as int,
                    );
                }
                lo = lo + 1;
            }
            if hi % 2 == 1 {
                hi = hi - 1;
                let ghost prev = *self;
                proof {
                    assert((hi + 1) * p == hi * p + p) by (nonlinear_arith);
                    assert((hi + 2) * p == hi * p + 2 * p) by (nonlinear_arith);
                    assert(hi as int * p >= lo * p) by (nonlinear_arith)
                        requires
                            lo <= hi,
                            p >= 1,
                    ;
                    assert(rb as int - 1 >= la as int >= m);
                    assert forall|u: int|
                        #[trigger] on_path(hi as int, u) && u != hi as int implies self.maps@[u]
                        == F::spec_e() by {
                        let h = lemma_walk_anc_right(rb as int, s, hi as int, u, kk);
                        assert(self.maps@[(rb as int - 1) / pow2(h) as int] == F::spec_e());
                    }
                    if hi >= 2 {
                        assert(on_path(hi as int, hi as int));
                        crate::treemath::lemma_on_path_parent(hi as int, hi as int);
                        let h = lemma_walk_anc_right(rb as int, s, hi as int, hi as int / 2, kk);
                        assert(bnd_anc(la as int, rb as int, 1, kk, hi as int / 2));
                    }
                }
                let nv = S::apply(&self.vals[hi], f);
                self.vals[hi] = nv;
                let nm = F::op(f, &self.maps[hi]);
                self.maps[hi] = nm;
                proof {
                    self.apply_at_ok(
                        prev,
                        orig,
                        *f,
                        l as int,
                        r as int,
                        hi as int,
                        s,
                        lo as int,
                        hi as int + 1,
                    );
                }
            }
            proof {
                let lov = lo as int;
                let hv = hi as int;
                vstd::arithmetic::power2::lemma_pow2_unfold(s + 1);
                assert((lov / 2) * pow2(s + 1) == lov * p) by (nonlinear_arith)
                    requires
                        lov % 2 == 0,
                        pow2(s + 1) == 2 * p,
                ;
                assert((lov / 2 - 1) * pow2(s + 1) == (lov - 2) * p) by (nonlinear_arith)
                    requires
                        lov % 2 == 0,
                        pow2(s + 1) == 2 * p,
                ;
                assert((lov - 2) * p <= (lov - 1) * p && (lov - 1) * p <= lov * p)
                    by (nonlinear_arith)
                    requires
                        p >= 0,
                ;
                assert((hv / 2) * pow2(s + 1) == hv * p) by (nonlinear_arith)
                    requires
                        hv % 2 == 0,
                        pow2(s + 1) == 2 * p,
                ;
                assert((hv / 2 + 1) * pow2(s + 1) == (hv + 2) * p) by (nonlinear_arith)
                    requires
                        hv % 2 == 0,
                        pow2(s + 1) == 2 * p,
                ;
                assert((hv + 1) * p <= (hv + 2) * p) by (nonlinear_arith)
                    requires
                        p >= 0,
                ;
                s = s + 1;
            }
            lo = lo / 2;
            hi = hi / 2;
        }
        // Recompute the aggregates of the boundary ancestors, bottom-up.
        let mut v: usize = 1;
        let mut p: usize = 2;
        proof {
            assert(pow2(1) == 2) by {
                vstd::arithmetic::power2::lemma2_to64();
            }
        }
        while v <= self.k
            invariant
                self.shape_inv(),
                self.n == old(self).n,
                self.m == old(self).m,
                self.k == old(self).k,
                m == self.m as int,
                kk == self.k as nat,
                l <= r <= self.n,
                la == l + m,
                rb == r + m,
                orig.len() == self.n,
                1 <= v <= self.k + 1,
                p == pow2(v as nat),
                crate::segtree::dual::cleared_in(self.maps@, la as int, la as int, 0, kk),
                crate::segtree::dual::cleared_in(self.maps@, rb as int, rb as int - 1, 0, kk),
                self.wf_except(la as int, rb as int, v as nat),
                forall|j: int|
                    0 <= j < self.n as int ==> #[trigger] self@[j] == (if l <= j < r {
                        S::spec_apply(orig[j], *f)
                    } else {
                        orig[j]
                    }),
            decreases self.k + 1 - v,
        {
            let ghost vn = v as nat;
            proof {
                vstd::arithmetic::power2::lemma_pow2_pos(vn);
                crate::treemath::lemma_pow2_le(vn, kk);
            }
            let doa = la % p != 0;
            if doa {
                proof {
                    crate::segtree::dual::lemma_la_interior(la as int, vn, kk);
                    crate::segtree::dual::lemma_level_bounds(la as int, vn, kk);
                    vstd::arithmetic::power2::lemma_pow2_pos((kk - vn) as nat);
                }
                let a = la / p;
                let ghost preA = *self;
                let x = S::op(&self.vals[2 * a], &self.vals[2 * a + 1]);
                self.vals[a] = x;
                proof {
                    self.refix_ok(preA, orig, *f, l as int, r as int, a as int, vn, true);
                }
            }
            let ghost pre1 = *self;
            let dob = rb % p != 0;
            if dob {
                proof {
                    crate::segtree::dual::lemma_rb_interior(rb as int, vn, kk);
                    crate::segtree::dual::lemma_level_bounds(rb as int - 1, vn, kk);
                    vstd::arithmetic::power2::lemma_pow2_pos((kk - vn) as nat);
                }
                let a2 = (rb - 1) / p;
                let ghost preB = *self;
                let x2 = S::op(&self.vals[2 * a2], &self.vals[2 * a2 + 1]);
                self.vals[a2] = x2;
                proof {
                    self.refix_ok(preB, orig, *f, l as int, r as int, a2 as int, vn, false);
                }
            }
            proof {
                let wa = la as int / pow2(vn) as int;
                let wb = (rb as int - 1) / pow2(vn) as int;
                if doa && dob && wa != wb {
                    assert(wa != wb / 2) by {
                        if wa == wb / 2 {
                            crate::segtree::dual::lemma_la_interior(la as int, vn, kk);
                            lemma_blocks_align(la as int, vn, kk);
                            crate::segtree::dual::lemma_rb_interior(rb as int, vn, kk);
                            lemma_div_pow2_add(rb as int - 1, vn, 1);
                            assert(pow2(1) == 2) by {
                                vstd::arithmetic::power2::lemma2_to64();
                            }
                            if vn < kk {
                                lemma_blocks_align(rb as int - 1, vn + 1, kk);
                                lemma_canonical_exp(wa, vn, vn + 1, kk);
                            } else {
                                vstd::arithmetic::power2::lemma_pow2_pos((kk - vn) as nat);
                                crate::segtree::dual::lemma_level_bounds(rb as int - 1, vn, kk);
                                vstd::arithmetic::power2::lemma_pow2_unfold(kk + 1);
                                vstd::arithmetic::div_mod::lemma_basic_div(
                                    rb as int - 1,
                                    pow2(kk + 1) as int,
                                );
                            }
                        }
                    }
                    assert(lazy_cached_at(self.vals@, self.maps@, wa));
                }
                self.refix_step(la as int, rb as int, vn, doa, dob);
                vstd::arithmetic::power2::lemma_pow2_unfold(vn + 1);
            }
            v = v + 1;
            p = p * 2;
        }
        proof {
            assert forall|i: int| 1 <= i < m implies #[trigger] lazy_cached_at(
                self.vals@,
                self.maps@,
                i,
            ) by {
                assert(!bnd_anc(la as int, rb as int, (self.k + 1) as nat, kk, i)) by {
                    if bnd_anc(la as int, rb as int, (self.k + 1) as nat, kk, i) {
                        let h = choose|h: nat|
                            (self.k + 1) as nat <= h <= kk && ((la as int % pow2(h) as int != 0
                                && i == la as int / pow2(h) as int) || (rb as int % pow2(
                                h,
                            ) as int != 0 && i == (rb as int - 1) / #[trigger] pow2(h) as int));
                        assert(false);
                    }
                }
            }
        }
    }
}


impl<S: Action<F>, F: Monoid> LazySegTree<S, F> {
    /// Recomputing one boundary ancestor's aggregate from its children
    /// restores its cache equation and disturbs nothing else.
    proof fn refix_ok(
        &self,
        prev: Self,
        orig: Seq<S>,
        f: F,
        l: int,
        r: int,
        a: int,
        v: nat,
        left: bool,
    )
        requires
            self.shape_inv(),
            prev.shape_inv(),
            prev.n == self.n,
            prev.m == self.m,
            prev.k == self.k,
            0 <= l <= r <= self.n,
            orig.len() == self.n,
            1 <= v <= self.k as nat,
            left ==> (l + self.m as int) % pow2(v) as int != 0 && a == (l + self.m as int) / pow2(
                v,
            ) as int,
            !left ==> (r + self.m as int) % pow2(v) as int != 0 && a == (r + self.m as int - 1)
                / pow2(v) as int,
            pow2((self.k as nat - v) as nat) <= a,
            a < pow2(self.k as nat),
            self.vals@ == prev.vals@.update(
                a,
                S::spec_op(prev.vals@[2 * a], prev.vals@[2 * a + 1]),
            ),
            self.maps@ == prev.maps@,
            crate::segtree::dual::cleared_in(
                prev.maps@,
                l + self.m as int,
                l + self.m as int,
                0,
                self.k as nat,
            ),
            crate::segtree::dual::cleared_in(
                prev.maps@,
                r + self.m as int,
                r + self.m as int - 1,
                0,
                self.k as nat,
            ),
            prev.wf_except(l + self.m as int, r + self.m as int, v),
            forall|j: int|
                0 <= j < self.n as int ==> #[trigger] prev@[j] == (if l <= j < r {
                    S::spec_apply(orig[j], f)
                } else {
                    orig[j]
                }),
        ensures
            lazy_cached_at(self.vals@, self.maps@, a),
            self.wf_except(l + self.m as int, r + self.m as int, v),
            forall|i: int|
                1 <= i < self.m && lazy_cached_at(prev.vals@, prev.maps@, i) && i != a && i != a
                    / 2 ==> #[trigger] lazy_cached_at(self.vals@, self.maps@, i),
            forall|j: int|
                0 <= j < self.n as int ==> #[trigger] self@[j] == (if l <= j < r {
                    S::spec_apply(orig[j], f)
                } else {
                    orig[j]
                }),
    {
        let m = self.m as int;
        let k = self.k as nat;
        let la = l + m;
        let rb = r + m;
        vstd::arithmetic::power2::lemma_pow2_pos(v);
        vstd::arithmetic::power2::lemma_pow2_pos((k - v) as nat);
        // The node's own pending action is the identity.
        assert(self.maps@[a] == F::spec_e());
        S::lemma_apply_identity(S::spec_op(self.vals@[2 * a], self.vals@[2 * a + 1]));
        assert(lazy_cached_at(self.vals@, self.maps@, a));
        // The node and its parent are exempt from caching.
        assert(bnd_anc(la, rb, v, k, a)) by {
            assert(v <= v <= k);
        }
        assert forall|i: int|
            1 <= i < self.m && lazy_cached_at(prev.vals@, prev.maps@, i) && i != a && i != a / 2
            implies #[trigger] lazy_cached_at(self.vals@, self.maps@, i) by {
            assert(2 * i != a && 2 * i + 1 != a);
        }
        assert forall|i: int|
            1 <= i < m && !bnd_anc(la, rb, v, k, i) implies #[trigger] lazy_cached_at(
            self.vals@,
            self.maps@,
            i,
        ) by {
            if i == a {
            } else if i == a / 2 {
                // the parent is a boundary ancestor one level up
                if v < k {
                    let x = if left {
                        la
                    } else {
                        rb - 1
                    };
                    let b = if left {
                        la
                    } else {
                        rb
                    };
                    lemma_div_pow2_add(x, v, 1);
                    assert(pow2(1) == 2) by {
                        vstd::arithmetic::power2::lemma2_to64();
                    }
                    assert(pow2(v + 1) == 2 * pow2(v)) by {
                        vstd::arithmetic::power2::lemma_pow2_unfold(v + 1);
                    }
                    assert(a / 2 == x / pow2(v + 1) as int);
                    assert(b % pow2(v + 1) as int != 0) by {
                        if b % pow2(v + 1) as int == 0 {
                            crate::treemath::lemma_pow2_divides_down(b, v, 1);
                        }
                    }
                    assert(bnd_anc(la, rb, v, k, i));
                    assert(false);
                } else {
                    // v == k: the node is the root and has no parent.
                    assert(a == 1) by {
                        if a >= 2 {
                            assert(pow2((k - v) as nat) == 1) by {
                                vstd::arithmetic::power2::lemma2_to64();
                            }
                            assert(a < pow2(k));
                            let x = if left {
                                la
                            } else {
                                rb - 1
                            };
                            assert((2 * pow2(k)) as int == pow2(v) as int * 2);
                            assert(x < pow2(v) as int * 2) by {
                                if left {
                                    crate::segtree::dual::lemma_la_interior(la, v, k);
                                } else {
                                    crate::segtree::dual::lemma_rb_interior(rb, v, k);
                                }
                            }
                            vstd::arithmetic::div_mod::lemma_multiply_divide_lt(
                                x,
                                pow2(v) as int,
                                2,
                            );
                        }
                    }
                    assert(i == 0);
                    assert(false);
                }
            } else {
                assert(!bnd_anc(la, rb, v, k, i));
                assert(lazy_cached_at(prev.vals@, prev.maps@, i));
                assert(2 * i != a && 2 * i + 1 != a);
            }
        }
        // Leaves are untouched, so the abstract contents are unchanged.
        assert(a < m);
        assert forall|j: int| 0 <= j < self.n as int implies self@[j] == prev@[j] by {
            assert(self.vals@[m + j] == prev.vals@[m + j]);
        }
    }

    /// After both boundary ancestors at height `v` have been recomputed,
    /// the caching exemption rises one level.
    proof fn refix_step(&self, la: int, rb: int, v: nat, doa: bool, dob: bool)
        requires
            self.shape_inv(),
            1 <= v <= self.k as nat,
            doa == (la % pow2(v) as int != 0),
            dob == (rb % pow2(v) as int != 0),
            self.wf_except(la, rb, v),
            doa ==> lazy_cached_at(self.vals@, self.maps@, la / pow2(v) as int),
            dob ==> lazy_cached_at(self.vals@, self.maps@, (rb - 1) / pow2(v) as int),
        ensures
            self.wf_except(la, rb, (v + 1) as nat),
    {
        let k = self.k as nat;
        let m = self.m as int;
        assert forall|i: int|
            1 <= i < m && !bnd_anc(la, rb, (v + 1) as nat, k, i) implies #[trigger]
            lazy_cached_at(self.vals@, self.maps@, i) by {
            if bnd_anc(la, rb, v, k, i) {
                let h = choose|h: nat|
                    v <= h <= k && ((la % pow2(h) as int != 0 && i == la / pow2(h) as int) || (
                    rb % pow2(h) as int != 0 && i == (rb - 1) / #[trigger] pow2(h) as int));
                if h > v {
                    assert(bnd_anc(la, rb, (v + 1) as nat, k, i));
                    assert(false);
                } else {
                    assert(h == v);
                }
            }
        }
    }
}

} // verus!

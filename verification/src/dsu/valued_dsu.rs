//! Disjoint set union whose sets each carry an aggregate value.
//!
//! The value of a set lives at its representative; merging two sets
//! combines their values with the monoid operator.  The operator must
//! commute, because which representative survives a merge depends on
//! the set sizes.

use vstd::prelude::*;

use crate::algebra::ComMonoid;
use crate::dsu::{all_roots, group_of, lemma_subrange_set_len};

verus! {

/// Disjoint set union with a commutative-monoid value on each set.
pub struct ValuedDSU<T: ComMonoid> {
    parents: Vec<i32>,
    count: usize,
    vals: Vec<T>,
    root: Ghost<Seq<int>>,
    depth: Ghost<Seq<nat>>,
}

impl<T: ComMonoid> ValuedDSU<T> {
    /// The number of elements.
    pub closed spec fn spec_n(&self) -> int {
        self.parents@.len() as int
    }

    /// The representative of element `v`.
    pub closed spec fn spec_rep(&self, v: int) -> int {
        self.root@[v]
    }

    /// Do `u` and `v` belong to the same set?
    pub open spec fn spec_same(&self, u: int, v: int) -> bool {
        self.spec_rep(u) == self.spec_rep(v)
    }

    /// The value of the set containing `v`.
    pub closed spec fn spec_val(&self, v: int) -> T {
        self.vals@[self.root@[v]]
    }

    /// The number of sets.
    pub closed spec fn spec_count(&self) -> int {
        self.count as int
    }

    /// Structural well-formedness.
    pub closed spec fn inv(&self) -> bool {
        let n = self.parents@.len() as int;
        &&& n <= i32::MAX
        &&& self.root@.len() == n
        &&& self.depth@.len() == n
        &&& self.vals@.len() == n
        &&& forall|v: int|
            0 <= v < n && self.parents@[v] >= 0 ==> self.parents@[v] < n && self.depth@[(
            #[trigger] self.parents@[v]) as int] < self.depth@[v] && self.root@[v] == self.root@[
                self.parents@[v] as int]
        &&& forall|v: int|
            0 <= v < n && self.parents@[v] < 0 ==> #[trigger] self.root@[v] == v
        &&& forall|v: int|
            0 <= v < n ==> 0 <= #[trigger] self.root@[v] < n && self.parents@[self.root@[v]] < 0
        &&& forall|r: int|
            0 <= r < n && self.parents@[r] < 0 ==> (#[trigger] self.parents@[r]) as int == -(
            group_of(self.root@, n, r).len() as int)
        &&& self.count == all_roots(self.root@, n).len()
    }

    /// Create `n` singleton sets, each valued with the identity.
    pub fn new(n: usize) -> (r: Self)
        requires
            n <= i32::MAX,
        ensures
            r.inv(),
            r.spec_n() == n,
            forall|v: int| 0 <= v < n ==> #[trigger] r.spec_rep(v) == v,
            forall|v: int| 0 <= v < n ==> #[trigger] r.spec_val(v) == T::spec_e(),
            r.spec_count() == n,
    {
        let mut parents: Vec<i32> = Vec::new();
        let mut vals: Vec<T> = Vec::new();
        let mut i: usize = 0;
        while i < n
            invariant
                i <= n,
                parents@.len() == i,
                vals@.len() == i,
                forall|v: int| 0 <= v < i ==> parents@[v] == -1,
                forall|v: int| 0 <= v < i ==> vals@[v] == T::spec_e(),
            decreases n - i,
        {
            parents.push(-1);
            vals.push(T::e());
            i = i + 1;
        }
        let r = ValuedDSU {
            parents,
            count: n,
            vals,
            root: Ghost(Seq::new(n as nat, |v: int| v)),
            depth: Ghost(Seq::new(n as nat, |v: int| 0nat)),
        };
        proof {
            let nn = n as int;
            assert forall|rt: int| 0 <= rt < nn && r.parents@[rt] < 0 implies (
            #[trigger] r.parents@[rt]) as int == -(group_of(r.root@, nn, rt).len() as int) by {
                assert(group_of(r.root@, nn, rt) =~= set![rt]);
            }
            assert(all_roots(r.root@, nn) =~= vstd::set_lib::set_int_range(0, nn));
            vstd::set_lib::lemma_int_range(0, nn);
        }
        r
    }

    /// Return the representative of the set containing `v`.
    pub fn rep(&self, v: usize) -> (r: usize)
        requires
            self.inv(),
            v < self.spec_n(),
        ensures
            r == self.spec_rep(v as int),
    {
        let mut cur = v;
        while self.parents[cur] >= 0
            invariant
                self.inv(),
                cur < self.parents@.len(),
                self.root@[cur as int] == self.root@[v as int],
            decreases self.depth@[cur as int],
        {
            cur = self.parents[cur] as usize;
        }
        cur
    }

    /// Return the value of the set containing `v`.
    pub fn val(&self, v: usize) -> (r: T)
        requires
            self.inv(),
            v < self.spec_n(),
        ensures
            r == self.spec_val(v as int),
    {
        self.vals[self.rep(v)]
    }

    /// Overwrite the value of the set containing `v` with `x`.
    pub fn update(&mut self, v: usize, x: &T)
        requires
            old(self).inv(),
            v < old(self).spec_n(),
        ensures
            final(self).inv(),
            final(self).spec_n() == old(self).spec_n(),
            final(self).spec_count() == old(self).spec_count(),
            forall|y: int|
                0 <= y < old(self).spec_n() ==> #[trigger] final(self).spec_rep(y) == old(
                    self,
                ).spec_rep(y),
            forall|y: int|
                0 <= y < old(self).spec_n() ==> #[trigger] final(self).spec_val(y) == if old(
                    self,
                ).spec_same(y, v as int) {
                    *x
                } else {
                    old(self).spec_val(y)
                },
    {
        let rt = self.rep(v);
        self.vals[rt] = *x;
    }

    /// Do `u` and `v` belong to the same set?
    pub fn is_same(&self, u: usize, v: usize) -> (r: bool)
        requires
            self.inv(),
            u < self.spec_n(),
            v < self.spec_n(),
        ensures
            r == self.spec_same(u as int, v as int),
    {
        self.rep(u) == self.rep(v)
    }

    /// Merge the sets containing `u` and `v`, combining their values;
    /// report whether they were distinct.
    pub fn unite(&mut self, u: usize, v: usize) -> (r: bool)
        requires
            old(self).inv(),
            u < old(self).spec_n(),
            v < old(self).spec_n(),
        ensures
            final(self).inv(),
            final(self).spec_n() == old(self).spec_n(),
            r == !old(self).spec_same(u as int, v as int),
            final(self).spec_count() == if r {
                old(self).spec_count() - 1
            } else {
                old(self).spec_count()
            },
            forall|x: int, y: int|
                0 <= x < old(self).spec_n() && 0 <= y < old(self).spec_n()
                    ==> (#[trigger] final(self).spec_same(x, y) == (old(self).spec_same(x, y) || (
                    old(self).spec_same(x, u as int) && old(self).spec_same(y, v as int)) || (old(
                        self,
                    ).spec_same(x, v as int) && old(self).spec_same(y, u as int)))),
            forall|y: int|
                0 <= y < old(self).spec_n() ==> #[trigger] final(self).spec_val(y) == if r && (old(
                    self,
                ).spec_same(y, u as int) || old(self).spec_same(y, v as int)) {
                    T::spec_op(old(self).spec_val(u as int), old(self).spec_val(v as int))
                } else {
                    old(self).spec_val(y)
                },
    {
        let ghost n = self.parents@.len() as int;
        let mut a = self.rep(u);
        let mut b = self.rep(v);
        if a == b {
            return false;
        }
        let ghost swapped = self.parents@[a as int] > self.parents@[b as int];
        if self.parents[a] > self.parents[b] {
            let t = a;
            a = b;
            b = t;
        }
        // `a` keeps the larger set; `b`'s set joins it.
        let ghost old_roots = self.root@;
        let ghost old_depth = self.depth@;
        let ghost old_vals = self.vals@;
        let pa = self.parents[a];
        let pb = self.parents[b];
        proof {
            let ga = group_of(old_roots, n, a as int);
            let gb = group_of(old_roots, n, b as int);
            lemma_subrange_set_len(ga, n);
            lemma_subrange_set_len(gb, n);
            assert(ga.disjoint(gb));
            vstd::set_lib::lemma_set_disjoint_lens(ga, gb);
            lemma_subrange_set_len(ga + gb, n);
            let ar = all_roots(old_roots, n);
            lemma_subrange_set_len(ar, n);
            assert(ar.contains(a as int));
            vstd::set::axiom_set_remove_len(ar, a as int);
        }
        self.parents[a] = pa + pb;
        self.parents[b] = a as i32;
        let merged_val = T::op(&self.vals[a], &self.vals[b]);
        self.vals[a] = merged_val;
        let ev = T::e();
        self.vals[b] = ev;
        self.count = self.count - 1;
        proof {
            let ai = a as int;
            let bi = b as int;
            let shift = (old_depth[ai] + 1) as nat;
            self.root@ = Seq::new(n as nat, |x: int| if old_roots[x] == bi {
                ai
            } else {
                old_roots[x]
            });
            self.depth@ = Seq::new(n as nat, |x: int| if old_roots[x] == bi {
                (old_depth[x] + shift) as nat
            } else {
                old_depth[x]
            });
            let merged = group_of(self.root@, n, ai);
            let ga = group_of(old_roots, n, ai);
            let gb = group_of(old_roots, n, bi);
            assert(merged =~= ga + gb);
            assert(ga.disjoint(gb));
            lemma_subrange_set_len(ga, n);
            lemma_subrange_set_len(gb, n);
            vstd::set_lib::lemma_set_disjoint_lens(ga, gb);
            assert forall|rt: int|
                0 <= rt < n && self.parents@[rt] < 0 implies (#[trigger] self.parents@[rt]) as int
                == -(group_of(self.root@, n, rt).len() as int) by {
                if rt == ai {
                } else {
                    assert(rt != bi);
                    assert(group_of(self.root@, n, rt) =~= group_of(old_roots, n, rt));
                }
            }
            assert(all_roots(self.root@, n) =~= all_roots(old_roots, n).remove(bi));
            lemma_subrange_set_len(all_roots(old_roots, n), n);
            assert(all_roots(old_roots, n).contains(bi));
            // with the swap the operands change sides; commutativity restores them
            if swapped {
                T::lemma_comm(old_vals[ai], old_vals[bi]);
            }
        }
        true
    }

    /// Return the size of the set containing `v`.
    pub fn size(&self, v: usize) -> (r: usize)
        requires
            self.inv(),
            v < self.spec_n(),
        ensures
            r == group_of(self.spec_roots(), self.spec_n(), v as int).len(),
    {
        let rt = self.rep(v);
        proof {
            lemma_subrange_set_len(group_of(self.root@, self.spec_n(), v as int), self.spec_n());
            assert(group_of(self.root@, self.spec_n(), rt as int) =~= group_of(
                self.root@,
                self.spec_n(),
                v as int,
            ));
        }
        (-self.parents[rt]) as usize
    }

    /// The ghost representative assignment, for stating contracts.
    pub closed spec fn spec_roots(&self) -> Seq<int> {
        self.root@
    }

    /// Return the number of sets.
    pub fn count(&self) -> (r: usize)
        requires
            self.inv(),
        ensures
            r == self.spec_count(),
    {
        self.count
    }
}

} // verus!

//! Disjoint set union with union by size.
//!
//! Each element points toward the representative of its set; negative
//! entries mark representatives and store the set size, negated.  Ghost
//! maps carry each element's representative and a strictly decreasing
//! depth toward it, which is what makes the chase terminate.

pub mod potential_dsu;
pub mod valued_dsu;

use vstd::prelude::*;
use vstd::set_lib::lemma_len_subset;

verus! {

/// The elements of `[0, n)` sharing a representative with `v`.
pub open spec fn group_of(root: Seq<int>, n: int, v: int) -> Set<int> {
    Set::new(|x: int| 0 <= x < n && root[x] == root[v])
}

/// The set of representatives.
pub open spec fn all_roots(root: Seq<int>, n: int) -> Set<int> {
    Set::new(|x: int| 0 <= x < n && root[x] == x)
}

/// A set of elements of `[0, n)` is finite and no larger than `n`.
pub proof fn lemma_subrange_set_len(s: Set<int>, n: int)
    requires
        0 <= n,
        forall|x: int| s.contains(x) ==> 0 <= x < n,
    ensures
        s.finite(),
        s.len() <= n,
{
    let rng = vstd::set_lib::set_int_range(0, n);
    vstd::set_lib::lemma_int_range(0, n);
    assert(s.subset_of(rng));
    lemma_len_subset(s, rng);
}

/// Disjoint set union: near-constant-time set merging and membership.
pub struct DSU {
    parents: Vec<i32>,
    count: usize,
    root: Ghost<Seq<int>>,
    depth: Ghost<Seq<nat>>,
}

impl DSU {
    /// The number of elements.
    pub closed spec fn spec_n(&self) -> int {
        self.parents@.len() as int
    }

    /// The representative of element `v`.
    pub closed spec fn spec_rep(&self, v: int) -> int {
        self.root@[v]
    }

    /// Do `u` and `v` belong to the same set?
    pub open spec fn spec_same(&self, u: int, v: int) -> bool {
        self.spec_rep(u) == self.spec_rep(v)
    }

    /// Structural well-formedness.
    pub closed spec fn inv(&self) -> bool {
        let n = self.parents@.len() as int;
        &&& n <= i32::MAX
        &&& self.root@.len() == n
        &&& self.depth@.len() == n
        &&& forall|v: int|
            0 <= v < n && self.parents@[v] >= 0 ==> self.parents@[v] < n && self.depth@[(
            #[trigger] self.parents@[v]) as int] < self.depth@[v] && self.root@[v] == self.root@[
                self.parents@[v] as int]
        &&& forall|v: int|
            0 <= v < n && self.parents@[v] < 0 ==> #[trigger] self.root@[v] == v
        &&& forall|v: int|
            0 <= v < n ==> 0 <= #[trigger] self.root@[v] < n && self.parents@[self.root@[v]] < 0
        &&& forall|r: int|
            0 <= r < n && self.parents@[r] < 0 ==> (#[trigger] self.parents@[r]) as int == -(
            group_of(self.root@, n, r).len() as int)
        &&& self.count == all_roots(self.root@, n).len()
    }

    /// Create `n` singleton sets.
    pub fn new(n: usize) -> (r: Self)
        requires
            n <= i32::MAX,
        ensures
            r.inv(),
            r.spec_n() == n,
            forall|v: int| 0 <= v < n ==> #[trigger] r.spec_rep(v) == v,
            r.spec_count() == n,
    {
        let mut parents: Vec<i32> = Vec::new();
        let mut i: usize = 0;
        while i < n
            invariant
                i <= n,
                parents@.len() == i,
                forall|v: int| 0 <= v < i ==> parents@[v] == -1,
            decreases n - i,
        {
            parents.push(-1);
            i = i + 1;
        }
        let r = DSU {
            parents,
            count: n,
            root: Ghost(Seq::new(n as nat, |v: int| v)),
            depth: Ghost(Seq::new(n as nat, |v: int| 0nat)),
        };
        proof {
            let nn = n as int;
            assert forall|rt: int| 0 <= rt < nn && r.parents@[rt] < 0 implies (
            #[trigger] r.parents@[rt]) as int == -(group_of(r.root@, nn, rt).len() as int) by {
                assert(group_of(r.root@, nn, rt) =~= set![rt]);
            }
            assert(all_roots(r.root@, nn) =~= vstd::set_lib::set_int_range(0, nn));
            vstd::set_lib::lemma_int_range(0, nn);
        }
        r
    }

    /// The number of sets.
    pub closed spec fn spec_count(&self) -> int {
        self.count as int
    }

    /// Return the representative of the set containing `v`.
    pub fn rep(&self, v: usize) -> (r: usize)
        requires
            self.inv(),
            v < self.spec_n(),
        ensures
            r == self.spec_rep(v as int),
    {
        let mut cur = v;
        while self.parents[cur] >= 0
            invariant
                self.inv(),
                cur < self.parents@.len(),
                self.root@[cur as int] == self.root@[v as int],
            decreases self.depth@[cur as int],
        {
            cur = self.parents[cur] as usize;
        }
        cur
    }

    /// Do `u` and `v` belong to the same set?
    pub fn is_same(&self, u: usize, v: usize) -> (r: bool)
        requires
            self.inv(),
            u < self.spec_n(),
            v < self.spec_n(),
        ensures
            r == self.spec_same(u as int, v as int),
    {
        self.rep(u) == self.rep(v)
    }

    /// Merge the sets containing `u` and `v`; report whether they were
    /// distinct.
    pub fn unite(&mut self, u: usize, v: usize) -> (r: bool)
        requires
            old(self).inv(),
            u < old(self).spec_n(),
            v < old(self).spec_n(),
        ensures
            final(self).inv(),
            final(self).spec_n() == old(self).spec_n(),
            r == !old(self).spec_same(u as int, v as int),
            final(self).spec_count() == if r {
                old(self).spec_count() - 1
            } else {
                old(self).spec_count()
            },
            forall|x: int, y: int|
                0 <= x < old(self).spec_n() && 0 <= y < old(self).spec_n()
                    ==> (#[trigger] final(self).spec_same(x, y) == (old(self).spec_same(x, y) || (
                    old(self).spec_same(x, u as int) && old(self).spec_same(y, v as int)) || (old(
                        self,
                    ).spec_same(x, v as int) && old(self).spec_same(y, u as int)))),
    {
        let ghost n = self.parents@.len() as int;
        let mut a = self.rep(u);
        let mut b = self.rep(v);
        if a == b {
            return false;
        }
        if self.parents[a] > self.parents[b] {
            let t = a;
            a = b;
            b = t;
        }
        // `a` keeps the larger set; `b`'s set joins it.
        let ghost old_roots = self.root@;
        let ghost old_depth = self.depth@;
        let pa = self.parents[a];
        let pb = self.parents[b];
        proof {
            // sizes are bounded by n, so the sum does not overflow
            let ga = group_of(old_roots, n, a as int);
            let gb = group_of(old_roots, n, b as int);
            lemma_subrange_set_len(ga, n);
            lemma_subrange_set_len(gb, n);
            assert(ga.disjoint(gb));
            vstd::set_lib::lemma_set_disjoint_lens(ga, gb);
            lemma_subrange_set_len(ga + gb, n);
            // there is at least one set to merge away
            let ar = all_roots(old_roots, n);
            lemma_subrange_set_len(ar, n);
            assert(ar.contains(a as int));
            vstd::set::axiom_set_remove_len(ar, a as int);
        }
        self.parents[a] = pa + pb;
        self.parents[b] = a as i32;
        self.count = self.count - 1;
        proof {
            let ai = a as int;
            let bi = b as int;
            let shift = (old_depth[ai] + 1) as nat;
            self.root@ = Seq::new(n as nat, |x: int| if old_roots[x] == bi {
                ai
            } else {
                old_roots[x]
            });
            self.depth@ = Seq::new(n as nat, |x: int| if old_roots[x] == bi {
                (old_depth[x] + shift) as nat
            } else {
                old_depth[x]
            });
            let merged = group_of(self.root@, n, ai);
            let ga = group_of(old_roots, n, ai);
            let gb = group_of(old_roots, n, bi);
            assert(merged =~= ga + gb);
            assert(ga.disjoint(gb));
            lemma_subrange_set_len(ga, n);
            lemma_subrange_set_len(gb, n);
            vstd::set_lib::lemma_set_disjoint_lens(ga, gb);
            assert forall|rt: int|
                0 <= rt < n && self.parents@[rt] < 0 implies (#[trigger] self.parents@[rt]) as int
                == -(group_of(self.root@, n, rt).len() as int) by {
                if rt == ai {
                } else {
                    assert(rt != bi);
                    assert(group_of(self.root@, n, rt) =~= group_of(old_roots, n, rt));
                }
            }
            assert(all_roots(self.root@, n) =~= all_roots(old_roots, n).remove(bi));
            lemma_subrange_set_len(all_roots(old_roots, n), n);
            assert(all_roots(old_roots, n).contains(bi));
        }
        true
    }

    /// Return the size of the set containing `v`.
    pub fn size(&self, v: usize) -> (r: usize)
        requires
            self.inv(),
            v < self.spec_n(),
        ensures
            r == group_of(self.spec_roots(), self.spec_n(), v as int).len(),
    {
        let rt = self.rep(v);
        proof {
            lemma_subrange_set_len(group_of(self.root@, self.spec_n(), v as int), self.spec_n());
            assert(group_of(self.root@, self.spec_n(), rt as int) =~= group_of(
                self.root@,
                self.spec_n(),
                v as int,
            ));
        }
        (-self.parents[rt]) as usize
    }

    /// The ghost representative assignment, for stating contracts.
    pub closed spec fn spec_roots(&self) -> Seq<int> {
        self.root@
    }

    /// Return the number of sets.
    pub fn count(&self) -> (r: usize)
        requires
            self.inv(),
        ensures
            r == self.spec_count(),
    {
        self.count
    }
}

} // verus!

//! Disjoint set union whose elements carry group-valued potentials.
//!
//! Each element stores the potential from its parent to itself; the
//! composed potential from the representative to an element is what the
//! queries report, and a merge is given the desired potential between
//! the two elements being united.

use vstd::prelude::*;

use crate::algebra::Group;
use crate::dsu::{all_roots, group_of, lemma_subrange_set_len};

verus! {

/// The group-law consequences the merge arithmetic relies on.
proof fn lemma_group_cancel<T: Group>(x: T, y: T)
    ensures
        T::spec_op(T::spec_inv(x), T::spec_op(x, y)) == y,
        T::spec_op(x, T::spec_op(T::spec_inv(x), y)) == y,
{
    T::lemma_inv(x);
    T::lemma_assoc(T::spec_inv(x), x, y);
    T::lemma_assoc(x, T::spec_inv(x), y);
    T::lemma_identity(y);
}

/// Disjoint set union with a group potential between elements.
pub struct PotentialDSU<T: Group> {
    parents: Vec<i32>,
    potentials: Vec<T>,
    count: usize,
    root: Ghost<Seq<int>>,
    depth: Ghost<Seq<nat>>,
    phi: Ghost<Seq<T>>,
}

impl<T: Group> PotentialDSU<T> {
    /// The number of elements.
    pub closed spec fn spec_n(&self) -> int {
        self.parents@.len() as int
    }

    /// The representative of element `v`.
    pub closed spec fn spec_rep(&self, v: int) -> int {
        self.root@[v]
    }

    /// Do `u` and `v` belong to the same set?
    pub open spec fn spec_same(&self, u: int, v: int) -> bool {
        self.spec_rep(u) == self.spec_rep(v)
    }

    /// The potential from the representative of `v` to `v`.
    pub closed spec fn spec_pot(&self, v: int) -> T {
        self.phi@[v]
    }

    /// The number of sets.
    pub closed spec fn spec_count(&self) -> int {
        self.count as int
    }

    /// Structural well-formedness.
    pub closed spec fn inv(&self) -> bool {
        let n = self.parents@.len() as int;
        &&& n <= i32::MAX
        &&& self.root@.len() == n
        &&& self.depth@.len() == n
        &&& self.phi@.len() == n
        &&& self.potentials@.len() == n
        &&& forall|v: int|
            0 <= v < n && self.parents@[v] >= 0 ==> self.parents@[v] < n && self.depth@[(
            #[trigger] self.parents@[v]) as int] < self.depth@[v] && self.root@[v] == self.root@[
                self.parents@[v] as int] && self.phi@[v] == T::spec_op(
                self.phi@[self.parents@[v] as int],
                self.potentials@[v],
            )
        &&& forall|v: int|
            0 <= v < n && self.parents@[v] < 0 ==> #[trigger] self.root@[v] == v && self.phi@[v]
                == T::spec_e() && self.potentials@[v] == T::spec_e()
        &&& forall|v: int|
            0 <= v < n ==> 0 <= #[trigger] self.root@[v] < n && self.parents@[self.root@[v]] < 0
        &&& forall|r: int|
            0 <= r < n && self.parents@[r] < 0 ==> (#[trigger] self.parents@[r]) as int == -(
            group_of(self.root@, n, r).len() as int)
        &&& self.count == all_roots(self.root@, n).len()
    }

    /// Create `n` singleton sets with zero potentials.
    pub fn new(n: usize) -> (r: Self)
        requires
            n <= i32::MAX,
        ensures
            r.inv(),
            r.spec_n() == n,
            forall|v: int| 0 <= v < n ==> #[trigger] r.spec_rep(v) == v,
            forall|v: int| 0 <= v < n ==> #[trigger] r.spec_pot(v) == T::spec_e(),
            r.spec_count() == n,
    {
        let mut parents: Vec<i32> = Vec::new();
        let mut potentials: Vec<T> = Vec::new();
        let mut i: usize = 0;
        while i < n
            invariant
                i <= n,
                parents@.len() == i,
                potentials@.len() == i,
                forall|v: int| 0 <= v < i ==> parents@[v] == -1,
                forall|v: int| 0 <= v < i ==> potentials@[v] == T::spec_e(),
            decreases n - i,
        {
            parents.push(-1);
            potentials.push(T::e());
            i = i + 1;
        }
        let r = PotentialDSU {
            parents,
            potentials,
            count: n,
            root: Ghost(Seq::new(n as nat, |v: int| v)),
            depth: Ghost(Seq::new(n as nat, |v: int| 0nat)),
            phi: Ghost(Seq::new(n as nat, |v: int| T::spec_e())),
        };
        proof {
            let nn = n as int;
            assert forall|rt: int| 0 <= rt < nn && r.parents@[rt] < 0 implies (
            #[trigger] r.parents@[rt]) as int == -(group_of(r.root@, nn, rt).len() as int) by {
                assert(group_of(r.root@, nn, rt) =~= set![rt]);
            }
            assert(all_roots(r.root@, nn) =~= vstd::set_lib::set_int_range(0, nn));
            vstd::set_lib::lemma_int_range(0, nn);
        }
        r
    }

    /// Return the representative of the set containing `v` and the
    /// potential from the representative to `v`.
    pub fn rep(&self, v: usize) -> (r: (usize, T))
        requires
            self.inv(),
            v < self.spec_n(),
        ensures
            r.0 == self.spec_rep(v as int),
            r.1 == self.spec_pot(v as int),
    {
        let mut cur = v;
        let mut pot = self.potentials[v];
        while self.parents[cur] >= 0
            invariant
                self.inv(),
                cur < self.parents@.len(),
                v < self.parents@.len(),
                self.root@[cur as int] == self.root@[v as int],
                self.parents@[cur as int] >= 0 ==> self.phi@[v as int] == T::spec_op(
                    self.phi@[self.parents@[cur as int] as int],
                    pot,
                ),
                self.parents@[cur as int] < 0 ==> self.phi@[v as int] == pot,
            decreases self.depth@[cur as int],
        {
            let nxt = self.parents[cur] as usize;
            let np = T::op(&self.potentials[nxt], &pot);
            proof {
                if self.parents@[nxt as int] >= 0 {
                    T::lemma_assoc(
                        self.phi@[self.parents@[nxt as int] as int],
                        self.potentials@[nxt as int],
                        pot,
                    );
                } else {
                    T::lemma_identity(pot);
                }
            }
            pot = np;
            cur = nxt;
        }
        (cur, pot)
    }

    /// Return the potential from `u` to `v`, when they share a set.
    pub fn potential(&self, u: usize, v: usize) -> (r: Option<T>)
        requires
            self.inv(),
            u < self.spec_n(),
            v < self.spec_n(),
        ensures
            r.is_some() == self.spec_same(u as int, v as int),
            r.is_some() ==> r.unwrap() == T::spec_op(
                T::spec_inv(self.spec_pot(u as int)),
                self.spec_pot(v as int),
            ),
    {
        let (ru, pu) = self.rep(u);
        let (rv, pv) = self.rep(v);
        if ru == rv {
            Some(T::op(&T::inv(&pu), &pv))
        } else {
            None
        }
    }

    /// Unite the sets containing `u` and `v` so that the potential from
    /// `u` to `v` becomes `p`.  When they already share a set, nothing
    /// changes and the result reports whether the existing potentials
    /// are consistent with `p`.
    pub fn unite(&mut self, u: usize, v: usize, p: &T) -> (r: bool)
        requires
            old(self).inv(),
            u < old(self).spec_n(),
            v < old(self).spec_n(),
        ensures
            final(self).inv(),
            final(self).spec_n() == old(self).spec_n(),
            old(self).spec_same(u as int, v as int) ==> *final(self) == *old(self) && r == (
            T::spec_op(old(self).spec_pot(u as int), *p) == old(self).spec_pot(v as int)),
            !old(self).spec_same(u as int, v as int) ==> r == true && final(self).spec_count()
                == old(self).spec_count() - 1 && T::spec_op(
                T::spec_inv(final(self).spec_pot(u as int)),
                final(self).spec_pot(v as int),
            ) == *p && (forall|x: int, y: int|
                0 <= x < old(self).spec_n() && 0 <= y < old(self).spec_n()
                    ==> (#[trigger] final(self).spec_same(x, y) == (old(self).spec_same(x, y) || (
                    old(self).spec_same(x, u as int) && old(self).spec_same(y, v as int)) || (old(
                        self,
                    ).spec_same(x, v as int) && old(self).spec_same(y, u as int))))),
    {
        let ghost n = self.parents@.len() as int;
        let (mut a, pa_pot) = self.rep(u);
        let (mut b, pb_pot) = self.rep(v);
        let mut pot_a = pa_pot;
        let mut pot_b = pb_pot;
        if a == b {
            return T::eq_val(&T::op(&pot_a, p), &pot_b);
        }
        // the potential the linked representative must carry
        let mut link = T::op(&T::op(&pot_a, p), &T::inv(&pot_b));
        let ghost swapped = self.parents@[a as int] > self.parents@[b as int];
        if self.parents[a] > self.parents[b] {
            let t = a;
            a = b;
            b = t;
            let tp = pot_a;
            pot_a = pot_b;
            pot_b = tp;
            link = T::inv(&link);
        }
        let ghost old_roots = self.root@;
        let ghost old_depth = self.depth@;
        let ghost old_phi = self.phi@;
        let pa = self.parents[a];
        let pb = self.parents[b];
        proof {
            let ga = group_of(old_roots, n, a as int);
            let gb = group_of(old_roots, n, b as int);
            lemma_subrange_set_len(ga, n);
            lemma_subrange_set_len(gb, n);
            assert(ga.disjoint(gb));
            vstd::set_lib::lemma_set_disjoint_lens(ga, gb);
            lemma_subrange_set_len(ga + gb, n);
            let ar = all_roots(old_roots, n);
            lemma_subrange_set_len(ar, n);
            assert(ar.contains(a as int));
            vstd::set::axiom_set_remove_len(ar, a as int);
        }
        self.parents[a] = pa + pb;
        self.parents[b] = a as i32;
        self.potentials[b] = link;
        self.count = self.count - 1;
        proof {
            let ai = a as int;
            let bi = b as int;
            let lk = link;
            let shift = (old_depth[ai] + 1) as nat;
            self.root@ = Seq::new(n as nat, |x: int| if old_roots[x] == bi {
                ai
            } else {
                old_roots[x]
            });
            self.depth@ = Seq::new(n as nat, |x: int| if old_roots[x] == bi {
                (old_depth[x] + shift) as nat
            } else {
                old_depth[x]
            });
            self.phi@ = Seq::new(n as nat, |x: int| if old_roots[x] == bi {
                T::spec_op(lk, old_phi[x])
            } else {
                old_phi[x]
            });
            let merged = group_of(self.root@, n, ai);
            let ga = group_of(old_roots, n, ai);
            let gb = group_of(old_roots, n, bi);
            assert(merged =~= ga + gb);
            assert(ga.disjoint(gb));
            lemma_subrange_set_len(ga, n);
            lemma_subrange_set_len(gb, n);
            vstd::set_lib::lemma_set_disjoint_lens(ga, gb);
            assert forall|rt: int|
                0 <= rt < n && self.parents@[rt] < 0 implies (#[trigger] self.parents@[rt]) as int
                == -(group_of(self.root@, n, rt).len() as int) by {
                if rt == ai {
                } else {
                    assert(rt != bi);
                    assert(group_of(self.root@, n, rt) =~= group_of(old_roots, n, rt));
                }
            }
            assert(all_roots(self.root@, n) =~= all_roots(old_roots, n).remove(bi));
            lemma_subrange_set_len(all_roots(old_roots, n), n);
            assert(all_roots(old_roots, n).contains(bi));
            // the potential chain invariant holds across the new link
            T::lemma_identity(lk);
            assert forall|x: int|
                0 <= x < n && self.parents@[x] >= 0 implies self.phi@[x] == T::spec_op(
                self.phi@[self.parents@[x] as int],
                self.potentials@[x],
            ) by {
                if x == bi {
                    assert(self.phi@[bi] == T::spec_op(lk, T::spec_e()));
                    T::lemma_identity(lk);
                } else if old_roots[x] == bi {
                    let par = self.parents@[x] as int;
                    assert(old_phi[x] == T::spec_op(old_phi[par], self.potentials@[x]));
                    T::lemma_assoc(lk, old_phi[par], self.potentials@[x]);
                } else {
                }
            }
            // the promised potential between u and v
            let pu0 = old_phi[u as int];
            let pv0 = old_phi[v as int];
            if !swapped {
                // v's side was relabelled
                assert(self.phi@[u as int] == pu0);
                assert(self.phi@[v as int] == T::spec_op(lk, pv0));
                assert(lk == T::spec_op(T::spec_op(pu0, *p), T::spec_inv(pv0)));
                T::lemma_assoc(T::spec_op(pu0, *p), T::spec_inv(pv0), pv0);
                T::lemma_inv(pv0);
                T::lemma_identity(T::spec_op(pu0, *p));
                assert(T::spec_op(lk, pv0) == T::spec_op(pu0, *p));
                lemma_group_cancel::<T>(pu0, *p);
                T::lemma_assoc(T::spec_inv(pu0), pu0, *p);
                T::lemma_inv(pu0);
                T::lemma_identity(*p);
            } else {
                // u's side was relabelled; the stored link is inverted
                let fwd = T::spec_op(T::spec_op(pv0, T::spec_inv(*p)), T::spec_inv(pu0));
                assert(self.phi@[v as int] == pv0);
                assert(self.phi@[u as int] == T::spec_op(lk, pu0));
                // lk == inv(op(op(pv0, inv... the exec computed
                // inv(op(op(pv0_as_pot_a... reconstruct:
                assert(lk == T::spec_inv(T::spec_op(T::spec_op(pu0, *p), T::spec_inv(pv0))));
                let z = T::spec_op(T::spec_op(pu0, *p), T::spec_inv(pv0));
                // phi'[u] == op(inv(z), pu0); want op(inv(phi'[u]), pv0) == p.
                // From z's definition, op(z, pv0) == op(pu0, p), hence
                // pv0 == op(inv(z), op(pu0, p)) and
                // op(inv(phi'[u]), pv0) == op(inv(op(inv(z), pu0)), op(inv(z), op(pu0, p))).
                T::lemma_assoc(T::spec_op(pu0, *p), T::spec_inv(pv0), pv0);
                T::lemma_inv(pv0);
                T::lemma_identity(T::spec_op(pu0, *p));
                assert(T::spec_op(z, pv0) == T::spec_op(pu0, *p));
                lemma_group_cancel::<T>(z, pv0);
                assert(pv0 == T::spec_op(T::spec_inv(z), T::spec_op(z, pv0)));
                // name the pieces and cancel step by step
                let w = T::spec_op(T::spec_inv(z), pu0);
                // goal: op(inv(w), op(inv(z), op(pu0, p))) == p
                // inv(w) == op(inv(pu0), inv(inv(z))) == op(inv(pu0), z)
                lemma_group_inv_op::<T>(T::spec_inv(z), pu0);
                lemma_group_inv_inv::<T>(z);
                assert(T::spec_inv(w) == T::spec_op(T::spec_inv(pu0), z));
                T::lemma_assoc(T::spec_inv(pu0), z, T::spec_op(T::spec_inv(z), T::spec_op(pu0, *p)));
                lemma_group_cancel::<T>(z, T::spec_op(pu0, *p));
                lemma_group_cancel::<T>(pu0, *p);
                T::lemma_assoc(T::spec_inv(pu0), pu0, *p);
                T::lemma_inv(pu0);
                T::lemma_identity(*p);
            }
        }
        true
    }

    /// Return the size of the set containing `v`.
    pub fn size(&self, v: usize) -> (r: usize)
        requires
            self.inv(),
            v < self.spec_n(),
        ensures
            r == group_of(self.spec_roots(), self.spec_n(), v as int).len(),
    {
        let (rt, _pot) = self.rep(v);
        proof {
            lemma_subrange_set_len(group_of(self.root@, self.spec_n(), v as int), self.spec_n());
            assert(group_of(self.root@, self.spec_n(), rt as int) =~= group_of(
                self.root@,
                self.spec_n(),
                v as int,
            ));
        }
        (-self.parents[rt]) as usize
    }

    /// The ghost representative assignment, for stating contracts.
    pub closed spec fn spec_roots(&self) -> Seq<int> {
        self.root@
    }

    /// Return the number of sets.
    pub fn count(&self) -> (r: usize)
        requires
            self.inv(),
        ensures
            r == self.spec_count(),
    {
        self.count
    }
}

/// The inverse of a product reverses the factors.
proof fn lemma_group_inv_op<T: Group>(x: T, y: T)
    ensures
        T::spec_inv(T::spec_op(x, y)) == T::spec_op(T::spec_inv(y), T::spec_inv(x)),
{
    let c = T::spec_op(T::spec_inv(y), T::spec_inv(x));
    // op(c, op(x, y)) == e, and inverses are unique
    T::lemma_assoc(c, x, y);
    T::lemma_assoc(T::spec_inv(y), T::spec_inv(x), x);
    T::lemma_inv(x);
    T::lemma_identity(T::spec_inv(y));
    T::lemma_inv(y);
    // now op(c, op(x,y)) == op(op(c, x), y) == op(inv(y), y) == e
    assert(T::spec_op(c, T::spec_op(x, y)) == T::spec_e()) by {
        assert(T::spec_op(T::spec_op(c, x), y) == T::spec_op(T::spec_inv(y), y));
    }
    lemma_group_inv_unique::<T>(T::spec_op(x, y), c);
}

/// The inverse of an inverse is the original value.
proof fn lemma_group_inv_inv<T: Group>(x: T)
    ensures
        T::spec_inv(T::spec_inv(x)) == x,
{
    T::lemma_inv(x);
    lemma_group_inv_unique::<T>(T::spec_inv(x), x);
}

/// A left inverse is the inverse.
proof fn lemma_group_inv_unique<T: Group>(x: T, c: T)
    requires
        T::spec_op(c, x) == T::spec_e(),
    ensures
        T::spec_inv(x) == c,
{
    // c == op(c, op(x, inv(x))) == op(op(c, x), inv(x)) == inv(x)
    T::lemma_inv(x);
    T::lemma_identity(c);
    T::lemma_assoc(c, x, T::spec_inv(x));
    T::lemma_identity(T::spec_inv(x));
}

} // verus!

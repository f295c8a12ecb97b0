//! Factorial tables modulo a compile-time modulus, for binomial
//! coefficients in constant time per query.

use vstd::prelude::*;
use vstd::arithmetic::div_mod::{lemma_mod_bound, lemma_mul_mod_noop_general, lemma_small_mod};

use crate::gf::{pow_mod_spec, GF};

verus! {

/// `i!` reduced modulo `m`.
pub open spec fn fact_mod(i: nat, m: nat) -> nat
    decreases i,
{
    if m == 0 {
        0
    } else if i == 0 {
        1nat % m
    } else {
        (i * fact_mod((i - 1) as nat, m)) % m
    }
}

/// Precomputed factorials and a matching inverse-factorial table.
///
/// The inverse table starts from the modular inverse of the last
/// factorial and walks down by multiplication, so its entries are
/// genuine inverses exactly when the modulus is a prime larger than
/// every tabulated index.
pub struct Combinatorics<const MOD: u32> {
    n: u32,
    facts: Vec<GF<MOD>>,
    inv_facts: Vec<GF<MOD>>,
}

impl<const MOD: u32> Combinatorics<MOD> {
    /// The number of tabulated entries.
    pub closed spec fn spec_n(&self) -> int {
        self.n as int
    }

    /// The tabulated inverse-factorial residue at index `i`.
    pub closed spec fn spec_inv_fact(&self, i: int) -> nat {
        self.inv_facts@[i].spec_val()
    }

    /// Structural well-formedness: the factorial table is exact, and
    /// the inverse table satisfies its defining recurrence.
    pub closed spec fn inv(&self) -> bool {
        let n = self.n as int;
        let m = MOD as nat;
        &&& MOD >= 1
        &&& 1 <= n
        &&& self.facts@.len() == n
        &&& self.inv_facts@.len() == n
        &&& forall|i: int|
            0 <= i < n ==> (#[trigger] self.facts@[i]).wf() && self.facts@[i].spec_val()
                == fact_mod(i as nat, m)
        &&& self.inv_facts@[n - 1].wf()
        &&& self.inv_facts@[n - 1].spec_val() == pow_mod_spec(
            fact_mod((n - 1) as nat, m),
            (MOD - 2) as nat,
            m,
        )
        &&& forall|i: int|
            0 <= i < n - 1 ==> (#[trigger] self.inv_facts@[i]).wf() && self.inv_facts@[i].spec_val()
                == (self.inv_facts@[i + 1].spec_val() * ((i + 1) as nat % m)) % m
    }

    /// Tabulate the factorials `0!, ..., (n-1)!` and their inverse
    /// table.
    pub fn build(n: u32) -> (r: Self)
        requires
            1 <= n,
            MOD >= 2,
            fact_mod((n - 1) as nat, MOD as nat) != 0,
        ensures
            r.inv(),
            r.spec_n() == n,
    {
        let ghost m = MOD as nat;
        let mut facts: Vec<GF<MOD>> = Vec::new();
        facts.push(GF::new(1));
        let mut i: u32 = 1;
        while i < n
            invariant
                MOD >= 2,
                1 <= i <= n,
                m == MOD as nat,
                facts@.len() == i,
                forall|j: int|
                    0 <= j < i ==> (#[trigger] facts@[j]).wf() && facts@[j].spec_val() == fact_mod(
                        j as nat,
                        m,
                    ),
            decreases n - i,
        {
            let gi = GF::<MOD>::new(i);
            let last = facts[(i - 1) as usize];
            let next = last.mul(&gi);
            proof {
                // (fact(i-1) * (i % m)) % m == (i * fact(i-1)) % m
                lemma_mul_mod_noop_general(fact_mod((i - 1) as nat, m) as int, i as int, m as int);
                assert(fact_mod((i - 1) as nat, m) * (i as nat) == (i as nat) * fact_mod(
                    (i - 1) as nat,
                    m,
                )) by (nonlinear_arith);
                lemma_mod_bound(fact_mod((i - 1) as nat, m) as int, m as int);
                lemma_small_mod(fact_mod((i - 1) as nat, m), m);
            }
            facts.push(next);
            i = i + 1;
        }
        let last_fact = facts[(n - 1) as usize];
        let mut desc: Vec<GF<MOD>> = Vec::new();
        desc.push(last_fact.inv());
        let mut j: u32 = 1;
        while j < n
            invariant
                MOD >= 2,
                1 <= j <= n,
                m == MOD as nat,
                desc@.len() == j,
                facts@.len() == n,
                forall|t: int|
                    0 <= t < n ==> (#[trigger] facts@[t]).wf() && facts@[t].spec_val() == fact_mod(
                        t as nat,
                        m,
                    ),
                desc@[0].wf(),
                desc@[0].spec_val() == pow_mod_spec(
                    fact_mod((n - 1) as nat, m),
                    (MOD - 2) as nat,
                    m,
                ),
                forall|t: int|
                    1 <= t < j ==> (#[trigger] desc@[t]).wf() && desc@[t].spec_val() == (desc@[t
                        - 1].spec_val() * ((n - t) as nat % m)) % m,
            decreases n - j,
        {
            let gi = GF::<MOD>::new(n - j);
            let last = desc[(j - 1) as usize];
            let next = last.mul(&gi);
            desc.push(next);
            j = j + 1;
        }
        let mut inv_facts: Vec<GF<MOD>> = Vec::new();
        let mut t: u32 = 0;
        while t < n
            invariant
                t <= n,
                desc@.len() == n,
                inv_facts@.len() == t,
                forall|u: int| 0 <= u < t ==> #[trigger] inv_facts@[u] == desc@[n - 1 - u],
            decreases n - t,
        {
            inv_facts.push(desc[(n - 1 - t) as usize]);
            t = t + 1;
        }
        let r = Combinatorics { n, facts, inv_facts };
        proof {
            let nn = n as int;
            assert forall|u: int|
                0 <= u < nn - 1 implies (#[trigger] r.inv_facts@[u]).wf()
                && r.inv_facts@[u].spec_val() == (r.inv_facts@[u + 1].spec_val() * ((u + 1) as nat
                % m)) % m by {
                assert(r.inv_facts@[u] == desc@[nn - 1 - u]);
                assert(r.inv_facts@[u + 1] == desc@[nn - 2 - u]);
                assert(desc@[nn - 1 - u].spec_val() == (desc@[nn - 2 - u].spec_val() * ((nn - (nn
                    - 1 - u)) as nat % m)) % m);
            }
        }
        r
    }

    /// Return `i!` modulo the modulus.
    pub fn factorial(&self, i: u32) -> (r: GF<MOD>)
        requires
            self.inv(),
            i < self.spec_n(),
        ensures
            r.wf(),
            r.spec_val() == fact_mod(i as nat, MOD as nat),
    {
        self.facts[i as usize]
    }

    /// Return the binomial coefficient `(n choose r)` as the product of
    /// the tabulated factorial and inverse factorials.
    pub fn binom(&self, n: u32, r: u32) -> (res: GF<MOD>)
        requires
            self.inv(),
            n < self.spec_n(),
            r <= n,
        ensures
            res.wf(),
            res.spec_val() == ((fact_mod(n as nat, MOD as nat) * self.spec_inv_fact(
                r as int,
            )) % (MOD as nat) * self.spec_inv_fact(n as int - r as int)) % (MOD as nat),
    {
        proof {
            assert(self.inv_facts@[r as int].wf());
            assert(self.inv_facts@[n as int - r as int].wf());
        }
        let a = self.facts[n as usize];
        let b = self.inv_facts[r as usize];
        let c = self.inv_facts[(n - r) as usize];
        a.mul(&b).mul(&c)
    }
}

} // verus!

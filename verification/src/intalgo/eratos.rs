//! Sieve of Eratosthenes: constant-time primality queries after a
//! linearithmic precomputation.

use vstd::prelude::*;
use vstd::arithmetic::div_mod::{
    lemma_fundamental_div_mod, lemma_fundamental_div_mod_converse_mod, lemma_mod_bound,
};

verus! {

/// Is `p` a prime number?
pub open spec fn spec_prime(p: int) -> bool {
    p >= 2 && forall|d: int| 2 <= d < p ==> #[trigger] (p % d) != 0
}

/// A number with a proper divisor besides one is not prime.
proof fn lemma_composite(v: int, d: int)
    requires
        2 <= d < v,
        v % d == 0,
    ensures
        !spec_prime(v),
{
}

/// Divisibility is transitive.
proof fn lemma_div_trans(d: int, i: int, v: int)
    requires
        1 <= d,
        1 <= i,
        i % d == 0,
        v % i == 0,
        0 <= v,
    ensures
        v % d == 0,
{
    lemma_fundamental_div_mod(i, d);
    lemma_fundamental_div_mod(v, i);
    let m = i / d;
    let k = v / i;
    assert((d * m) * k == d * (m * k)) by (nonlinear_arith);
    assert(m * k >= 0) by (nonlinear_arith)
        requires
            d * m >= 1,
            d >= 1,
            k >= 0,
            m >= 0,
    ;
    assert(m >= 0) by (nonlinear_arith)
        requires
            d * m == i,
            i >= 1,
            d >= 1,
    ;
    assert(k >= 0) by (nonlinear_arith)
        requires
            i * k == v,
            v >= 0,
            i >= 1,
    ;
    lemma_fundamental_div_mod_converse_mod(v, d, m * k, 0);
}

/// A composite number has a proper divisor at most half its size.
proof fn lemma_small_divisor(v: int) -> (d: int)
    requires
        v >= 2,
        !spec_prime(v),
    ensures
        2 <= d,
        2 * d <= v,
        v % d == 0,
{
    let d = choose|d: int| 2 <= d < v && #[trigger] (v % d) == 0;
    lemma_fundamental_div_mod(v, d);
    let k = v / d;
    assert(k >= 2) by (nonlinear_arith)
        requires
            d * k == v,
            2 <= d,
            d < v,
            v >= 2,
    ;
    assert(2 * d <= d * k) by (nonlinear_arith)
        requires
            k >= 2,
            d >= 0,
    ;
    d
}

/// Sieve of Eratosthenes over `[0, n]`.
pub struct SieveEratos {
    n: usize,
    min_fact: Vec<usize>,
}

impl SieveEratos {
    /// The sieve bound.
    pub closed spec fn spec_n(&self) -> int {
        self.n as int
    }

    /// Structural well-formedness: an entry equals its index exactly
    /// for the primes.
    pub closed spec fn inv(&self) -> bool {
        &&& self.n <= usize::MAX / 2
        &&& self.min_fact@.len() == self.n + 1
        &&& forall|v: int|
            2 <= v <= self.n ==> ((#[trigger] self.min_fact@[v]) as int == v <==> spec_prime(v))
    }

    /// Build the sieve for all values up to and including `n`.
    pub fn build(n: usize) -> (r: Self)
        requires
            n <= usize::MAX / 2,
        ensures
            r.inv(),
            r.spec_n() == n,
    {
        let mut min_fact: Vec<usize> = Vec::new();
        let mut t: usize = 0;
        while t <= n
            invariant
                t <= n + 1,
                n <= usize::MAX / 2,
                min_fact@.len() == t,
                forall|v: int| 0 <= v < t ==> (#[trigger] min_fact@[v]) as int == v,
            decreases n + 1 - t,
        {
            min_fact.push(t);
            t = t + 1;
        }
        let mut i: usize = 2;
        while i <= n / 2
            invariant
                2 <= i,
                n <= usize::MAX / 2,
                min_fact@.len() == n + 1,
                // primes are never overwritten
                forall|v: int|
                    2 <= v <= n && spec_prime(v) ==> (#[trigger] min_fact@[v]) as int == v,
                // multiples of anything already processed are marked
                forall|v: int, d: int|
                    #![trigger min_fact@[v], v % d]
                    2 <= d < i && 2 <= v <= n && v != d && v % d == 0 ==> (
                    min_fact@[v]) as int != v,
                // entries never exceed their index
                forall|v: int| 0 <= v <= n ==> (#[trigger] min_fact@[v]) as int <= v,
            decreases n / 2 + 1 - i,
        {
            if min_fact[i] == i {
                proof {
                    vstd::arithmetic::div_mod::lemma_mod_multiples_basic(2int, i as int);
                }
                let mut j = 2 * i;
                while j <= n
                    invariant
                        2 <= i <= n / 2,
                        2 * i <= j,
                        n <= usize::MAX / 2,
                        j % i == 0,
                        min_fact@.len() == n + 1,
                        forall|v: int|
                            2 <= v <= n && spec_prime(v) ==> (#[trigger] min_fact@[v]) as int == v,
                        forall|v: int, d: int|
                            #![trigger min_fact@[v], v % d]
                            2 <= d < i && 2 <= v <= n && v != d && v % d == 0 ==> (
                            min_fact@[v]) as int != v,
                        forall|v: int|
                            2 * i <= v < j && v % (i as int) == 0 && v <= n ==> (
                            #[trigger] min_fact@[v]) as int != v,
                        forall|v: int| 0 <= v <= n ==> (#[trigger] min_fact@[v]) as int <= v,
                    decreases n + i - j,
                {
                    proof {
                        // the multiple being marked is composite
                        assert(j % i == 0 && i < j);
                        lemma_composite(j as int, i as int);
                        vstd::arithmetic::div_mod::lemma_mod_add_multiples_vanish(
                            j as int,
                            i as int,
                        );
                    }
                    let ghost jold = j as int;
                    min_fact[j] = i;
                    proof {
                        assert forall|v: int|
                            2 * i <= v < jold + i && v % (i as int) == 0 && v <= n implies (
                            #[trigger] min_fact@[v]) as int != v by {
                            if v >= jold {
                                let dd = v - jold;
                                assert(dd % (i as int) == 0) by {
                                    vstd::arithmetic::div_mod::lemma_sub_mod_noop(
                                        v,
                                        jold,
                                        i as int,
                                    );
                                    vstd::arithmetic::div_mod::lemma_small_mod(
                                        0nat,
                                        i as nat,
                                    );
                                }
                                vstd::arithmetic::div_mod::lemma_small_mod(dd as nat, i as nat);
                                assert(v == jold);
                            }
                        }
                    }
                    j = j + i;
                }
                proof {
                    assert forall|v: int, d: int|
                        #![trigger min_fact@[v], v % d]
                        2 <= d < i + 1 && 2 <= v <= n && v != d && v % d == 0 implies (
                        min_fact@[v]) as int != v by {
                        if d == i {
                            assert(v >= 2 * i) by {
                                lemma_fundamental_div_mod(v, d);
                                let k = v / d;
                                assert(k >= 2) by (nonlinear_arith)
                                    requires
                                        d * k == v,
                                        v != d,
                                        v >= 2,
                                        d >= 2,
                                        d * k >= 0,
                                ;
                                assert(d * k >= 2 * d) by (nonlinear_arith)
                                    requires
                                        k >= 2,
                                        d >= 0,
                                ;
                            }
                        }
                    }
                }
            } else {
                proof {
                    // i itself is composite: its own divisor transfers to
                    // every multiple of i
                    assert(!spec_prime(i as int));
                    assert(i >= 2);
                    let d0 = lemma_small_divisor(i as int);
                    assert forall|v: int, d: int|
                        #![trigger min_fact@[v], v % d]
                        2 <= d < i + 1 && 2 <= v <= n && v != d && v % d == 0 implies (
                        min_fact@[v]) as int != v by {
                        if d == i {
                            lemma_div_trans(d0, i as int, v);
                            assert(v != d0) by {
                                if v == d0 {
                                    assert(i <= v) by {
                                        if v < i {
                                            vstd::arithmetic::div_mod::lemma_small_mod(
                                                v as nat,
                                                i as nat,
                                            );
                                        }
                                    }
                                    assert(2 * d0 <= i);
                                }
                            }
                            assert(min_fact@[v] as int != v);
                        }
                    }
                }
            }
            i = i + 1;
        }
        let r = SieveEratos { n, min_fact };
        proof {
            assert forall|v: int|
                2 <= v <= n implies ((#[trigger] r.min_fact@[v]) as int == v <==> spec_prime(
                v,
            )) by {
                if !spec_prime(v) {
                    let d = lemma_small_divisor(v);
                    assert(d < i);
                    assert(v != d);
                    assert(r.min_fact@[v] as int != v);
                }
            }
        }
        r
    }

    /// Is `p` prime?
    pub fn is_prime(&self, p: usize) -> (r: bool)
        requires
            self.inv(),
            p <= self.spec_n(),
        ensures
            r == spec_prime(p as int),
    {
        p > 1 && self.min_fact[p] == p
    }

    /// All primes up to and including `m`, in increasing order.
    pub fn primes(&self, m: usize) -> (r: Vec<usize>)
        requires
            self.inv(),
            m <= self.spec_n(),
        ensures
            forall|t: int, u: int| 0 <= t < u < r@.len() ==> r@[t] < r@[u],
            forall|t: int| 0 <= t < r@.len() ==> spec_prime((#[trigger] r@[t]) as int) && r@[t] <= m,
            forall|v: usize| spec_prime(v as int) && v <= m ==> r@.contains(v),
    {
        let mut r: Vec<usize> = Vec::new();
        let mut v: usize = 2;
        if m < 2 {
            return r;
        }
        while v <= m
            invariant
                2 <= v <= m + 1,
                m <= self.spec_n(),
                self.inv(),
                forall|t: int, u: int| 0 <= t < u < r@.len() ==> r@[t] < r@[u],
                forall|t: int|
                    0 <= t < r@.len() ==> spec_prime((#[trigger] r@[t]) as int) && r@[t] < v,
                forall|w: usize| spec_prime(w as int) && w < v ==> r@.contains(w),
            decreases m + 1 - v,
        {
            let ghost pre = r@;
            if self.min_fact[v] == v {
                r.push(v);
            }
            proof {
                assert forall|w: usize| spec_prime(w as int) && w < v + 1 implies r@.contains(
                    w,
                ) by {
                    if w < v {
                        assert(pre.contains(w));
                        let t = choose|t: int| 0 <= t < pre.len() && pre[t] == w;
                        assert(r@[t] == w);
                    } else {
                        assert(w == v);
                        assert(r@[r@.len() - 1] == v);
                    }
                }
            }
            v = v + 1;
        }
        r
    }
}

} // verus!

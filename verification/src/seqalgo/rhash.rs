//! Polynomial rolling hashes modulo the Mersenne prime `2^61 - 1`,
//! with constant-time substring hashes from precomputed prefixes.

use vstd::prelude::*;
use vstd::arithmetic::div_mod::{
    lemma_add_mod_noop, lemma_fundamental_div_mod, lemma_mod_bound, lemma_mod_multiples_vanish,
    lemma_mul_mod_noop_general, lemma_small_mod,
};

use crate::gf::{lemma_pow_mod_lt, lemma_pow_mod_step, pow_mod_spec};

verus! {

/// The hash modulus, the Mersenne prime `2^61 - 1`.
pub const HASH: u64 = 0x1FFF_FFFF_FFFF_FFFF;

/// The polynomial base.
pub const BASE: u64 = 1_025;

/// The hash of the `k`-element block of `s` starting at `l`: a
/// polynomial in the base, with every element shifted up by one so that
/// zeros contribute.
pub open spec fn block_hash(s: Seq<u64>, l: int, k: nat) -> nat
    decreases k,
{
    if k == 0 {
        0
    } else {
        (((block_hash(s, l, (k - 1) as nat) * BASE + s[l + k - 1] + 1) as int) % (
        HASH as int)) as nat
    }
}

/// Multiplication modulo `2^61 - 1`, by splitting the wide product at
/// bit 61 and folding the high part back down.
fn mulmod(a: u64, b: u64) -> (r: u64)
    requires
        a < HASH,
        b < HASH,
    ensures
        r as nat == (a as nat * b as nat) % (HASH as nat),
        r < HASH,
{
    let m = HASH as u128;
    proof {
        assert((a as int) * (b as int) < 0x1_0000_0000_0000_0000int * 0x1_0000_0000_0000_0000int)
            by (nonlinear_arith)
            requires
                a < 0x1_0000_0000_0000_0000,
                b < 0x1_0000_0000_0000_0000,
        ;
    }
    let t: u128 = a as u128 * b as u128;
    proof {
        assert(t == a as nat * b as nat && t < m * m) by (nonlinear_arith)
            requires
                t == a as u128 as nat * (b as u128 as nat),
                a as u128 as nat == a as nat,
                b as u128 as nat == b as nat,
                (a as nat) < m,
                (b as nat) < m,
        ;
    }
    let hi = (t / 0x2000_0000_0000_0000u128) as u64;
    let lo = (t % 0x2000_0000_0000_0000u128) as u64;
    proof {
        let p61 = 0x2000_0000_0000_0000int;
        lemma_fundamental_div_mod(t as int, p61);
        lemma_mod_bound(t as int, p61);
        // the high part stays below the modulus
        assert(t as int / p61 < m) by {
            assert(t < p61 * m) by (nonlinear_arith)
                requires
                    t < m * m,
                    m < p61,
            ;
            vstd::arithmetic::div_mod::lemma_multiply_divide_lt(t as int, p61, m as int);
        }
        // hi + lo is congruent to t, since 2^61 == HASH + 1
        assert(t as int == (t as int / p61) * p61 + t as int % p61);
        assert((t as int / p61) * p61 == (t as int / p61) * (m as int) + t as int / p61)
            by (nonlinear_arith)
            requires
                p61 == m as int + 1,
        ;
        lemma_mod_multiples_vanish(t as int / p61, t as int / p61 + t as int % p61, m as int);
    }
    let u = hi + lo;
    proof {
        assert(u as int % m as int == t as int % m as int);
        if u >= HASH {
            vstd::arithmetic::div_mod::lemma_mod_sub_multiples_vanish(u as int, m as int);
            lemma_small_mod((u - HASH) as nat, HASH as nat);
        } else {
            lemma_small_mod(u as nat, HASH as nat);
        }
    }
    if u >= HASH {
        u - HASH
    } else {
        u
    }
}

/// Prefix hashes of a sequence, answering block hashes in constant
/// time.
pub struct RHash {
    n: usize,
    hash_acc: Vec<u64>,
    base_pow: Vec<u64>,
    elems: Ghost<Seq<u64>>,
}

impl RHash {
    /// The hashed sequence.
    pub closed spec fn spec_elems(&self) -> Seq<u64> {
        self.elems@
    }

    /// Structural well-formedness: the accumulators hold the prefix
    /// hashes and the powers of the base.
    pub closed spec fn inv(&self) -> bool {
        &&& self.elems@.len() == self.n
        &&& self.hash_acc@.len() == self.n + 1
        &&& self.base_pow@.len() == self.n + 1
        &&& forall|v: int| 0 <= v < self.elems@.len() ==> #[trigger] self.elems@[v] < HASH
        &&& forall|i: int|
            0 <= i <= self.n ==> (#[trigger] self.hash_acc@[i]) as nat == block_hash(
                self.elems@,
                0,
                i as nat,
            ) && self.hash_acc@[i] < HASH
        &&& forall|i: int|
            0 <= i <= self.n ==> (#[trigger] self.base_pow@[i]) as nat == pow_mod_spec(
                BASE as nat,
                i as nat,
                HASH as nat,
            ) && self.base_pow@[i] < HASH
    }

    /// Precompute the prefix hashes of `a`.
    pub fn from_vec(a: &Vec<u64>) -> (r: Self)
        requires
            forall|v: int| 0 <= v < a@.len() ==> #[trigger] a@[v] < HASH,
            a@.len() < usize::MAX,
        ensures
            r.inv(),
            r.spec_elems() == a@,
    {
        let n = a.len();
        let mut hash_acc: Vec<u64> = Vec::new();
        let mut base_pow: Vec<u64> = Vec::new();
        hash_acc.push(0);
        base_pow.push(1);
        proof {
            lemma_small_mod(1nat, HASH as nat);
        }
        let mut t: usize = 0;
        while t < n
            invariant
                t <= n,
                n == a@.len(),
                forall|v: int| 0 <= v < a@.len() ==> #[trigger] a@[v] < HASH,
                hash_acc@.len() == t + 1,
                base_pow@.len() == t + 1,
                forall|i: int|
                    0 <= i <= t ==> (#[trigger] hash_acc@[i]) as nat == block_hash(
                        a@,
                        0,
                        i as nat,
                    ) && hash_acc@[i] < HASH,
                forall|i: int|
                    0 <= i <= t ==> (#[trigger] base_pow@[i]) as nat == pow_mod_spec(
                        BASE as nat,
                        i as nat,
                        HASH as nat,
                    ) && base_pow@[i] < HASH,
            decreases n - t,
        {
            let prev = hash_acc[t];
            let h1 = mulmod(prev, BASE);
            let step = a[t] + 1;
            let h2 = h1 + step;
            proof {
                // fold the new element in and reduce once
                lemma_add_mod_noop(
                    (prev as nat * BASE as nat) as int,
                    step as int,
                    HASH as int,
                );
                vstd::arithmetic::div_mod::lemma_add_mod_noop_right(
                    ((prev as nat * BASE as nat) as int) % (HASH as int),
                    step as int,
                    HASH as int,
                );
                if h2 >= HASH {
                    vstd::arithmetic::div_mod::lemma_mod_sub_multiples_vanish(
                        h2 as int,
                        HASH as int,
                    );
                    lemma_small_mod((h2 - HASH) as nat, HASH as nat);
                } else {
                    lemma_small_mod(h2 as nat, HASH as nat);
                }
            }
            let h = if h2 >= HASH {
                h2 - HASH
            } else {
                h2
            };
            hash_acc.push(h);
            let pprev = base_pow[t];
            let p = mulmod(pprev, BASE);
            proof {
                lemma_pow_mod_step(BASE as nat, t as nat + 1, HASH as nat);
                lemma_pow_mod_lt(BASE as nat, t as nat, HASH as nat);
                lemma_mul_mod_noop_general(
                    BASE as int,
                    pow_mod_spec(BASE as nat, t as nat, HASH as nat) as int,
                    HASH as int,
                );
                assert(pprev as nat * BASE as nat == BASE as nat * pow_mod_spec(
                    BASE as nat,
                    t as nat,
                    HASH as nat,
                )) by (nonlinear_arith)
                    requires
                        pprev as nat == pow_mod_spec(BASE as nat, t as nat, HASH as nat),
                ;
            }
            base_pow.push(p);
            t = t + 1;
        }
        let r = RHash { n, hash_acc, base_pow, elems: Ghost(a@) };
        r
    }

    /// One step of the prefix-shift argument, as pure modular algebra:
    /// extending both the prefix form and the block form by one element
    /// keeps them equal.
    proof fn lemma_shift_step(hp: nat, pk1: nat, pk: nat, sb1: nat, e: nat, x: nat)
        requires
            x == ((hp * pk1 + sb1) as int % (HASH as int)) as nat,
            pk as int == ((pk1 * BASE) as int) % (HASH as int),
        ensures
            ((x * BASE + e) as int) % (HASH as int) == ((hp * pk + (((sb1 * BASE + e) as int) % (
            HASH as int)) as nat) as int) % (HASH as int),
    {
        let m = HASH as int;
        let big = (hp * pk1 + sb1) as int;
        // reduce the left operand of the multiplication
        vstd::arithmetic::div_mod::lemma_mul_mod_noop_left(big, BASE as int, m);
        vstd::arithmetic::div_mod::lemma_mod_bound(big, m);
        lemma_add_mod_noop((big % m) * (BASE as int), e as int, m);
        lemma_add_mod_noop(big * (BASE as int), e as int, m);
        assert((x as int * BASE + e) % m == (big * BASE + e) % m) by {
            assert(x as int * BASE == (big % m) * (BASE as int));
        }
        // regroup the unreduced product
        assert(big * BASE == hp as int * (pk1 as int * BASE) + sb1 as int * BASE)
            by (nonlinear_arith)
            requires
                big == hp as int * pk1 + sb1,
        ;
        // reduce the power factor inside its summand
        lemma_add_mod_noop(
            hp as int * (pk1 as int * BASE),
            sb1 as int * BASE + e as int,
            m,
        );
        vstd::arithmetic::div_mod::lemma_mul_mod_noop_right(hp as int, pk1 as int * BASE, m);
        vstd::arithmetic::div_mod::lemma_mul_mod_noop_right(hp as int, pk as int, m);
        vstd::arithmetic::div_mod::lemma_mod_bound(pk1 as int * BASE, m);
        lemma_add_mod_noop(
            hp as int * pk as int,
            sb1 as int * BASE + e as int,
            m,
        );
        // reduce the block summand
        vstd::arithmetic::div_mod::lemma_add_mod_noop_right(
            (hp as int * pk as int) % m,
            sb1 as int * BASE + e as int,
            m,
        );
        lemma_add_mod_noop(
            hp as int * pk as int,
            ((sb1 as int * BASE + e as int) % m),
            m,
        );
        vstd::arithmetic::div_mod::lemma_add_mod_noop_right(
            (hp as int * pk as int) % m,
            ((sb1 as int * BASE + e as int) % m),
            m,
        );
    }

    /// A prefix hash splits into the hash of a shorter prefix shifted
    /// by a power of the base, plus the hash of the remaining block.
    proof fn lemma_prefix_split(s: Seq<u64>, l: int, k: nat)
        requires
            0 <= l,
            l + k <= s.len(),
        ensures
            block_hash(s, 0, (l + k) as nat) == (block_hash(s, 0, l as nat) * pow_mod_spec(
                BASE as nat,
                k,
                HASH as nat,
            ) + block_hash(s, l, k)) % (HASH as nat),
        decreases k,
    {
        let m = HASH as nat;
        if k == 0 {
            lemma_pow_mod_lt(BASE as nat, 0, m);
            assert(pow_mod_spec(BASE as nat, 0, m) == 1nat % m);
            lemma_small_mod(1nat, m);
            assert(block_hash(s, 0, l as nat) * 1 == block_hash(s, 0, l as nat))
                by (nonlinear_arith);
            assert(block_hash(s, 0, l as nat) < m) by {
                Self::lemma_block_hash_lt(s, 0, l as nat);
            }
            lemma_small_mod(block_hash(s, 0, l as nat), m);
        } else {
            Self::lemma_prefix_split(s, l, (k - 1) as nat);
            let hp = block_hash(s, 0, l as nat);
            let pk1 = pow_mod_spec(BASE as nat, (k - 1) as nat, m);
            let pk = pow_mod_spec(BASE as nat, k, m);
            let sb1 = block_hash(s, l, (k - 1) as nat);
            let e = (s[l + k - 1] + 1) as nat;
            lemma_pow_mod_step(BASE as nat, k, m);
            lemma_mul_mod_noop_general(BASE as int, pk1 as int, m as int);
            assert(pk as int == ((pk1 * BASE) as int) % (m as int)) by {
                assert(BASE as nat * pk1 == pk1 * BASE as nat) by (nonlinear_arith);
            }
            Self::lemma_shift_step(hp, pk1, pk, sb1, e, block_hash(s, 0, (l + k - 1) as nat));
            assert(block_hash(s, 0, (l + k) as nat) as int == ((block_hash(s, 0, (l + k
                - 1) as nat) * BASE + e) as int) % (m as int));
            assert(block_hash(s, l, k) as int == ((sb1 * BASE as nat + e) as int) % (
            m as int));
        }
    }

    /// Block hashes are reduced residues.
    proof fn lemma_block_hash_lt(s: Seq<u64>, l: int, k: nat)
        ensures
            block_hash(s, l, k) < HASH,
        decreases k,
    {
        if k == 0 {
        } else {
            lemma_mod_bound(
                (block_hash(s, l, (k - 1) as nat) * BASE + s[l + k - 1] + 1) as int,
                HASH as int,
            );
        }
    }

    /// Return the hash of the block `[l, r)` of the hashed sequence.
    pub fn range_hash(&self, l: usize, r: usize) -> (res: u64)
        requires
            self.inv(),
            l <= r,
            r <= self.spec_elems().len(),
        ensures
            res as nat == block_hash(self.spec_elems(), l as int, (r - l) as nat),
    {
        let left = mulmod(self.hash_acc[l], self.base_pow[r - l]);
        let right = self.hash_acc[r];
        proof {
            let m = HASH as nat;
            let s = self.elems@;
            let k = (r - l) as nat;
            Self::lemma_prefix_split(s, l as int, k);
            Self::lemma_block_hash_lt(s, l as int, k);
            let hp = block_hash(s, 0, l as nat);
            let pk = pow_mod_spec(BASE as nat, k, m);
            let sb = block_hash(s, l as int, k);
            // right == (left + sb) % m, so subtracting left isolates sb
            lemma_add_mod_noop((hp * pk) as int, sb as int, m as int);
            lemma_small_mod(sb, m);
            assert(right as nat == ((hp * pk) % m + sb) % m);
            assert(left as nat == (hp * pk) % m);
            if right >= left {
                // no wraparound happened in the modular sum
                lemma_mod_bound((hp * pk) as int, m as int);
                if left + sb < m {
                    lemma_small_mod((left as nat + sb), m);
                } else {
                    vstd::arithmetic::div_mod::lemma_mod_sub_multiples_vanish(
                        (left as nat + sb) as int,
                        m as int,
                    );
                    lemma_small_mod((left as nat + sb - m) as nat, m);
                }
            } else {
                lemma_mod_bound((hp * pk) as int, m as int);
                if left + sb < m {
                    lemma_small_mod((left as nat + sb), m);
                } else {
                    vstd::arithmetic::div_mod::lemma_mod_sub_multiples_vanish(
                        (left as nat + sb) as int,
                        m as int,
                    );
                    lemma_small_mod((left as nat + sb - m) as nat, m);
                }
            }
        }
        if right < left {
            HASH - left + right
        } else {
            right - left
        }
    }
}

} // verus!

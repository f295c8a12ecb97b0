//! Arithmetic in `Z / MOD Z` with a compile-time modulus.

pub mod combinatorics;

use vstd::prelude::*;
use vstd::arithmetic::div_mod::{
    lemma_mod_bound, lemma_mul_mod_noop_general, lemma_small_mod,
};

verus! {

/// `base ^ e` reduced modulo `m`.
pub open spec fn pow_mod_spec(base: nat, e: nat, m: nat) -> nat
    decreases e,
{
    if m == 0 {
        0
    } else if e == 0 {
        1nat % m
    } else {
        (base * pow_mod_spec(base, (e - 1) as nat, m)) % m
    }
}

/// The base of a modular power can be reduced first.
pub proof fn lemma_pow_mod_base(base: nat, e: nat, m: nat)
    requires
        m >= 1,
    ensures
        pow_mod_spec(base % m, e, m) == pow_mod_spec(base, e, m),
    decreases e,
{
    if e > 0 {
        lemma_pow_mod_base(base, (e - 1) as nat, m);
        lemma_mul_mod_noop_general(
            base as int,
            pow_mod_spec(base, (e - 1) as nat, m) as int,
            m as int,
        );
        lemma_mod_bound(pow_mod_spec(base, (e - 1) as nat, m) as int, m as int);
        lemma_small_mod(pow_mod_spec(base, (e - 1) as nat, m), m);
    }
}

/// Halving the exponent and squaring the base preserve a modular power.
pub proof fn lemma_pow_mod_square(base: nat, e: nat, m: nat)
    requires
        m >= 1,
    ensures
        pow_mod_spec(base, 2 * e, m) == pow_mod_spec((base * base) % m, e, m),
    decreases e,
{
    if e == 0 {
    } else {
        lemma_pow_mod_square(base, (e - 1) as nat, m);
        let inner = pow_mod_spec(base, (2 * e - 2) as nat, m);
        // pow(base, 2e) == (base * ((base * inner) % m)) % m
        assert(pow_mod_spec(base, (2 * e - 1) as nat, m) == (base * inner) % m);
        lemma_mul_mod_noop_general(base as int, (base * inner) as int, m as int);
        assert((base * ((base * inner) % m)) % m == (base * (base * inner)) % m);
        assert(base * (base * inner) == (base * base) * inner) by (nonlinear_arith);
        lemma_mul_mod_noop_general((base * base) as int, inner as int, m as int);
        assert(pow_mod_spec((base * base) % m, e, m) == (((base * base) % m) * pow_mod_spec(
            (base * base) % m,
            (e - 1) as nat,
            m,
        )) % m);
    }
}

/// A modular power is a reduced residue.
pub proof fn lemma_pow_mod_lt(base: nat, e: nat, m: nat)
    requires
        m >= 1,
    ensures
        pow_mod_spec(base, e, m) < m,
{
    if e == 0 {
        lemma_mod_bound(1int, m as int);
    } else {
        lemma_mod_bound((base * pow_mod_spec(base, (e - 1) as nat, m)) as int, m as int);
    }
}

/// A modular power of a sum of exponents is the reduced product.
pub proof fn lemma_pow_mod_adds(base: nat, e1: nat, e2: nat, m: nat)
    requires
        m >= 1,
    ensures
        pow_mod_spec(base, e1 + e2, m) == (pow_mod_spec(base, e1, m) * pow_mod_spec(
            base,
            e2,
            m,
        )) % m,
    decreases e2,
{
    if e2 == 0 {
        lemma_pow_mod_lt(base, e1, m);
        vstd::arithmetic::div_mod::lemma_mul_mod_noop_right(
            pow_mod_spec(base, e1, m) as int,
            1int,
            m as int,
        );
        lemma_small_mod(pow_mod_spec(base, e1, m), m);
    } else {
        lemma_pow_mod_adds(base, e1, (e2 - 1) as nat, m);
        let p1 = pow_mod_spec(base, e1, m);
        let p2 = pow_mod_spec(base, (e2 - 1) as nat, m);
        // pow(base, e1 + e2) == (base * ((p1 * p2) % m)) % m
        assert(pow_mod_spec(base, e1 + e2, m) == (base * pow_mod_spec(
            base,
            (e1 + e2 - 1) as nat,
            m,
        )) % m);
        lemma_mul_mod_noop_general(base as int, (p1 * p2) as int, m as int);
        assert(base * (p1 * p2) == p1 * (base * p2)) by (nonlinear_arith);
        lemma_mul_mod_noop_general(p1 as int, (base * p2) as int, m as int);
    }
}

/// Splitting one factor off a modular power.
pub proof fn lemma_pow_mod_step(base: nat, e: nat, m: nat)
    requires
        m >= 1,
        e >= 1,
    ensures
        pow_mod_spec(base, e, m) == (base * pow_mod_spec(base, (e - 1) as nat, m)) % m,
{
}

/// An element of the field (or ring) `Z / MOD Z`.
#[derive(Clone, Copy, PartialEq, Eq)]
pub struct GF<const MOD: u32> {
    val: u32,
}

impl<const MOD: u32> GF<MOD> {
    /// The residue this element stands for.
    pub closed spec fn spec_val(&self) -> nat {
        self.val as nat
    }

    /// Well-formedness: the residue is reduced.
    pub open spec fn wf(&self) -> bool {
        self.spec_val() < MOD
    }

    /// The element `val mod MOD`.
    pub fn new(val: u32) -> (r: Self)
        requires
            MOD >= 1,
        ensures
            r.wf(),
            r.spec_val() == val as nat % MOD as nat,
    {
        GF { val: val % MOD }
    }

    /// The sum of two elements.
    pub fn add(&self, other: &Self) -> (r: Self)
        requires
            MOD >= 1,
            self.wf(),
            other.wf(),
        ensures
            r.wf(),
            r.spec_val() == (self.spec_val() + other.spec_val()) % MOD as nat,
    {
        let s = self.val as u64 + other.val as u64;
        let m = MOD as u64;
        GF { val: (s % m) as u32 }
    }

    /// The difference of two elements.
    pub fn sub(&self, other: &Self) -> (r: Self)
        requires
            MOD >= 1,
            self.wf(),
            other.wf(),
        ensures
            r.wf(),
            r.spec_val() as int == (self.spec_val() + MOD - other.spec_val()) % (MOD as int),
    {
        let s = self.val as u64 + MOD as u64 - other.val as u64;
        let m = MOD as u64;
        GF { val: (s % m) as u32 }
    }

    /// The product of two elements.
    pub fn mul(&self, other: &Self) -> (r: Self)
        requires
            MOD >= 1,
            self.wf(),
            other.wf(),
        ensures
            r.wf(),
            r.spec_val() == (self.spec_val() * other.spec_val()) % MOD as nat,
    {
        proof {
            assert((self.val as int) * (other.val as int) < 0x1_0000_0000_0000_0000int)
                by (nonlinear_arith)
                requires
                    self.val < 0x1_0000_0000,
                    other.val < 0x1_0000_0000,
            ;
        }
        let p = self.val as u64 * other.val as u64;
        let m = MOD as u64;
        GF { val: (p % m) as u32 }
    }

    /// `self` raised to the power `exp`.
    pub fn pow(&self, exp: u32) -> (r: Self)
        requires
            MOD >= 1,
            self.wf(),
        ensures
            r.wf(),
            r.spec_val() == pow_mod_spec(self.spec_val(), exp as nat, MOD as nat),
    {
        let mut res = Self::new(1);
        let mut base = *self;
        let mut e = exp;
        proof {
            let m = MOD as nat;
            let pw = pow_mod_spec(self.spec_val(), exp as nat, m);
            lemma_pow_mod_lt(self.spec_val(), exp as nat, m);
            vstd::arithmetic::div_mod::lemma_mul_mod_noop_left(1int, pw as int, m as int);
            lemma_small_mod(pw, m);
        }
        while e > 0
            invariant
                MOD >= 1,
                res.wf(),
                base.wf(),
                (res.spec_val() * pow_mod_spec(base.spec_val(), e as nat, MOD as nat)) % (
                MOD as nat) == pow_mod_spec(self.spec_val(), exp as nat, MOD as nat),
            decreases e,
        {
            let ghost rv = res.spec_val();
            let ghost bv = base.spec_val();
            let ghost en = e as nat;
            let ghost m = MOD as nat;
            if e % 2 == 1 {
                res = res.mul(&base);
                proof {
                    // fold one factor of the power into the accumulator
                    lemma_pow_mod_step(bv, en, m);
                    let rest = pow_mod_spec(bv, (en - 1) as nat, m);
                    lemma_mul_mod_noop_general(rv as int, (bv * rest) as int, m as int);
                    assert(rv * (bv * rest) == (rv * bv) * rest) by (nonlinear_arith);
                    lemma_mul_mod_noop_general((rv * bv) as int, rest as int, m as int);
                }
            }
            let ghost rv2 = res.spec_val();
            base = base.mul(&base);
            proof {
                let half = (e / 2) as nat;
                if e % 2 == 1 {
                    assert(en - 1 == 2 * half);
                } else {
                    assert(en == 2 * half);
                }
                lemma_pow_mod_square(bv, half, m);
            }
            e = e / 2;
        }
        proof {
            let m = MOD as nat;
            assert(pow_mod_spec(base.spec_val(), 0, m) == 1nat % m);
            vstd::arithmetic::div_mod::lemma_mul_mod_noop_right(
                res.spec_val() as int,
                1int,
                m as int,
            );
            lemma_small_mod(res.spec_val(), m);
        }
        res
    }

    /// The modular inverse, computed as `self ^ (MOD - 2)`; meaningful
    /// when `MOD` is prime.
    pub fn inv(&self) -> (r: Self)
        requires
            MOD >= 1,
            self.wf(),
            self.spec_val() != 0,
        ensures
            r.wf(),
            r.spec_val() == pow_mod_spec(self.spec_val(), (MOD - 2) as nat, MOD as nat),
    {
        self.pow(MOD - 2)
    }

    /// The reduced residue, as a machine integer.
    pub fn value(&self) -> (r: u32)
        ensures
            r as nat == self.spec_val(),
    {
        self.val
    }
}

} // verus!

//! Deterministic Miller-Rabin primality testing for 64-bit integers.
//!
//! The result is specified as the Miller-Rabin predicate over a fixed
//! witness set.  That these particular witness sets make the test exact
//! for every 64-bit input is a known number-theoretic fact that this
//! development does not re-prove.

use vstd::prelude::*;
use vstd::arithmetic::power2::pow2;

use crate::gf::{lemma_pow_mod_adds, lemma_pow_mod_lt, pow_mod_spec};
use crate::intalgo::pow_mod;

verus! {

/// The odd part of `m`.
pub open spec fn odd_part(m: nat) -> nat
    decreases m,
{
    if m == 0 {
        0
    } else if m % 2 == 1 {
        m
    } else {
        odd_part(m / 2)
    }
}

/// The number of trailing factors of two in `m`.
pub open spec fn two_adic(m: nat) -> nat
    decreases m,
{
    if m == 0 || m % 2 == 1 {
        0
    } else {
        1 + two_adic(m / 2)
    }
}

/// Does the Miller-Rabin witness `a` fail to expose `n` as composite?
///
/// With `n - 1 == d * 2^r` and `d` odd, the witness passes when
/// `a^d == 1 (mod n)` or `a^(d * 2^i) == n - 1 (mod n)` for some
/// `i < r`.
pub open spec fn mr_passes(n: nat, a: nat) -> bool {
    let d = odd_part((n - 1) as nat);
    let r = two_adic((n - 1) as nat);
    pow_mod_spec(a, d, n) == 1 || exists|i: nat|
        i < r && pow_mod_spec(a, d * #[trigger] pow2(i), n) == n - 1
}

/// The deterministic Miller-Rabin verdict on `n`, with the witness set
/// chosen by the size of `n`.
pub open spec fn mr_prime(n: nat) -> bool {
    if n < 2 {
        false
    } else if n == 2 {
        true
    } else if n % 2 == 0 {
        false
    } else if n < 4_759_123_141 {
        &&& (2 < n ==> mr_passes(n, 2))
        &&& (7 < n ==> mr_passes(n, 7))
        &&& (61 < n ==> mr_passes(n, 61))
    } else {
        &&& mr_passes(n, 2)
        &&& mr_passes(n, 325)
        &&& mr_passes(n, 9_375)
        &&& mr_passes(n, 28_178)
        &&& mr_passes(n, 450_775)
        &&& mr_passes(n, 9_780_504)
        &&& mr_passes(n, 1_795_265_022)
    }
}

/// Run the Miller-Rabin round for witness `a`.
fn mr_check(n: u64, a: u64) -> (res: bool)
    requires
        n >= 3,
        n % 2 == 1,
        a >= 1,
    ensures
        res == mr_passes(n as nat, a as nat),
{
    let ghost m0 = (n - 1) as nat;
    let mut d = n - 1;
    let mut r: u32 = 0;
    proof {
        assert(pow2(0) == 1) by {
            vstd::arithmetic::power2::lemma2_to64();
        }
        assert(m0 * pow2(0) == m0) by (nonlinear_arith)
            requires
                pow2(0) == 1,
        ;
    }
    while d % 2 == 0
        invariant
            1 <= d,
            m0 < 0x1_0000_0000_0000_0000,
            odd_part(m0) == odd_part(d as nat),
            two_adic(m0) == r + two_adic(d as nat),
            d as nat * pow2(r as nat) == m0,
        decreases d,
    {
        proof {
            vstd::arithmetic::power2::lemma_pow2_pos(r as nat);
            assert(pow2(r as nat) <= m0) by (nonlinear_arith)
                requires
                    d as nat * pow2(r as nat) == m0,
                    d >= 1,
                    pow2(r as nat) >= 1,
            ;
            assert(r < 64) by {
                if r >= 64 {
                    crate::treemath::lemma_pow2_le(64, r as nat);
                    assert(pow2(64) == 0x1_0000_0000_0000_0000) by {
                        vstd::arithmetic::power2::lemma2_to64_rest();
                    }
                }
            }
            vstd::arithmetic::power2::lemma_pow2_unfold(r as nat + 1);
            assert((d as nat / 2) * pow2(r as nat + 1) == d as nat * pow2(r as nat))
                by (nonlinear_arith)
                requires
                    d as nat == 2 * (d as nat / 2),
                    pow2(r as nat + 1) == 2 * pow2(r as nat),
            ;
        }
        d = d / 2;
        r = r + 1;
    }
    let ghost dd = d as nat;
    let ghost rr = two_adic(m0);
    proof {
        assert(pow2(0) == 1) by {
            vstd::arithmetic::power2::lemma2_to64();
        }
        assert(dd * pow2(0) == dd) by (nonlinear_arith)
            requires
                pow2(0) == 1,
        ;
    }
    let mut pow = pow_mod(a, d, n);
    if pow == 1 {
        return true;
    }
    if pow == n - 1 {
        proof {
            assert(pow2(0) == 1) by {
                vstd::arithmetic::power2::lemma2_to64();
            }
            assert(dd * pow2(0) == dd) by (nonlinear_arith)
                requires
                    pow2(0) == 1,
            ;
            // r >= 1 because n - 1 is even
            assert(rr >= 1);
            assert(exists|i: nat|
                i < rr && pow_mod_spec(a as nat, dd * #[trigger] pow2(i), n as nat) == n - 1);
        }
        return true;
    }
    let mut i: u32 = 1;
    while i < r
        invariant
            1 <= i <= r,
            n >= 3,
            n % 2 == 1,
            a >= 1,
            dd == odd_part(m0),
            rr == two_adic(m0),
            r == rr,
            m0 == (n - 1) as nat,
            pow == pow_mod_spec(a as nat, dd * pow2((i - 1) as nat), n as nat),
            forall|j: nat|
                j < i ==> pow_mod_spec(a as nat, dd * #[trigger] pow2(j), n as nat) != n - 1,
            pow_mod_spec(a as nat, dd, n as nat) != 1,
        decreases r - i,
    {
        proof {
            assert((pow as int) * (pow as int) < 0x1_0000_0000_0000_0000int
                * 0x1_0000_0000_0000_0000int) by (nonlinear_arith)
                requires
                    pow < 0x1_0000_0000_0000_0000,
            ;
            vstd::arithmetic::div_mod::lemma_mod_bound((pow as int) * (pow as int), n as int);
            let e = dd * pow2((i - 1) as nat);
            lemma_pow_mod_adds(a as nat, e, e, n as nat);
            vstd::arithmetic::power2::lemma_pow2_unfold(i as nat);
            assert(e + e == dd * pow2(i as nat)) by (nonlinear_arith)
                requires
                    e == dd * pow2((i - 1) as nat),
                    pow2(i as nat) == 2 * pow2((i - 1) as nat),
            ;
        }
        pow = ((pow as u128 * pow as u128) % n as u128) as u64;
        if pow == n - 1 {
            proof {
                assert(pow_mod_spec(a as nat, dd * pow2(i as nat), n as nat) == n - 1);
                assert(i < rr);
            }
            return true;
        }
        i = i + 1;
    }
    proof {
        assert(!mr_passes(n as nat, a as nat)) by {
            if mr_passes(n as nat, a as nat) {
                let j = choose|j: nat|
                    j < rr && pow_mod_spec(a as nat, dd * #[trigger] pow2(j), n as nat) == n
                        - 1;
                assert(false);
            }
        }
    }
    false
}

/// Return whether `n` is prime, by the deterministic Miller-Rabin test.
pub fn is_prime(n: u64) -> (res: bool)
    ensures
        res == mr_prime(n as nat),
{
    if n < 2 {
        false
    } else if n == 2 {
        true
    } else if n % 2 == 0 {
        false
    } else if n < 4_759_123_141 {
        let mut ok = true;
        if 2 < n {
            ok = ok && mr_check(n, 2);
        }
        if 7 < n {
            ok = ok && mr_check(n, 7);
        }
        if 61 < n {
            ok = ok && mr_check(n, 61);
        }
        ok
    } else {
        mr_check(n, 2) && mr_check(n, 325) && mr_check(n, 9_375) && mr_check(n, 28_178)
            && mr_check(n, 450_775) && mr_check(n, 9_780_504) && mr_check(n, 1_795_265_022)
    }
}

} // verus!

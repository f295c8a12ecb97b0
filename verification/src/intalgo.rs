//! Elementary number theory: greatest common divisors, least common
//! multiples, modular powers and divisor enumeration.

pub mod eratos;
pub mod gcd;
pub mod is_prime;
pub mod prime;

use vstd::prelude::*;
use vstd::arithmetic::div_mod::{
    lemma_fundamental_div_mod, lemma_mod_bound, lemma_mod_multiples_basic,
    lemma_mul_mod_noop_general, lemma_small_mod,
};

use crate::gf::{lemma_pow_mod_base, lemma_pow_mod_lt, lemma_pow_mod_square, lemma_pow_mod_step, pow_mod_spec};

verus! {

/// Does `d` divide `x` evenly?
pub open spec fn divides(d: nat, x: nat) -> bool {
    if d == 0 {
        x == 0
    } else {
        x % d == 0
    }
}

/// The greatest common divisor, by Euclid's recurrence.
pub open spec fn spec_gcd(a: nat, b: nat) -> nat
    decreases b,
{
    if b == 0 {
        a
    } else {
        spec_gcd(b, a % b)
    }
}

/// A divisor of both `a` and `b` divides any `a - q * b`.
proof fn lemma_divides_combo(d: nat, a: nat, b: nat)
    requires
        b >= 1,
        divides(d, a),
        divides(d, b),
    ensures
        divides(d, a % b),
{
    if d == 0 {
    } else {
        lemma_fundamental_div_mod(a as int, b as int);
        let q = a as int / b as int;
        lemma_fundamental_div_mod(a as int, d as int);
        lemma_fundamental_div_mod(b as int, d as int);
        let ka = a as int / d as int;
        let kb = b as int / d as int;
        assert(a % b == a - q * b);
        assert(a as int == d * ka && b as int == d * kb);
        assert(d * ka - q * (d * kb) == d * (ka - q * kb)) by (nonlinear_arith);
        assert(d as int * (ka - q * kb) == (ka - q * kb) * d) by (nonlinear_arith);
        lemma_mod_bound(a as int, b as int);
        vstd::arithmetic::div_mod::lemma_fundamental_div_mod_converse_mod(
            (a % b) as int,
            d as int,
            ka - q * kb,
            0,
        );
    }
}

/// `d` divides `d * k`.
proof fn lemma_divides_mul(d: nat, k: nat)
    requires
        d >= 1,
    ensures
        divides(d, d * k),
{
    lemma_mod_multiples_basic(k as int, d as int);
    assert(k * d == d * k) by (nonlinear_arith);
}

/// The gcd divides both arguments.
pub proof fn lemma_gcd_divides(a: nat, b: nat)
    ensures
        divides(spec_gcd(a, b), a),
        divides(spec_gcd(a, b), b),
    decreases b,
{
    if b == 0 {
        if a == 0 {
        } else {
            lemma_mod_multiples_basic(1int, a as int);
            lemma_small_mod(0, a as nat);
        }
    } else {
        lemma_gcd_divides(b, a % b);
        let g = spec_gcd(b, a % b);
        // g divides b and a % b, hence a == q * b + a % b.
        lemma_mod_bound(a as int, b as int);
        if g == 0 {
            assert(b == 0 || b % b == 0) by {
                lemma_mod_multiples_basic(1int, b as int);
            }
        } else {
            lemma_fundamental_div_mod(a as int, b as int);
            let q = a as int / b as int;
            lemma_fundamental_div_mod(b as int, g as int);
            lemma_fundamental_div_mod((a % b) as int, g as int);
            let kb = b as int / g as int;
            let kr = (a % b) as int / g as int;
            assert(q * (g * kb) + g * kr == g * (q * kb + kr)) by (nonlinear_arith);
            assert(g as int * (q * kb + kr) == (q * kb + kr) * g) by (nonlinear_arith);
            vstd::arithmetic::div_mod::lemma_fundamental_div_mod_converse_mod(
                a as int,
                g as int,
                q * kb + kr,
                0,
            );
        }
    }
}

/// Any common divisor of the arguments divides the gcd.
pub proof fn lemma_gcd_greatest(d: nat, a: nat, b: nat)
    requires
        divides(d, a),
        divides(d, b),
    ensures
        divides(d, spec_gcd(a, b)),
    decreases b,
{
    if b == 0 {
    } else {
        lemma_divides_combo(d, a, b);
        lemma_gcd_greatest(d, b, a % b);
    }
}

/// Mutually dividing numbers are equal.
pub proof fn lemma_divides_antisym(a: nat, b: nat)
    requires
        divides(a, b),
        divides(b, a),
    ensures
        a == b,
{
    if a == 0 {
        assert(b == 0);
    } else if b == 0 {
        assert(a == 0);
    } else {
        lemma_fundamental_div_mod(b as int, a as int);
        lemma_fundamental_div_mod(a as int, b as int);
        let ai = a as int;
        let bi = b as int;
        let k = bi / ai;
        let j = ai / bi;
        assert(bi == ai * k && ai == bi * j);
        assert(ai == (ai * k) * j) by (nonlinear_arith)
            requires
                bi == ai * k,
                ai == bi * j,
        ;
        assert(k >= 1) by (nonlinear_arith)
            requires
                bi == ai * k,
                ai >= 1,
                bi >= 1,
        ;
        assert(j >= 1) by (nonlinear_arith)
            requires
                ai == bi * j,
                ai >= 1,
                bi >= 1,
        ;
        assert(k == 1 && j == 1) by (nonlinear_arith)
            requires
                ai == (ai * k) * j,
                ai >= 1,
                k >= 1,
                j >= 1,
        ;
        assert(bi == ai * 1) by (nonlinear_arith)
            requires
                bi == ai * k,
                k == 1,
        ;
    }
}

/// The gcd of two positive numbers is positive and bounded by each.
pub proof fn lemma_gcd_pos(a: nat, b: nat)
    requires
        a >= 1,
    ensures
        1 <= spec_gcd(a, b),
        spec_gcd(a, b) <= a,
    decreases b,
{
    lemma_gcd_divides(a, b);
    let g = spec_gcd(a, b);
    if g == 0 {
        assert(a % 0 == a) by {
        }
        assert(false);
    }
    lemma_fundamental_div_mod(a as int, g as int);
    let k = a as int / g as int;
    assert(a as int == g * k);
    assert(k >= 1 && g <= a) by (nonlinear_arith)
        requires
            a as int == g * k,
            a >= 1,
            g >= 1,
    ;
}

/// Stripping a factor of two from one argument when the other is odd
/// preserves the gcd.
proof fn lemma_gcd_halve_left(a: nat, b: nat)
    requires
        b % 2 == 1,
    ensures
        spec_gcd(2 * a, b) == spec_gcd(a, b),
{
    let g = spec_gcd(2 * a, b);
    let h = spec_gcd(a, b);
    lemma_gcd_divides(2 * a, b);
    lemma_gcd_divides(a, b);
    // h divides a, so h divides 2a; with h | b, h divides g.
    if h != 0 {
        lemma_fundamental_div_mod(a as int, h as int);
        let k = a as int / h as int;
        assert(2 * a as int == h * (2 * k)) by (nonlinear_arith)
            requires
                a as int == h * k,
        ;
        lemma_divides_mul(h, (2 * k) as nat);
        assert(divides(h, 2 * a));
    } else {
        assert(a == 0);
    }
    lemma_gcd_greatest(h, 2 * a, b);
    // g divides b, which is odd, so g is odd; an odd divisor of 2a
    // divides a.
    if g != 0 {
        assert(g % 2 == 1) by {
            if g % 2 == 0 {
                lemma_fundamental_div_mod(b as int, g as int);
                let kb = b as int / g as int;
                assert(b as int == g * kb);
                lemma_fundamental_div_mod(g as int, 2int);
                let gh = g as int / 2;
                assert((2 * gh) * kb == 2 * (gh * kb)) by (nonlinear_arith);
                vstd::arithmetic::div_mod::lemma_fundamental_div_mod_converse_mod(
                    b as int,
                    2int,
                    gh * kb,
                    0,
                );
            }
        }
        lemma_fundamental_div_mod((2 * a) as int, g as int);
        let m = (2 * a) as int / g as int;
        assert(2 * a as int == g * m);
        assert(m % 2 == 0) by {
            if m % 2 == 1 {
                lemma_fundamental_div_mod(m, 2int);
                lemma_fundamental_div_mod(g as int, 2int);
                let mh = m / 2;
                let gh = g as int / 2;
                // odd times odd is odd, contradicting evenness of 2a
                assert((2 * gh + 1) * (2 * mh + 1) == 2 * (2 * gh * mh + gh + mh) + 1)
                    by (nonlinear_arith);
                vstd::arithmetic::div_mod::lemma_fundamental_div_mod_converse_mod(
                    (2 * a) as int,
                    2int,
                    2 * gh * mh + gh + mh,
                    1,
                );
                lemma_mod_multiples_basic(a as int, 2int);
            }
        }
        lemma_fundamental_div_mod(m, 2int);
        let mh = m / 2;
        assert(g * (2 * mh) == 2 * (g * mh)) by (nonlinear_arith);
        assert(a as int == g * mh) by (nonlinear_arith)
            requires
                2 * a as int == g * (2 * mh),
        ;
        lemma_divides_mul(g, mh as nat);
        assert(divides(g, a));
    } else {
        assert(2 * a == 0 && a == 0);
    }
    lemma_gcd_greatest(g, a, b);
    lemma_divides_antisym(g, h);
}

/// Both arguments even: a common factor of two comes out of the gcd.
proof fn lemma_gcd_halve_both(a: nat, b: nat)
    ensures
        spec_gcd(2 * a, 2 * b) == 2 * spec_gcd(a, b),
    decreases b,
{
    if b == 0 {
    } else {
        lemma_gcd_halve_both(b, a % b);
        assert((2 * a) % (2 * b) == 2 * (a % b)) by {
            vstd::arithmetic::div_mod::lemma_mod_breakdown(2 * a as int, 2int, b as int);
            lemma_mod_multiples_basic(a as int, 2int);
            assert((2 * a as int) / 2 == a as int);
        }
    }
}

/// Subtracting the smaller argument from the larger preserves the gcd.
proof fn lemma_gcd_sub(a: nat, b: nat)
    requires
        b >= 1,
        a >= b,
    ensures
        spec_gcd((a - b) as nat, b) == spec_gcd(a, b),
{
    // gcd(a - b, b) == gcd(b, (a - b) % b) and (a - b) % b == a % b
    vstd::arithmetic::div_mod::lemma_mod_sub_multiples_vanish(a as int, b as int);
    if a == b {
        lemma_mod_multiples_basic(1int, b as int);
        lemma_small_mod(0, b as nat);
    }
}

/// The gcd is symmetric.
pub proof fn lemma_gcd_comm(a: nat, b: nat)
    ensures
        spec_gcd(a, b) == spec_gcd(b, a),
{
    if a == b {
    } else if a < b {
        if a == 0 {
            lemma_gcd_zero(b);
        } else {
            lemma_small_mod(a, b);
        }
    } else {
        if b == 0 {
            lemma_gcd_zero(a);
        } else {
            lemma_small_mod(b, a);
        }
    }
}

/// The gcd with zero.
pub proof fn lemma_gcd_zero(a: nat)
    ensures
        spec_gcd(a, 0) == a,
        spec_gcd(0, a) == a,
{
    if a != 0 {
        lemma_mod_multiples_basic(0int, a as int);
    }
}

/// Return the greatest common divisor of `a` and `b`, by the binary
/// gcd algorithm.
pub fn gcd(a: u64, b: u64) -> (r: u64)
    ensures
        r == spec_gcd(a as nat, b as nat),
{
    if a == 0 {
        proof {
            lemma_gcd_zero(b as nat);
        }
        return b;
    }
    if b == 0 {
        proof {
            lemma_gcd_zero(a as nat);
        }
        return a;
    }
    let mut x = a;
    let mut y = b;
    let mut shift: u32 = 0;
    proof {
        assert(vstd::arithmetic::power2::pow2(0) == 1) by {
            vstd::arithmetic::power2::lemma2_to64();
        }
        assert(1nat * spec_gcd(a as nat, b as nat) == spec_gcd(a as nat, b as nat))
            by (nonlinear_arith);
        assert(1nat * (a as nat) == a as nat) by (nonlinear_arith);
    }
    // strip the common factors of two
    while x % 2 == 0 && y % 2 == 0
        invariant
            1 <= x,
            1 <= y,
            shift <= 63,
            spec_gcd(a as nat, b as nat) == vstd::arithmetic::power2::pow2(shift as nat)
                * spec_gcd(x as nat, y as nat),
            vstd::arithmetic::power2::pow2(shift as nat) * x <= a,
        decreases x,
    {
        proof {
            let p = vstd::arithmetic::power2::pow2(shift as nat);
            let p2 = vstd::arithmetic::power2::pow2(shift as nat + 1);
            lemma_gcd_halve_both((x / 2) as nat, (y / 2) as nat);
            vstd::arithmetic::power2::lemma_pow2_unfold(shift as nat + 1);
            assert(p2 * ((x / 2) as nat) == p * (x as nat)) by (nonlinear_arith)
                requires
                    p2 == 2 * p,
                    x as nat == 2 * ((x / 2) as nat),
            ;
            assert(p2 * spec_gcd((x / 2) as nat, (y / 2) as nat) == p * (2 * spec_gcd(
                (x / 2) as nat,
                (y / 2) as nat,
            ))) by (nonlinear_arith)
                requires
                    p2 == 2 * p,
            ;
            // the shift stays small because 2^shift never exceeds a
            vstd::arithmetic::power2::lemma_pow2_pos(shift as nat);
            assert(p2 <= p2 * ((x / 2) as nat)) by (nonlinear_arith)
                requires
                    p2 >= 1,
                    x / 2 >= 1,
            ;
            assert(shift < 63) by {
                if shift >= 63 {
                    crate::treemath::lemma_pow2_le(64, shift as nat + 1);
                    assert(vstd::arithmetic::power2::pow2(64) == 0x1_0000_0000_0000_0000) by {
                        vstd::arithmetic::power2::lemma2_to64_rest();
                    }
                }
            }
        }
        x = x / 2;
        y = y / 2;
        shift = shift + 1;
    }
    // now at least one of x, y is odd
    while x % 2 == 0
        invariant
            1 <= x,
            1 <= y,
            y % 2 == 1 || x % 2 == 1,
            shift <= 63,
            spec_gcd(a as nat, b as nat) == vstd::arithmetic::power2::pow2(shift as nat)
                * spec_gcd(x as nat, y as nat),
        decreases x,
    {
        proof {
            lemma_gcd_halve_left((x / 2) as nat, y as nat);
        }
        x = x / 2;
    }
    while y % 2 == 0
        invariant
            1 <= x,
            1 <= y,
            x % 2 == 1,
            shift <= 63,
            spec_gcd(a as nat, b as nat) == vstd::arithmetic::power2::pow2(shift as nat)
                * spec_gcd(x as nat, y as nat),
        decreases y,
    {
        proof {
            lemma_gcd_halve_left((y / 2) as nat, x as nat);
            lemma_gcd_comm(x as nat, y as nat);
            lemma_gcd_comm(x as nat, (y / 2) as nat);
        }
        y = y / 2;
    }
    // both odd: subtract and strip until equal
    while x != y
        invariant
            1 <= x,
            1 <= y,
            x % 2 == 1,
            y % 2 == 1,
            shift <= 63,
            spec_gcd(a as nat, b as nat) == vstd::arithmetic::power2::pow2(shift as nat)
                * spec_gcd(x as nat, y as nat),
        decreases x + y,
    {
        let ghost s0 = x as int + y as int;
        if x < y {
            let t = x;
            x = y;
            y = t;
            proof {
                lemma_gcd_comm(x as nat, y as nat);
            }
        }
        proof {
            lemma_gcd_sub(x as nat, y as nat);
        }
        x = x - y;
        while x % 2 == 0
            invariant
                1 <= x,
                1 <= y,
                y % 2 == 1,
                shift <= 63,
                (x as int + y as int) < s0,
                spec_gcd(a as nat, b as nat) == vstd::arithmetic::power2::pow2(shift as nat)
                    * spec_gcd(x as nat, y as nat),
            decreases x,
        {
            proof {
                lemma_gcd_halve_left((x / 2) as nat, y as nat);
            }
            x = x / 2;
        }
    }
    proof {
        // gcd(x, x) == x
        vstd::arithmetic::div_mod::lemma_mod_self_0(x as int);
        assert(spec_gcd(x as nat, 0nat) == x as nat);
        assert(spec_gcd(x as nat, x as nat) == x as nat);
        lemma_gcd_pos(a as nat, b as nat);
        vstd::arithmetic::power2::lemma_pow2_pos(shift as nat);
        crate::treemath::lemma_pow2_le(shift as nat, 63);
        assert(vstd::arithmetic::power2::pow2(63) == 0x8000_0000_0000_0000) by {
            vstd::arithmetic::power2::lemma2_to64_rest();
        }
    }
    let p = pow2_u64(shift);
    proof {
        assert(p * x == spec_gcd(a as nat, b as nat));
    }
    p * x
}

/// `2^shift` as a machine integer.
fn pow2_u64(shift: u32) -> (r: u64)
    requires
        vstd::arithmetic::power2::pow2(shift as nat) <= u64::MAX,
    ensures
        r == vstd::arithmetic::power2::pow2(shift as nat),
{
    let mut r: u64 = 1;
    let mut i: u32 = 0;
    proof {
        assert(vstd::arithmetic::power2::pow2(0) == 1) by {
            vstd::arithmetic::power2::lemma2_to64();
        }
    }
    while i < shift
        invariant
            i <= shift,
            r == vstd::arithmetic::power2::pow2(i as nat),
            vstd::arithmetic::power2::pow2(shift as nat) <= u64::MAX,
        decreases shift - i,
    {
        proof {
            vstd::arithmetic::power2::lemma_pow2_unfold(i as nat + 1);
            crate::treemath::lemma_pow2_le(i as nat + 1, shift as nat);
        }
        r = r * 2;
        i = i + 1;
    }
    r
}

/// Return the least common multiple of `a` and `b`.
pub fn lcm(a: u64, b: u64) -> (r: u64)
    requires
        a >= 1,
        b >= 1,
        (a as nat / spec_gcd(a as nat, b as nat)) * b as nat <= u64::MAX,
    ensures
        r as nat == (a as nat / spec_gcd(a as nat, b as nat)) * b as nat,
{
    let g = gcd(a, b);
    proof {
        lemma_gcd_pos(a as nat, b as nat);
    }
    a / g * b
}

/// Return `base ^ e` modulo `m`.
pub fn pow_mod(base: u64, e: u64, m: u64) -> (r: u64)
    requires
        m >= 1,
    ensures
        r == pow_mod_spec(base as nat, e as nat, m as nat),
{
    let mut res: u64 = 1 % m;
    let mut b = base % m;
    let mut k = e;
    proof {
        let mm = m as nat;
        let pw = pow_mod_spec(base as nat, e as nat, mm);
        lemma_pow_mod_lt(base as nat, e as nat, mm);
        vstd::arithmetic::div_mod::lemma_mul_mod_noop_left(1int, pw as int, m as int);
        lemma_small_mod(pw, mm);
        lemma_pow_mod_base(base as nat, e as nat, mm);
    }
    while k > 0
        invariant
            m >= 1,
            res < m,
            b < m,
            (res as nat * pow_mod_spec(b as nat, k as nat, m as nat)) % (m as nat) == pow_mod_spec(
                base as nat,
                e as nat,
                m as nat,
            ),
        decreases k,
    {
        let ghost rv = res as nat;
        let ghost bv = b as nat;
        let ghost en = k as nat;
        let ghost mm = m as nat;
        if k % 2 == 1 {
            proof {
                assert((res as int) * (b as int) < 0x1_0000_0000_0000_0000int
                    * 0x1_0000_0000_0000_0000int) by (nonlinear_arith)
                    requires
                        res < 0x1_0000_0000_0000_0000,
                        b < 0x1_0000_0000_0000_0000,
                ;
                lemma_mod_bound((res as int) * (b as int), m as int);
            }
            res = ((res as u128 * b as u128) % m as u128) as u64;
            proof {
                lemma_pow_mod_step(bv, en, mm);
                let rest = pow_mod_spec(bv, (en - 1) as nat, mm);
                lemma_mul_mod_noop_general(rv as int, (bv * rest) as int, m as int);
                assert(rv * (bv * rest) == (rv * bv) * rest) by (nonlinear_arith);
                lemma_mul_mod_noop_general((rv * bv) as int, rest as int, m as int);
            }
        }
        let ghost rv2 = res as nat;
        proof {
            assert((b as int) * (b as int) < 0x1_0000_0000_0000_0000int
                * 0x1_0000_0000_0000_0000int) by (nonlinear_arith)
                requires
                    b < 0x1_0000_0000_0000_0000,
            ;
            lemma_mod_bound((b as int) * (b as int), m as int);
        }
        b = ((b as u128 * b as u128) % m as u128) as u64;
        proof {
            let half = (k / 2) as nat;
            if k % 2 == 1 {
                assert(en - 1 == 2 * half);
            } else {
                assert(en == 2 * half);
            }
            lemma_pow_mod_square(bv, half, mm);
        }
        k = k / 2;
    }
    proof {
        let mm = m as nat;
        assert(pow_mod_spec(b as nat, 0, mm) == 1nat % mm);
        vstd::arithmetic::div_mod::lemma_mul_mod_noop_right(res as int, 1int, m as int);
        lemma_small_mod(res as nat, mm);
    }
    res
}


/// Return every divisor of `n`, in increasing order.
pub fn divisors(n: u64) -> (r: Vec<u64>)
    requires
        n >= 1,
    ensures
        forall|t: int, u: int| 0 <= t < u < r@.len() ==> r@[t] < r@[u],
        forall|t: int|
            0 <= t < r@.len() ==> 1 <= #[trigger] r@[t] <= n && n % r@[t] == 0,
        forall|d: u64| 1 <= d <= n && n % d == 0 ==> r@.contains(d),
{
    let mut pre: Vec<u64> = Vec::new();
    let mut suf: Vec<u64> = Vec::new();
    let mut i: u64 = 1;
    proof {
        assert forall|e: u64| 1 <= e <= n && n % e == 0 && e * e > n && n / e < 1 implies
            suf@.contains(e) by {
            vstd::arithmetic::div_mod::lemma_div_non_zero(n as int, e as int);
        }
    }
    while i <= n / i
        invariant
            1 <= i,
            n >= 1,
            forall|t: int, u: int| 0 <= t < u < pre@.len() ==> pre@[t] < pre@[u],
            forall|t: int|
                0 <= t < pre@.len() ==> 1 <= #[trigger] pre@[t] < i && n % pre@[t] == 0
                    && pre@[t] * pre@[t] <= n,
            forall|d: u64| 1 <= d < i && n % d == 0 && d * d <= n ==> pre@.contains(d),
            forall|t: int, u: int| 0 <= t < u < suf@.len() ==> suf@[t] > suf@[u],
            forall|t: int|
                0 <= t < suf@.len() ==> 1 <= #[trigger] suf@[t] <= n && n % suf@[t] == 0
                    && suf@[t] * suf@[t] > n && n / suf@[t] < i,
            forall|e: u64|
                1 <= e <= n && n % e == 0 && e * e > n && n / e < i ==> suf@.contains(e),
        decreases n + 1 - i,
    {
        let ghost pre0 = pre@;
        let ghost suf0 = suf@;
        if n % i == 0 {
            proof {
                lemma_fundamental_div_mod(n as int, i as int);
                assert((i as int) * (i as int) <= (i as int) * (n as int / i as int))
                    by (nonlinear_arith)
                    requires
                        i as int <= n as int / i as int,
                        i >= 1,
                ;
            }
            let ghost prem = pre@;
            pre.push(i);
            proof {
                assert forall|d: u64| 1 <= d < i + 1 && n % d == 0 && d * d <= n implies
                    pre@.contains(d) by {
                    if d < i {
                        assert(pre0.contains(d));
                        let u = choose|u: int| 0 <= u < pre0.len() && pre0[u] == d;
                        assert(pre@[u] == d);
                    } else {
                        assert(pre@[pre@.len() - 1] == i);
                    }
                }
            }
            let q = n / i;
            if i != q {
                proof {
                    // the paired divisor q = n / i is a divisor beyond the
                    // square root
                    assert(n as int % q as int == 0 && n as int / q as int == i as int) by {
                        lemma_fundamental_div_mod(n as int, i as int);
                        assert((i as int) * (q as int) == (q as int) * (i as int))
                            by (nonlinear_arith);
                        vstd::arithmetic::div_mod::lemma_fundamental_div_mod_converse(
                            n as int,
                            q as int,
                            i as int,
                            0,
                        );
                    }
                    assert((q as int) * (q as int) > n) by (nonlinear_arith)
                        requires
                            (i as int) * (q as int) == n,
                            i < q,
                            q >= 1,
                    ;
                }
                let ghost sufm = suf@;
                suf.push(q);
                proof {
                    assert forall|t: int, u: int|
                        0 <= t < u < suf@.len() implies suf@[t] > suf@[u] by {
                        if u == suf@.len() - 1 {
                            let et = suf@[t];
                            let dt = n as int / et as int;
                            lemma_fundamental_div_mod(n as int, et as int);
                            assert(et as int > q as int) by (nonlinear_arith)
                                requires
                                    (et as int) * dt == n,
                                    (i as int) * (q as int) == n,
                                    dt < i as int,
                                    et >= 1,
                                    q >= 1,
                                    i >= 1,
                                    dt >= 0,
                            ;
                        }
                    }
                    assert forall|e: u64|
                        1 <= e <= n && n % e == 0 && e * e > n && n / e < i + 1 implies
                        suf@.contains(e) by {
                        if n / e < i {
                            assert(suf0.contains(e));
                            let t = choose|t: int| 0 <= t < suf0.len() && suf0[t] == e;
                            assert(suf@[t] == e);
                        } else {
                            assert(n / e == i);
                            lemma_fundamental_div_mod(n as int, e as int);
                            assert(e == q) by {
                                lemma_fundamental_div_mod(n as int, i as int);
                                assert((e as int) * (i as int) == (i as int) * (e as int))
                                    by (nonlinear_arith);
                                vstd::arithmetic::div_mod::lemma_fundamental_div_mod_converse(
                                    n as int,
                                    i as int,
                                    e as int,
                                    0,
                                );
                            }
                            assert(suf@[suf@.len() - 1] == e);
                        }
                    }
                }
            } else {
                proof {
                    assert forall|e: u64|
                        1 <= e <= n && n % e == 0 && e * e > n && n / e < i + 1 implies
                        suf@.contains(e) by {
                        if n / e < i {
                            assert(suf0.contains(e));
                        } else {
                            // n / e == i == n / i would force e == i, but then
                            // e * e == n, contradicting e * e > n
                            assert(n / e == i);
                            lemma_fundamental_div_mod(n as int, e as int);
                            lemma_fundamental_div_mod(n as int, i as int);
                            assert((e as int) * (i as int) == (i as int) * (e as int))
                                by (nonlinear_arith);
                            vstd::arithmetic::div_mod::lemma_fundamental_div_mod_converse(
                                n as int,
                                i as int,
                                e as int,
                                0,
                            );
                            assert(e == n / i);
                            assert((i as int) * (i as int) == n);
                            assert(false);
                        }
                    }
                }
            }
        } else {
            proof {
                assert forall|e: u64|
                    1 <= e <= n && n % e == 0 && e * e > n && n / e < i + 1 implies
                    suf@.contains(e) by {
                    if n / e < i {
                        assert(suf0.contains(e));
                    } else {
                        assert(n / e == i);
                        lemma_fundamental_div_mod(n as int, e as int);
                        assert(n as int % i as int == 0) by {
                            assert((e as int) * (i as int) == (i as int) * (e as int))
                                by (nonlinear_arith);
                            vstd::arithmetic::div_mod::lemma_fundamental_div_mod_converse(
                                n as int,
                                i as int,
                                e as int,
                                0,
                            );
                        }
                        assert(false);
                    }
                }
            }
        }
        proof {
            lemma_fundamental_div_mod(n as int, i as int);
            assert((i as int) * (i as int) <= n) by (nonlinear_arith)
                requires
                    i as int <= n as int / i as int,
                    n as int == (i as int) * (n as int / i as int) + n as int % i as int,
                    (n as int % i as int) >= 0,
                    i >= 1,
            ;
            assert(i as int <= 0x1_0000_0000int) by (nonlinear_arith)
                requires
                    (i as int) * (i as int) <= 0xFFFF_FFFF_FFFF_FFFFint,
            ;
        }
        i = i + 1;
    }
    // every divisor up to the square root is in `pre`, the rest in `suf`
    let ghost ifin = i;
    let mut t: usize = 0;
    let n_suf = suf.len();
    let ghost preb = pre@;
    while t < n_suf
        invariant
            t <= n_suf,
            n_suf == suf@.len(),
            pre@.len() == preb.len() + t,
            forall|u: int| 0 <= u < preb.len() ==> #[trigger] pre@[u] == preb[u],
            forall|u: int|
                0 <= u < t ==> #[trigger] pre@[preb.len() + u] == suf@[n_suf - 1 - u],
        decreases n_suf - t,
    {
        pre.push(suf[n_suf - 1 - t]);
        t = t + 1;
    }
    proof {
        lemma_fundamental_div_mod(n as int, ifin as int);
        assert(ifin as int * ifin as int > n) by (nonlinear_arith)
            requires
                ifin as int > n as int / ifin as int,
                ifin >= 1,
                n as int == ifin as int * (n as int / ifin as int) + n as int % ifin as int,
                (n as int % ifin as int) < ifin,
                (n as int % ifin as int) >= 0,
        ;
        // sortedness across the concatenation: roots below, co-divisors above
        assert forall|a: int, b: int| 0 <= a < b < pre@.len() implies pre@[a] < pre@[b] by {
            let pl = preb.len() as int;
            if a < pl && b >= pl {
                let x = pre@[a];
                let ub = b - pl;
                assert(pre@[preb.len() + ub] == suf@[n_suf - 1 - ub]);
                let y = pre@[b];
                assert(y == suf@[n_suf - 1 - (b - pl)]);
                assert((x as int) * (x as int) <= n);
                assert((y as int) * (y as int) > n);
                assert(x < y) by (nonlinear_arith)
                    requires
                        (x as int) * (x as int) <= n,
                        (y as int) * (y as int) > n,
                        x >= 0,
                        y >= 0,
                ;
            } else if a >= pl {
                let ua = a - pl;
                let ub = b - pl;
                assert(pre@[preb.len() + ua] == suf@[n_suf - 1 - ua]);
                assert(pre@[preb.len() + ub] == suf@[n_suf - 1 - ub]);
            }
        }
        // every entry is a divisor in range
        assert forall|t: int|
            0 <= t < pre@.len() implies 1 <= #[trigger] pre@[t] <= n && n % pre@[t] == 0 by {
            let pl = preb.len() as int;
            if t < pl {
                let d = pre@[t];
                assert(d <= n) by (nonlinear_arith)
                    requires
                        (d as int) * (d as int) <= n,
                        d >= 1,
                ;
            } else {
                let u = t - pl;
                assert(pre@[preb.len() + u] == suf@[n_suf - 1 - u]);
            }
        }
        // completeness
        assert forall|d: u64| 1 <= d <= n && n % d == 0 implies pre@.contains(d) by {
            lemma_fundamental_div_mod(n as int, d as int);
            let q = n as int / d as int;
            if d as int * d as int <= n {
                assert(d < ifin) by (nonlinear_arith)
                    requires
                        d as int * d as int <= n,
                        ifin as int * ifin as int > n,
                        d >= 0,
                        ifin >= 1,
                ;
                assert(preb.contains(d));
                let u = choose|u: int| 0 <= u < preb.len() && preb[u] == d;
                assert(pre@[u] == d);
            } else {
                assert(d as int * q == n && q >= 1) by (nonlinear_arith)
                    requires
                        n as int == d as int * q,
                        n >= 1,
                        d >= 1,
                ;
                assert(q < d) by (nonlinear_arith)
                    requires
                        d as int * q == n,
                        d as int * d as int > n,
                        d >= 1,
                        q >= 1,
                ;
                assert(q * q < n) by (nonlinear_arith)
                    requires
                        d as int * q == n,
                        q < d as int,
                        q >= 1,
                ;
                assert(n / d < ifin) by (nonlinear_arith)
                    requires
                        n as int / d as int == q,
                        q * q < n,
                        ifin as int * ifin as int > n,
                        q >= 0,
                        ifin >= 1,
                ;
                assert(suf@.contains(d));
                let u = choose|u: int| 0 <= u < suf@.len() && suf@[u] == d;
                let w = n_suf - 1 - u;
                assert(pre@[preb.len() + w] == suf@[n_suf - 1 - w]);
                assert(pre@[preb.len() + w] == d);
            }
        }
        assert(ifin as int * ifin as int > n) by (nonlinear_arith)
            requires
                ifin as int > n as int / ifin as int,
                ifin >= 1,
                n as int == ifin as int * (n as int / ifin as int) + n as int % ifin as int,
                (n as int % ifin as int) < ifin,
                n as int % ifin as int >= 0,
        ;
    }
    pre
}

} // verus!

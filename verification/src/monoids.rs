//! Concrete monoids and actions over machine integers.
//!
//! Arithmetic here wraps modulo `2^64`, which keeps the operators total
//! (so they need no preconditions) while still satisfying the algebraic
//! laws the containers demand.

use vstd::prelude::*;
use vstd::arithmetic::div_mod::{
    lemma_add_mod_noop, lemma_mod_bound, lemma_mul_mod_noop_right, lemma_small_mod,
};
use vstd::arithmetic::mul::lemma_mul_is_distributive_add;

use crate::algebra::{ComMonoid, Group, Monoid};
use crate::segtree::dual::MonoidAction;
use crate::segtree::lazy::Action;

verus! {

/// `2^64`, the modulus of wrapping 64-bit arithmetic.
pub open spec fn word() -> int {
    0x1_0000_0000_0000_0000
}

/// Addition modulo `2^64`.
pub open spec fn wadd(a: u64, b: u64) -> u64 {
    (((a + b) % word()) as u64)
}

/// Multiplication modulo `2^64`.
pub open spec fn wmul(a: u64, b: u64) -> u64 {
    (((a * b) % word()) as u64)
}

/// Wrapping addition agrees with `wadd`.
pub fn wrap_add(a: u64, b: u64) -> (r: u64)
    ensures
        r == wadd(a, b),
{
    proof {
        if a + b < word() {
            lemma_small_mod((a + b) as nat, word() as nat);
        } else {
            vstd::arithmetic::div_mod::lemma_mod_sub_multiples_vanish((a + b) as int, word());
            lemma_small_mod((a + b - word()) as nat, word() as nat);
        }
    }
    if b <= u64::MAX - a {
        a + b
    } else {
        b - (u64::MAX - a) - 1
    }
}

/// Wrapping multiplication agrees with `wmul`.
pub fn wrap_mul(a: u64, b: u64) -> (r: u64)
    ensures
        r == wmul(a, b),
{
    proof {
        lemma_mod_bound((a * b) as int, word());
        assert(a as u128 * b as u128 == (a * b) as u128) by (nonlinear_arith);
    }
    ((a as u128 * b as u128) % 0x1_0000_0000_0000_0000u128) as u64
}

/// Associativity of addition modulo `2^64`.
pub proof fn lemma_wadd_assoc(a: u64, b: u64, c: u64)
    ensures
        wadd(wadd(a, b), c) == wadd(a, wadd(b, c)),
{
    lemma_add_mod_noop((a + b) as int, c as int, word());
    lemma_add_mod_noop(a as int, (b + c) as int, word());
    lemma_small_mod(c as nat, word() as nat);
    lemma_small_mod(a as nat, word() as nat);
}

/// Zero is neutral for addition modulo `2^64`.
pub proof fn lemma_wadd_zero(a: u64)
    ensures
        wadd(0, a) == a,
        wadd(a, 0) == a,
{
    lemma_small_mod(a as nat, word() as nat);
}

/// Addition modulo `2^64` commutes.
pub proof fn lemma_wadd_comm(a: u64, b: u64)
    ensures
        wadd(a, b) == wadd(b, a),
{
}

/// The sum monoid over `u64`, wrapping on overflow.
impl Monoid for u64 {
    open spec fn spec_e() -> u64 {
        0
    }

    open spec fn spec_op(a: u64, b: u64) -> u64 {
        wadd(a, b)
    }

    proof fn lemma_assoc(a: u64, b: u64, c: u64) {
        lemma_wadd_assoc(a, b, c);
    }

    proof fn lemma_identity(a: u64) {
        lemma_wadd_zero(a);
    }

    fn e() -> (r: u64) {
        0
    }

    fn op(lhs: &u64, rhs: &u64) -> (r: u64) {
        wrap_add(*lhs, *rhs)
    }
}

/// The wrapped sum commutes.
impl ComMonoid for u64 {
    proof fn lemma_comm(a: u64, b: u64) {
        lemma_wadd_comm(a, b);
    }
}

/// The additive inverse modulo `2^64`.
pub open spec fn wneg(a: u64) -> u64 {
    (((word() - a) % word()) as u64)
}

/// Wrapped addition of a value and its negation cancels.
pub proof fn lemma_wneg_cancels(a: u64)
    ensures
        wadd(wneg(a), a) == 0,
        wadd(a, wneg(a)) == 0,
{
    lemma_add_mod_noop((word() - a) as int, a as int, word());
    lemma_add_mod_noop(a as int, (word() - a) as int, word());
    lemma_small_mod(a as nat, word() as nat);
    vstd::arithmetic::div_mod::lemma_mod_self_0(word());
    if a == 0 {
        lemma_small_mod(0, word() as nat);
    } else {
        lemma_small_mod((word() - a) as nat, word() as nat);
    }
}

/// The wrapped sum with wrapped negation forms a group.
impl Group for u64 {
    open spec fn spec_inv(a: u64) -> u64 {
        wneg(a)
    }

    proof fn lemma_inv(a: u64) {
        lemma_wneg_cancels(a);
    }

    fn inv(val: &u64) -> (r: u64) {
        proof {
            if *val != 0 {
                lemma_small_mod((word() - *val) as nat, word() as nat);
            } else {
                vstd::arithmetic::div_mod::lemma_mod_self_0(word());
            }
        }
        if *val == 0 {
            0
        } else {
            u64::MAX - *val + 1
        }
    }

    fn eq_val(lhs: &u64, rhs: &u64) -> (r: bool) {
        *lhs == *rhs
    }
}

/// A sum paired with the number of summands it aggregates.
///
/// Pairing the count with the sum is what lets a size-dependent action
/// such as "add a constant to every element" distribute over the monoid
/// operator without being told the subtree size.
#[derive(Clone, Copy, PartialEq, Eq, Debug)]
pub struct SumCnt {
    pub sum: u64,
    pub cnt: u64,
}

impl SumCnt {
    /// A leaf aggregate: one value, count one.
    pub fn unit(x: u64) -> (r: SumCnt)
        ensures
            r == (SumCnt { sum: x, cnt: 1 }),
    {
        SumCnt { sum: x, cnt: 1 }
    }
}

impl Monoid for SumCnt {
    open spec fn spec_e() -> SumCnt {
        SumCnt { sum: 0, cnt: 0 }
    }

    open spec fn spec_op(a: SumCnt, b: SumCnt) -> SumCnt {
        SumCnt { sum: wadd(a.sum, b.sum), cnt: wadd(a.cnt, b.cnt) }
    }

    proof fn lemma_assoc(a: SumCnt, b: SumCnt, c: SumCnt) {
        lemma_wadd_assoc(a.sum, b.sum, c.sum);
        lemma_wadd_assoc(a.cnt, b.cnt, c.cnt);
    }

    proof fn lemma_identity(a: SumCnt) {
        lemma_wadd_zero(a.sum);
        lemma_wadd_zero(a.cnt);
    }

    fn e() -> (r: SumCnt) {
        SumCnt { sum: 0, cnt: 0 }
    }

    fn op(lhs: &SumCnt, rhs: &SumCnt) -> (r: SumCnt) {
        SumCnt { sum: wrap_add(lhs.sum, rhs.sum), cnt: wrap_add(lhs.cnt, rhs.cnt) }
    }
}

/// The pairwise wrapped sum commutes.
impl ComMonoid for SumCnt {
    proof fn lemma_comm(a: SumCnt, b: SumCnt) {
        lemma_wadd_comm(a.sum, b.sum);
        lemma_wadd_comm(a.cnt, b.cnt);
    }
}

/// The "add a constant" action; composing two of them adds the constants.
#[derive(Clone, Copy, PartialEq, Eq, Debug)]
pub struct AddC {
    pub c: u64,
}

impl AddC {
    /// The action that adds `c` to a value.
    pub fn new(c: u64) -> (r: AddC)
        ensures
            r == (AddC { c }),
    {
        AddC { c }
    }
}

impl Monoid for AddC {
    open spec fn spec_e() -> AddC {
        AddC { c: 0 }
    }

    open spec fn spec_op(a: AddC, b: AddC) -> AddC {
        AddC { c: wadd(a.c, b.c) }
    }

    proof fn lemma_assoc(a: AddC, b: AddC, c: AddC) {
        lemma_wadd_assoc(a.c, b.c, c.c);
    }

    proof fn lemma_identity(a: AddC) {
        lemma_wadd_zero(a.c);
    }

    fn e() -> (r: AddC) {
        AddC { c: 0 }
    }

    fn op(lhs: &AddC, rhs: &AddC) -> (r: AddC) {
        AddC { c: wrap_add(lhs.c, rhs.c) }
    }
}

/// Multiplying a wrapped sum distributes, modulo `2^64`.
pub proof fn lemma_wmul_distributes(f: u64, a: u64, b: u64)
    ensures
        wmul(f, wadd(a, b)) == wadd(wmul(f, a), wmul(f, b)),
{
    lemma_mul_mod_noop_right(f as int, (a + b) as int, word());
    lemma_mul_is_distributive_add(f as int, a as int, b as int);
    lemma_add_mod_noop((f * a) as int, (f * b) as int, word());
}

/// Multiplying by a wrapped factor agrees with multiplying then wrapping.
pub proof fn lemma_wmul_left_wrap(a: u64, b: u64, c: u64)
    ensures
        wmul(wadd(a, b), c) == wadd(wmul(a, c), wmul(b, c)),
{
    vstd::arithmetic::div_mod::lemma_mul_mod_noop_left((a + b) as int, c as int, word());
    lemma_mul_is_distributive_add(c as int, a as int, b as int);
    assert((a + b) * c == a * c + b * c) by (nonlinear_arith);
    lemma_add_mod_noop((a * c) as int, (b * c) as int, word());
}

/// Multiplication by zero, modulo `2^64`.
pub proof fn lemma_wmul_zero(a: u64)
    ensures
        wmul(0, a) == 0,
        wmul(a, 0) == 0,
{
    lemma_small_mod(0, word() as nat);
}


/// Adding a constant acts on plain wrapped sums.
impl MonoidAction for AddC {
    type X = u64;

    open spec fn spec_apply(x: u64, f: AddC) -> u64 {
        wadd(x, f.c)
    }

    proof fn lemma_apply_identity(x: u64) {
        lemma_wadd_zero(x);
    }

    proof fn lemma_apply_compose(x: u64, f: AddC, g: AddC) {
        lemma_wadd_assoc(x, f.c, g.c);
    }

    fn apply(x: &u64, f: &AddC) -> (r: u64) {
        wrap_add(*x, f.c)
    }
}

/// Adding a constant to every element of an aggregated range: the sum
/// grows by the constant times the element count.
impl Action<AddC> for SumCnt {
    open spec fn spec_apply(v: SumCnt, f: AddC) -> SumCnt {
        SumCnt { sum: wadd(v.sum, wmul(f.c, v.cnt)), cnt: v.cnt }
    }

    proof fn lemma_apply_identity(v: SumCnt) {
        lemma_wmul_zero(v.cnt);
        lemma_wadd_zero(v.sum);
    }

    proof fn lemma_apply_compose(v: SumCnt, f: AddC, g: AddC) {
        lemma_wadd_assoc(v.sum, wmul(f.c, v.cnt), wmul(g.c, v.cnt));
        lemma_wmul_left_wrap(g.c, f.c, v.cnt);
        lemma_wadd_comm(wmul(f.c, v.cnt), wmul(g.c, v.cnt));
    }

    proof fn lemma_apply_distributes(x: SumCnt, y: SumCnt, f: AddC) {
        lemma_wmul_distributes(f.c, x.cnt, y.cnt);
        // both sides equal x.sum + y.sum + f*x.cnt + f*y.cnt, wrapped
        lemma_wadd_assoc(wadd(x.sum, y.sum), wmul(f.c, x.cnt), wmul(f.c, y.cnt));
        lemma_wadd_assoc(x.sum, y.sum, wmul(f.c, x.cnt));
        lemma_wadd_comm(y.sum, wmul(f.c, x.cnt));
        lemma_wadd_assoc(x.sum, wmul(f.c, x.cnt), y.sum);
        lemma_wadd_assoc(wadd(x.sum, wmul(f.c, x.cnt)), y.sum, wmul(f.c, y.cnt));
    }

    fn apply(val: &SumCnt, f: &AddC) -> (r: SumCnt) {
        SumCnt { sum: wrap_add(val.sum, wrap_mul(f.c, val.cnt)), cnt: val.cnt }
    }
}
} // verus!

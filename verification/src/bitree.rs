//! Binary indexed tree (Fenwick tree) over a commutative monoid:
//! point updates and prefix folds in logarithmic time.

use vstd::prelude::*;
use vstd::arithmetic::power2::pow2;

use crate::algebra::{ComMonoid, Monoid};
use crate::folds::{lemma_fold_concat, lemma_fold_empty, seq_fold};

verus! {

/// The lowest set bit of `i` (zero for zero).
pub open spec fn lsb(i: nat) -> nat
    decreases i,
{
    if i == 0 {
        0
    } else if i % 2 == 1 {
        1
    } else {
        2 * lsb(i / 2)
    }
}

/// Basic shape of the lowest set bit: it is positive, divides its
/// argument, and leaves an odd quotient.
pub proof fn lemma_lsb_shape(i: nat)
    requires
        i >= 1,
    ensures
        1 <= lsb(i) <= i,
        i % lsb(i) == 0,
        (i / lsb(i)) % 2 == 1,
    decreases i,
{
    if i % 2 == 1 {
        vstd::arithmetic::div_mod::lemma_mod_multiples_basic(i as int, 1int);
        assert(i as int % 1int == 0) by {
            vstd::arithmetic::div_mod::lemma_mod_self_0(1int);
            vstd::arithmetic::div_mod::lemma_small_mod(0nat, 1nat);
            assert((i as int) * 1int == i as int) by (nonlinear_arith);
            vstd::arithmetic::div_mod::lemma_mod_multiples_basic(i as int, 1int);
        }
        assert(i / 1 == i) by {
            vstd::arithmetic::div_mod::lemma_div_by_multiple(i as int, 1int);
            assert((i as int) * 1int == i as int) by (nonlinear_arith);
        }
    } else {
        lemma_lsb_shape(i / 2);
        let l = lsb(i / 2);
        // i == 2 * (i / 2), so i % (2l) == 2 * ((i/2) % l) and
        // i / (2l) == (i/2) / l
        vstd::arithmetic::div_mod::lemma_mod_breakdown(i as int, 2int, l as int);
        vstd::arithmetic::div_mod::lemma_div_denominator(i as int, 2int, l as int);
        assert(2 * l <= 2 * (i / 2)) by (nonlinear_arith)
            requires
                l <= i / 2,
        ;
    }
}

/// Scaling by a power of two scales the lowest set bit.
pub proof fn lemma_lsb_scaled(e: nat, m: nat)
    requires
        m >= 1,
    ensures
        lsb(pow2(e) * m) == pow2(e) * lsb(m),
    decreases e,
{
    vstd::arithmetic::power2::lemma_pow2_pos(e);
    if e == 0 {
        assert(pow2(0) == 1) by {
            vstd::arithmetic::power2::lemma2_to64();
        }
        assert(pow2(0) * m == m && pow2(0) * lsb(m) == lsb(m)) by (nonlinear_arith)
            requires
                pow2(0) == 1,
        ;
    } else {
        let x = pow2(e) * m;
        vstd::arithmetic::power2::lemma_pow2_unfold(e);
        vstd::arithmetic::power2::lemma_pow2_pos((e - 1) as nat);
        assert(x == 2 * (pow2((e - 1) as nat) * m)) by (nonlinear_arith)
            requires
                x == pow2(e) * m,
                pow2(e) == 2 * pow2((e - 1) as nat),
        ;
        let y = pow2((e - 1) as nat) * m;
        assert(y >= 1) by (nonlinear_arith)
            requires
                y == pow2((e - 1) as nat) * m,
                pow2((e - 1) as nat) >= 1,
                m >= 1,
        ;
        assert(x % 2 == 0 && x / 2 == y) by {
            vstd::arithmetic::div_mod::lemma_mod_multiples_basic(y as int, 2int);
            vstd::arithmetic::div_mod::lemma_div_by_multiple(y as int, 2int);
            assert((y as int) * 2 == 2 * (y as int)) by (nonlinear_arith);
        }
        lemma_lsb_scaled((e - 1) as nat, m);
        assert(2 * (pow2((e - 1) as nat) * lsb(m)) == pow2(e) * lsb(m)) by (nonlinear_arith)
            requires
                pow2(e) == 2 * pow2((e - 1) as nat),
        ;
    }
}

/// The lowest set bit is a power of two.
pub proof fn lemma_lsb_pow(i: nat) -> (e: nat)
    requires
        i >= 1,
    ensures
        lsb(i) == pow2(e),
    decreases i,
{
    if i % 2 == 1 {
        assert(pow2(0) == 1) by {
            vstd::arithmetic::power2::lemma2_to64();
        }
        0
    } else {
        let e0 = lemma_lsb_pow(i / 2);
        vstd::arithmetic::power2::lemma_pow2_unfold(e0 + 1);
        e0 + 1
    }
}

/// Adding a value below the lowest set bit leaves the addend's own
/// lowest set bit.
pub proof fn lemma_lsb_add_small(j: nat, t: nat)
    requires
        j >= 1,
        t >= 1,
        t < lsb(j),
    ensures
        lsb(j + t) == lsb(t),
{
    let e = lemma_lsb_pow(j);
    let f = lemma_lsb_pow(t);
    lemma_lsb_shape(j);
    lemma_lsb_shape(t);
    vstd::arithmetic::power2::lemma_pow2_pos(e);
    vstd::arithmetic::power2::lemma_pow2_pos(f);
    // f < e since lsb(t) <= t < lsb(j)
    assert(f < e) by {
        if f >= e {
            crate::treemath::lemma_pow2_le(e, f);
        }
    }
    let q = j / pow2(e);
    let w = t / pow2(f);
    vstd::arithmetic::div_mod::lemma_fundamental_div_mod(j as int, pow2(e) as int);
    vstd::arithmetic::div_mod::lemma_fundamental_div_mod(t as int, pow2(f) as int);
    // j + t == 2^f * (2^(e-f) * q + w), and the factor is odd
    vstd::arithmetic::power2::lemma_pow2_adds(f, (e - f) as nat);
    vstd::arithmetic::power2::lemma_pow2_pos((e - f) as nat);
    assert(j + t == pow2(f) * (pow2((e - f) as nat) * q + w)) by (nonlinear_arith)
        requires
            j as int == pow2(e) as int * q + 0,
            t as int == pow2(f) as int * w + 0,
            pow2(e) == pow2(f) * pow2((e - f) as nat),
    ;
    let inner = pow2((e - f) as nat) * q + w;
    assert(inner % 2 == 1) by {
        assert(pow2((e - f) as nat) * q % 2 == 0) by {
            vstd::arithmetic::power2::lemma_pow2_unfold((e - f) as nat);
            assert(pow2((e - f) as nat) * q == 2 * (pow2((e - f - 1) as nat) * q))
                by (nonlinear_arith)
                requires
                    pow2((e - f) as nat) == 2 * pow2((e - f - 1) as nat),
            ;
            vstd::arithmetic::div_mod::lemma_mod_multiples_basic(
                (pow2((e - f - 1) as nat) * q) as int,
                2int,
            );
            assert((pow2((e - f - 1) as nat) * q) as int * 2 == 2 * (pow2((e - f - 1) as nat)
                * q) as int) by (nonlinear_arith);
        }
        vstd::arithmetic::div_mod::lemma_add_mod_noop(
            (pow2((e - f) as nat) * q) as int,
            w as int,
            2int,
        );
    }
    assert(w >= 1) by (nonlinear_arith)
        requires
            pow2(f) as int * w == t,
            t >= 1,
            pow2(f) >= 1,
            w >= 0,
    ;
    assert(q >= 0 && pow2((e - f) as nat) * q >= 0) by (nonlinear_arith)
        requires
            pow2(e) as int * q == j,
            j >= 1,
            pow2(e) >= 1,
            pow2((e - f) as nat) >= 1,
    ;
    assert(inner >= 1) by (nonlinear_arith)
        requires
            inner == pow2((e - f) as nat) * q + w,
            w >= 1,
            pow2((e - f) as nat) * q >= 0,
    ;
    lemma_lsb_scaled(f, inner);
    assert(lsb(inner) == 1);
    assert(pow2(f) * 1 == pow2(f)) by (nonlinear_arith);
}

/// Folding one updated element into a fold of the whole sequence.
pub proof fn lemma_fold_update<T: ComMonoid>(s: Seq<T>, t: int, x: T)
    requires
        0 <= t < s.len(),
    ensures
        seq_fold(s.update(t, T::spec_op(s[t], x))) == T::spec_op(seq_fold(s), x),
    decreases s.len(),
{
    let s2 = s.update(t, T::spec_op(s[t], x));
    if t == s.len() - 1 {
        assert(s2.drop_last() =~= s.drop_last());
        T::lemma_assoc(seq_fold(s.drop_last()), s[t], x);
    } else {
        assert(s2.drop_last() =~= s.drop_last().update(t, T::spec_op(s[t], x)));
        lemma_fold_update(s.drop_last(), t, x);
        // fold(s2) == op(op(fold(dl), x), last) == op(fold(s), x)
        T::lemma_assoc(seq_fold(s.drop_last()), x, s.last());
        T::lemma_comm(x, s.last());
        T::lemma_assoc(seq_fold(s.drop_last()), s.last(), x);
    }
}

/// Fenwick tree: point update and prefix fold over a commutative
/// monoid, in logarithmic time each.
pub struct BITree<T: ComMonoid> {
    n: usize,
    vals: Vec<T>,
    elems: Ghost<Seq<T>>,
}

/// The block of the sequence aggregated at slot `j`.
pub open spec fn block_of<T: ComMonoid>(elems: Seq<T>, j: int) -> Seq<T> {
    elems.subrange(j - lsb(j as nat), j)
}

impl<T: ComMonoid> View for BITree<T> {
    type V = Seq<T>;

    /// The abstract contents: the pushed elements, in order.
    closed spec fn view(&self) -> Seq<T> {
        self.elems@
    }
}

impl<T: ComMonoid> BITree<T> {
    /// Structural well-formedness: slot `j` holds the fold of its
    /// block.
    pub closed spec fn inv(&self) -> bool {
        &&& self.n == self.vals@.len()
        &&& 1 <= self.n
        &&& self.n <= usize::MAX / 2
        &&& self.elems@.len() == self.n - 1
        &&& forall|j: int|
            1 <= j < self.n ==> #[trigger] self.vals@[j] == seq_fold(block_of(self.elems@, j))
    }

    /// Create an empty tree.
    pub fn new() -> (r: Self)
        ensures
            r.inv(),
            r@ == Seq::<T>::empty(),
    {
        let mut vals: Vec<T> = Vec::new();
        vals.push(T::e());
        BITree { n: 1, vals, elems: Ghost(Seq::empty()) }
    }

    /// Append `x` as the next element.
    pub fn push(&mut self, x: T)
        requires
            old(self).inv(),
            old(self)@.len() + 2 <= usize::MAX / 2,
        ensures
            final(self).inv(),
            final(self)@ == old(self)@.push(x),
    {
        let p = self.n;
        proof {
            self.elems@ = self.elems@.push(x);
            lemma_lsb_shape(p as nat);
            assert forall|j: int|
                1 <= j < p implies #[trigger] self.vals@[j] == seq_fold(
                block_of(self.elems@, j),
            ) by {
                lemma_lsb_shape(j as nat);
                assert(block_of(self.elems@, j) =~= block_of(old(self).elems@, j));
            }
        }
        let lb = lowbit(p);
        let mut acc = x;
        let mut d: usize = 1;
        let mut ghost_e = Ghost(0nat);
        proof {
            assert(pow2(0) == 1) by {
                vstd::arithmetic::power2::lemma2_to64();
            }
            assert(self.elems@.subrange(p - 1, p as int) =~= seq![x]);
            crate::folds::lemma_fold_singleton(x);
        }
        while d < lb
            invariant
                self.n == p,
                self.vals@.len() == p,
                forall|j: int|
                    1 <= j < p ==> #[trigger] self.vals@[j] == seq_fold(
                        block_of(self.elems@, j),
                    ),
                1 <= p < usize::MAX,
                self.elems@.len() == p,
                self.elems@ == old(self).elems@.push(x),
                lb == lsb(p as nat),
                d == pow2(ghost_e@),
                d <= lb,
                acc == seq_fold(self.elems@.subrange(p - d, p as int)),
            decreases lb - d,
        {
            proof {
                // the slot being absorbed covers exactly the d elements
                // before the current block
                let t = lemma_lsb_pow(p as nat);
                lemma_lsb_shape(p as nat);
                let q = p as nat / lsb(p as nat);
                vstd::arithmetic::div_mod::lemma_fundamental_div_mod(
                    p as int,
                    lsb(p as nat) as int,
                );
                assert(pow2(ghost_e@) < pow2(t));
                assert(ghost_e@ < t) by {
                    if ghost_e@ >= t {
                        crate::treemath::lemma_pow2_le(t, ghost_e@);
                    }
                }
                vstd::arithmetic::power2::lemma_pow2_adds(ghost_e@, (t - ghost_e@) as nat);
                vstd::arithmetic::power2::lemma_pow2_pos(ghost_e@);
                vstd::arithmetic::power2::lemma_pow2_pos((t - ghost_e@) as nat);
                let hi = pow2((t - ghost_e@) as nat);
                // p - d == 2^e * (2^(t-e) * q - 1), an odd multiple of 2^e
                assert(p as int - d == pow2(ghost_e@) as int * (hi as int * q - 1))
                    by (nonlinear_arith)
                    requires
                        p as int == pow2(t) as int * q + 0,
                        pow2(t) == pow2(ghost_e@) * hi,
                        d == pow2(ghost_e@),
                ;
                let inner = hi as int * q - 1;
                assert(hi * q >= 2 && hi as int * q - 1 >= 1) by (nonlinear_arith)
                    requires
                        hi >= 2,
                        q >= 1,
                ;
                assert(inner % 2 == 1) by {
                    vstd::arithmetic::power2::lemma_pow2_unfold((t - ghost_e@) as nat);
                    assert(hi as int * q == 2 * (pow2((t - ghost_e@ - 1) as nat) as int * q))
                        by (nonlinear_arith)
                        requires
                            hi == 2 * pow2((t - ghost_e@ - 1) as nat),
                    ;
                    vstd::arithmetic::div_mod::lemma_mod_multiples_basic(
                        pow2((t - ghost_e@ - 1) as nat) as int * q,
                        2int,
                    );
                    assert((pow2((t - ghost_e@ - 1) as nat) as int * q) * 2 == 2 * (pow2((t
                        - ghost_e@ - 1) as nat) as int * q)) by (nonlinear_arith);
                    vstd::arithmetic::div_mod::lemma_sub_mod_noop(
                        hi as int * q,
                        1int,
                        2int,
                    );
                }
                lemma_lsb_scaled(ghost_e@, inner as nat);
                assert(lsb(inner as nat) == 1);
                assert(lsb((p - d) as nat) == pow2(ghost_e@) * 1);
                assert(pow2(ghost_e@) * 1 == d) by (nonlinear_arith)
                    requires
                        d == pow2(ghost_e@),
                ;
                // p - d >= d, so indices stay in range
                assert(pow2(t) >= 2 * d) by {
                    vstd::arithmetic::power2::lemma_pow2_unfold((ghost_e@ + 1) as nat);
                    crate::treemath::lemma_pow2_le(ghost_e@ + 1, t);
                }
                assert(p as int - d >= d) by (nonlinear_arith)
                    requires
                        p as int == pow2(t) as int * q,
                        pow2(t) >= 2 * d,
                        q >= 1,
                        d >= 1,
                ;
                assert(self.vals@[p - d] == seq_fold(block_of(self.elems@, p - d)));
                assert(block_of(self.elems@, p - d) == self.elems@.subrange(
                    p - 2 * d,
                    p - d,
                ));
                lemma_fold_concat(
                    self.elems@.subrange(p - 2 * d, p - d),
                    self.elems@.subrange(p - d, p as int),
                );
                assert(self.elems@.subrange(p - 2 * d, p - d) + self.elems@.subrange(
                    p - d,
                    p as int,
                ) =~= self.elems@.subrange(p - 2 * d, p as int));
                T::lemma_comm(
                    seq_fold(self.elems@.subrange(p - d, p as int)),
                    seq_fold(self.elems@.subrange(p - 2 * d, p - d)),
                );
                vstd::arithmetic::power2::lemma_pow2_unfold(ghost_e@ + 1);
                ghost_e@ = ghost_e@ + 1;
            }
            let v = T::op(&acc, &self.vals[p - d]);
            acc = v;
            d = d * 2;
        }
        proof {
            assert(d == lb) by {
                let t = lemma_lsb_pow(p as nat);
                if d != lb {
                    assert(pow2(ghost_e@) > pow2(t));
                    crate::treemath::lemma_pow2_le(t, ghost_e@);
                    if ghost_e@ > t {
                        vstd::arithmetic::power2::lemma_pow2_strictly_increases(t, ghost_e@);
                    }
                }
            }
        }
        self.vals.push(acc);
        self.n = self.n + 1;
        proof {
            lemma_lsb_shape(p as nat);
            assert forall|j: int|
                1 <= j < self.n implies #[trigger] self.vals@[j] == seq_fold(
                block_of(self.elems@, j),
            ) by {}
        }
    }

    /// Combine `x` into the element at index `i`.
    pub fn op_at(&mut self, i: usize, x: &T)
        requires
            old(self).inv(),
            i < old(self)@.len(),
        ensures
            final(self).inv(),
            final(self)@ == old(self)@.update(i as int, T::spec_op(old(self)@[i as int], *x)),
    {
        let ghost olde = self.elems@;
        let ghost ii = i as int;
        proof {
            self.elems@ = olde.update(ii, T::spec_op(olde[ii], *x));
        }
        let mut j = i + 1;
        proof {
            lemma_lsb_shape((i + 1) as nat);
            assert forall|w: int|
                1 <= w < self.n && !(w - lsb(w as nat) <= ii < w) implies #[trigger] self.vals@[w]
                == seq_fold(block_of(self.elems@, w)) by {
                lemma_lsb_shape(w as nat);
                assert(block_of(self.elems@, w) =~= block_of(olde, w));
            }
        }
        while j < self.n
            invariant
                self.n == old(self).n,
                self.n == self.vals@.len(),
                1 <= self.n,
                self.elems@.len() == self.n - 1,
                olde.len() == self.n - 1,
                0 <= ii < olde.len(),
                self.elems@ == olde.update(ii, T::spec_op(olde[ii], *x)),
                ii < j,
                j >= 1,
                self.n <= usize::MAX / 2,
                j < self.n ==> j - lsb(j as nat) <= ii,
                forall|w: int|
                    1 <= w < self.n && !(w - lsb(w as nat) <= ii < w) ==> #[trigger] self.vals@[w]
                        == seq_fold(block_of(self.elems@, w)),
                forall|w: int|
                    1 <= w < self.n && w - lsb(w as nat) <= ii < w && w < j
                        ==> #[trigger] self.vals@[w] == seq_fold(block_of(self.elems@, w)),
                forall|w: int|
                    1 <= w < self.n && w - lsb(w as nat) <= ii < w && w >= j
                        ==> #[trigger] self.vals@[w] == seq_fold(block_of(olde, w)),
            decreases self.n + self.n - j,
        {
            let ghost jn = j as nat;
            proof {
                lemma_lsb_shape(jn);
                assert(0 <= j - lsb(jn) && j - lsb(jn) <= ii && ii < j && j
                    <= self.elems@.len());
                assert(olde.len() == self.elems@.len());
                // updating this slot folds x into its block
                assert(block_of(self.elems@, j as int) =~= block_of(olde, j as int).update(
                    ii - (j - lsb(jn)),
                    T::spec_op(olde[ii], *x),
                ));
                lemma_fold_update(block_of(olde, j as int), ii - (j - lsb(jn)), *x);
            }
            let v = T::op(&self.vals[j], x);
            self.vals[j] = v;
            let lbj = lowbit(j);
            proof {
                // slots strictly between j and j + lsb(j) miss index i,
                // and the next candidate block covers it
                assert forall|w: int|
                    j < w < j + lsb(jn) implies !((w - #[trigger] lsb(w as nat)) <= ii < w) by {
                    let t = (w - j) as nat;
                    lemma_lsb_add_small(jn, t);
                    lemma_lsb_shape(t);
                }
                if j + lsb(jn) < self.n {
                    let t = lemma_lsb_pow(jn);
                    lemma_lsb_shape(jn);
                    let q = jn / lsb(jn);
                    vstd::arithmetic::div_mod::lemma_fundamental_div_mod(
                        j as int,
                        lsb(jn) as int,
                    );
                    // j + lsb(j) == 2^t * (q + 1) with q odd, so its lsb is
                    // at least 2^(t+1)
                    let nxt = (j + lsb(jn)) as nat;
                    assert(nxt == pow2(t) * ((q + 1) as nat)) by (nonlinear_arith)
                        requires
                            nxt == j + lsb(jn),
                            j as int == pow2(t) as int * q + 0,
                            lsb(jn) == pow2(t),
                    ;
                    lemma_lsb_scaled(t, (q + 1) as nat);
                    assert((q + 1) % 2 == 0) by {
                        vstd::arithmetic::div_mod::lemma_add_mod_noop(q as int, 1int, 2int);
                    }
                    assert(lsb((q + 1) as nat) >= 2) by {
                        lemma_lsb_shape((q + 1) as nat);
                        if lsb((q + 1) as nat) == 1 {
                            assert((q + 1) as nat / 1 == (q + 1) as nat) by {
                                vstd::arithmetic::div_mod::lemma_div_by_multiple(
                                    (q + 1) as int,
                                    1int,
                                );
                                assert(((q + 1) as int) * 1int == (q + 1) as int)
                                    by (nonlinear_arith);
                            }
                        }
                    }
                    assert(lsb(nxt) >= 2 * pow2(t)) by (nonlinear_arith)
                        requires
                            lsb(nxt) == pow2(t) * lsb((q + 1) as nat),
                            lsb((q + 1) as nat) >= 2,
                            pow2(t) >= 0,
                    ;
                    assert(nxt - lsb(nxt) <= j - lsb(jn));
                }
            }
            j = j + lbj;
        }
    }

    /// Fold the first `i` elements, left to right.
    pub fn prefix_fold(&self, i: usize) -> (r: T)
        requires
            self.inv(),
            i <= self@.len(),
        ensures
            r == seq_fold(self@.subrange(0, i as int)),
    {
        let mut acc = T::e();
        let mut j = i;
        proof {
            lemma_fold_empty::<T>(self.elems@, i as int);
        }
        while j != 0
            invariant
                self.inv(),
                j <= i,
                i <= self.elems@.len(),
                acc == seq_fold(self.elems@.subrange(j as int, i as int)),
            decreases j,
        {
            proof {
                lemma_lsb_shape(j as nat);
                lemma_fold_concat(
                    self.elems@.subrange(j - lsb(j as nat), j as int),
                    self.elems@.subrange(j as int, i as int),
                );
                assert(self.elems@.subrange(j - lsb(j as nat), j as int) + self.elems@.subrange(
                    j as int,
                    i as int,
                ) =~= self.elems@.subrange(j - lsb(j as nat), i as int));
                T::lemma_comm(
                    seq_fold(self.elems@.subrange(j as int, i as int)),
                    seq_fold(self.elems@.subrange(j - lsb(j as nat), j as int)),
                );
                assert(self.vals@[j as int] == seq_fold(block_of(self.elems@, j as int)));
            }
            let v = T::op(&acc, &self.vals[j]);
            acc = v;
            let lbj = lowbit(j);
            j = j - lbj;
        }
        acc
    }
}

/// The lowest set bit, computed by stripping factors of two.
fn lowbit(x: usize) -> (r: usize)
    requires
        x >= 1,
    ensures
        r == lsb(x as nat),
{
    let mut v = x;
    let mut r: usize = 1;
    while v % 2 == 0
        invariant
            v >= 1,
            r >= 1,
            x as nat == r as nat * v as nat,
            lsb(x as nat) == r as nat * lsb(v as nat),
        decreases v,
    {
        proof {
            assert(x as nat == (2 * r as nat) * (v as nat / 2)) by (nonlinear_arith)
                requires
                    x as nat == r as nat * v as nat,
                    v as nat == 2 * (v as nat / 2),
            ;
            assert(r as nat * (2 * lsb(v as nat / 2)) == (2 * r as nat) * lsb(v as nat / 2))
                by (nonlinear_arith);
            assert(2 * r <= r * v) by (nonlinear_arith)
                requires
                    v >= 2,
                    r >= 1,
            ;
        }
        v = v / 2;
        r = r * 2;
    }
    proof {
        assert(r as nat * 1 == r as nat) by (nonlinear_arith);
    }
    r
}

} // verus!

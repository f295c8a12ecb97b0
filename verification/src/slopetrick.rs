//! Slope trick: maintain a convex piecewise-linear function under
//! addition of constant and hinge functions, tracking its minimum.
//!
//! The breakpoints with slope change on the left of the minimum live in
//! `l`; those on the right live in `r`, negated, so that the largest
//! stored value in either sequence is the breakpoint nearest the flat
//! segment.  Both sequences are kept sorted.

use vstd::prelude::*;

verus! {

/// A saturation bound on all breakpoints, standing in for infinity.
pub const INF: i64 = 0x1000_0000_0000_0000;

/// A bound on the tracked minimum under which one more update cannot
/// overflow.
pub const MIN_BOUND: i64 = 0x3000_0000_0000_0000;

/// Is the sequence sorted in non-decreasing order?
pub open spec fn sorted(s: Seq<i64>) -> bool {
    forall|i: int, j: int| 0 <= i < j < s.len() ==> s[i] <= s[j]
}

/// Are all elements within the saturation bound?
pub open spec fn bounded(s: Seq<i64>) -> bool {
    forall|i: int| 0 <= i < s.len() ==> -INF <= #[trigger] s[i] <= INF
}

/// Inserting anywhere inserts into the multiset.
pub(crate) proof fn lemma_insert_multiset(s: Seq<i64>, p: int, v: i64)
    requires
        0 <= p <= s.len(),
    ensures
        s.insert(p, v).to_multiset() =~= s.to_multiset().insert(v),
{
    broadcast use vstd::seq_lib::group_to_multiset_ensures;

    let s2 = s.insert(p, v);
    assert(s2.remove(p) =~= s);
    assert(s2[p] == v);
    assert(s2.to_multiset().contains(v));
    assert(s.to_multiset() =~= s2.to_multiset().remove(v));
    assert forall|x: i64|
        s2.to_multiset().count(x) == s.to_multiset().insert(v).count(x) by {}
}

/// Dropping the last element removes it from the multiset.
proof fn lemma_drop_last_multiset(s: Seq<i64>)
    requires
        s.len() >= 1,
    ensures
        s.drop_last().to_multiset() =~= s.to_multiset().remove(s.last()),
{
    broadcast use vstd::seq_lib::group_to_multiset_ensures;

    assert(s.remove(s.len() - 1) =~= s.drop_last());
}

/// Insert `x` into a sorted sequence, keeping it sorted.
fn insert_sorted(v: &mut Vec<i64>, x: i64)
    requires
        sorted(old(v)@),
        old(v)@.len() >= 1,
        old(v)@.len() < usize::MAX,
    ensures
        sorted(final(v)@),
        final(v)@.len() == old(v)@.len() + 1,
        final(v)@.to_multiset() == old(v)@.to_multiset().insert(x),
        final(v)@.last() == if old(v)@.last() >= x {
            old(v)@.last()
        } else {
            x
        },
        final(v)@[0] == if old(v)@[0] <= x {
            old(v)@[0]
        } else {
            x
        },
        bounded(old(v)@) && -INF <= x <= INF ==> bounded(final(v)@),
{
    let mut p = v.len();
    while p > 0 && v[p - 1] > x
        invariant
            p <= v@.len(),
            sorted(v@),
            v == old(v),
            forall|t: int| p <= t < v@.len() ==> #[trigger] v@[t] > x,
        decreases p,
    {
        p = p - 1;
    }
    let ghost pos = p as int;
    v.insert(p, x);
    proof {
        lemma_insert_multiset(old(v)@, pos, x);
        assert(v@.to_multiset() =~= old(v)@.to_multiset().insert(x));
        assert forall|i: int, j: int| 0 <= i < j < v@.len() implies v@[i] <= v@[j] by {}
        if old(v)@.last() >= x {
            assert(v@.last() == old(v)@.last());
        }
    }
}

/// Remove and return the largest element of a sorted sequence.
fn pop_max(v: &mut Vec<i64>) -> (r: i64)
    requires
        sorted(old(v)@),
        old(v)@.len() >= 1,
    ensures
        r == old(v)@.last(),
        sorted(final(v)@),
        final(v)@.len() == old(v)@.len() - 1,
        final(v)@.to_multiset() == old(v)@.to_multiset().remove(r),
        bounded(old(v)@) ==> bounded(final(v)@),
        final(v)@.len() >= 1 ==> final(v)@[0] == old(v)@[0] && final(v)@.last() <= r,
{
    let r = v.pop().unwrap();
    proof {
        lemma_drop_last_multiset(old(v)@);
        assert(v@.to_multiset() =~= old(v)@.to_multiset().remove(r));
    }
    r
}

/// A convex piecewise-linear function under slope-trick updates.
pub struct SlopeTrick {
    min: i64,
    l: Vec<i64>,
    r: Vec<i64>,
}

impl SlopeTrick {
    /// The current minimum value of the tracked function.
    pub closed spec fn spec_min(&self) -> i64 {
        self.min
    }

    /// The breakpoints left of the minimum, sorted.
    pub closed spec fn lefts(&self) -> Seq<i64> {
        self.l@
    }

    /// The negated breakpoints right of the minimum, sorted.
    pub closed spec fn rights(&self) -> Seq<i64> {
        self.r@
    }

    /// The largest left breakpoint.
    pub open spec fn lmax(&self) -> i64 {
        self.lefts().last()
    }

    /// The largest stored (negated) right breakpoint.
    pub open spec fn rtop(&self) -> i64 {
        self.rights().last()
    }

    /// Structural well-formedness: both breakpoint sequences are
    /// sorted and saturated, and the flat segment is non-empty.
    pub closed spec fn inv(&self) -> bool {
        &&& sorted(self.l@)
        &&& sorted(self.r@)
        &&& bounded(self.l@)
        &&& bounded(self.r@)
        &&& self.l@.len() >= 1
        &&& self.r@.len() >= 1
        &&& self.l@[0] == -INF
        &&& self.r@[0] == -INF
        &&& self.l@.last() + self.r@.last() <= 0
    }

    /// The function that is identically zero.
    pub fn new() -> (r: Self)
        ensures
            r.inv(),
            r.spec_min() == 0,
            r.lefts() == seq![(-INF) as i64],
            r.rights() == seq![(-INF) as i64],
    {
        let mut l: Vec<i64> = Vec::new();
        let mut rr: Vec<i64> = Vec::new();
        l.push(-INF);
        rr.push(-INF);
        let s = SlopeTrick { min: 0, l, r: rr };
        proof {
            assert(s.l@ =~= seq![(-INF) as i64]);
            assert(s.r@ =~= seq![(-INF) as i64]);
        }
        s
    }

    /// Return the minimum of the function.
    pub fn min(&self) -> (r: i64)
        ensures
            r == self.spec_min(),
    {
        self.min
    }

    /// Add the constant function `a`.
    pub fn add_const(&mut self, a: i64)
        requires
            old(self).inv(),
            i64::MIN <= old(self).spec_min() + a <= i64::MAX,
        ensures
            final(self).inv(),
            final(self).spec_min() == old(self).spec_min() + a,
            final(self).lefts() == old(self).lefts(),
            final(self).rights() == old(self).rights(),
    {
        self.min = self.min + a;
    }

    /// Add the hinge `max(x - a, 0)`, which rises to the right of `a`.
    pub fn add_plus(&mut self, a: i64)
        requires
            old(self).inv(),
            -INF <= a <= INF,
            -MIN_BOUND <= old(self).spec_min() <= MIN_BOUND,
            old(self).lefts().len() < usize::MAX,
            old(self).rights().len() < usize::MAX,
        ensures
            final(self).inv(),
            final(self).lefts().len() <= old(self).lefts().len() + 1,
            final(self).rights().len() <= old(self).rights().len() + 1,
            old(self).lmax() <= a ==> {
                &&& final(self).spec_min() == old(self).spec_min()
                &&& final(self).lefts() == old(self).lefts()
                &&& final(self).rights().to_multiset() == old(self).rights().to_multiset().insert(
                    (-a) as i64,
                )
                &&& final(self).rtop() == (if old(self).rtop() >= -a {
                    old(self).rtop()
                } else {
                    (-a) as i64
                })
            },
            old(self).lmax() > a ==> {
                &&& final(self).spec_min() == old(self).spec_min() + (old(self).lmax() - a)
                &&& final(self).lefts().to_multiset() == old(self).lefts().to_multiset().insert(
                    a,
                ).remove(old(self).lmax())
                &&& final(self).rights().to_multiset() == old(self).rights().to_multiset().insert(
                    (-old(self).lmax()) as i64,
                )
                &&& final(self).rtop() == (if old(self).rtop() >= -old(self).lmax() {
                    old(self).rtop()
                } else {
                    (-old(self).lmax()) as i64
                })
            },
    {
        let m0 = self.l[self.l.len() - 1];
        if m0 <= a {
            insert_sorted(&mut self.r, -a);
        } else {
            let _dropped = pop_max(&mut self.l);
            insert_sorted(&mut self.l, a);
            self.min = self.min + (m0 - a);
            insert_sorted(&mut self.r, -m0);
            proof {
                broadcast use vstd::seq_lib::group_to_multiset_ensures;

                assert(self.l@.to_multiset() == old(self).l@.to_multiset().remove(m0).insert(a));
                assert(old(self).l@.to_multiset().remove(m0).insert(a) =~= old(
                    self,
                ).l@.to_multiset().insert(a).remove(m0)) by {
                    assert(old(self).l@.to_multiset().contains(m0));
                }
            }
        }
    }

    /// Add the hinge `max(a - x, 0)`, which rises to the left of `a`.
    pub fn add_minus(&mut self, a: i64)
        requires
            old(self).inv(),
            -INF <= a <= INF,
            -MIN_BOUND <= old(self).spec_min() <= MIN_BOUND,
            old(self).lefts().len() < usize::MAX,
            old(self).rights().len() < usize::MAX,
        ensures
            final(self).inv(),
            final(self).lefts().len() <= old(self).lefts().len() + 1,
            final(self).rights().len() <= old(self).rights().len() + 1,
            old(self).rtop() <= -a ==> {
                &&& final(self).spec_min() == old(self).spec_min()
                &&& final(self).rights() == old(self).rights()
                &&& final(self).lefts().to_multiset() == old(self).lefts().to_multiset().insert(a)
                &&& final(self).lmax() == (if old(self).lmax() >= a {
                    old(self).lmax()
                } else {
                    a
                })
            },
            old(self).rtop() > -a ==> {
                &&& final(self).spec_min() == old(self).spec_min() + (a + old(self).rtop())
                &&& final(self).rights().to_multiset() == old(self).rights().to_multiset().insert(
                    (-a) as i64,
                ).remove(old(self).rtop())
                &&& final(self).lefts().to_multiset() == old(self).lefts().to_multiset().insert(
                    (-old(self).rtop()) as i64,
                )
                &&& final(self).lmax() == (if old(self).lmax() >= -old(self).rtop() {
                    old(self).lmax()
                } else {
                    (-old(self).rtop()) as i64
                })
            },
    {
        let m1s = self.r[self.r.len() - 1];
        if m1s <= -a {
            insert_sorted(&mut self.l, a);
        } else {
            let _dropped = pop_max(&mut self.r);
            insert_sorted(&mut self.r, -a);
            self.min = self.min + (a + m1s);
            insert_sorted(&mut self.l, -m1s);
            proof {
                broadcast use vstd::seq_lib::group_to_multiset_ensures;

                assert(self.r@.to_multiset() == old(self).r@.to_multiset().remove(m1s).insert((-a) as i64));
                assert(old(self).r@.to_multiset().remove(m1s).insert((-a) as i64) =~= old(
                    self,
                ).r@.to_multiset().insert((-a) as i64).remove(m1s)) by {
                    assert(old(self).r@.to_multiset().contains(m1s));
                }
            }
        }
    }

    /// Add the kink `|x - a|`.
    pub fn add_abs(&mut self, a: i64)
        requires
            old(self).inv(),
            -INF <= a <= INF,
            -MIN_BOUND + 2 * INF <= old(self).spec_min() <= MIN_BOUND - 2 * INF,
            old(self).lefts().len() < usize::MAX - 1,
            old(self).rights().len() < usize::MAX - 1,
        ensures
            final(self).inv(),
            old(self).lmax() > a ==> final(self).spec_min() == old(self).spec_min() + (old(
                self,
            ).lmax() - a),
            old(self).rtop() > -a ==> final(self).spec_min() == old(self).spec_min() + (a + old(
                self,
            ).rtop()),
            old(self).lmax() <= a && old(self).rtop() <= -a ==> final(self).spec_min() == old(
                self,
            ).spec_min(),
    {
        self.add_plus(a);
        self.add_minus(a);
    }
}

} // verus!

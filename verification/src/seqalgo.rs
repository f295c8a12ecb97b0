//! Sequence utilities.

pub mod rhash;

use vstd::multiset::Multiset;
use vstd::prelude::*;

verus! {

/// The smallest index at or after `pos` whose byte is `l + c`, or the
/// length of `s` when there is none.
pub open spec fn next_occurrence(s: Seq<u8>, l: u8, pos: int, c: int) -> int
    decreases s.len() - pos,
{
    if pos < 0 || pos >= s.len() {
        s.len() as int
    } else if s[pos] == l + c {
        pos
    } else {
        next_occurrence(s, l, pos + 1, c)
    }
}

/// For every position and every byte of the alphabet `[l, r)`, the next
/// index at or after that position holding the byte (or `s.len()` when
/// there is none).
pub fn next_pos(s: &[u8], l: u8, r: u8) -> (res: Vec<Vec<usize>>)
    requires
        l < r,
        r <= 255,
        forall|j: int| 0 <= j < s@.len() ==> l <= #[trigger] s@[j] < r,
    ensures
        res@.len() == s@.len(),
        forall|pos: int|
            0 <= pos < s@.len() ==> (#[trigger] res@[pos])@.len() == r - l,
        forall|pos: int, c: int|
            #![trigger res@[pos]@[c]]
            0 <= pos < s@.len() && 0 <= c < r - l ==> res@[pos]@[c] as int == next_occurrence(
                s@,
                l,
                pos,
                c,
            ),
{
    let n = s.len();
    let w = (r - l) as usize;
    let mut dp: Vec<usize> = Vec::new();
    let mut c0: usize = 0;
    while c0 < w
        invariant
            c0 <= w,
            dp@.len() == c0,
            n == s@.len(),
            forall|c: int| 0 <= c < c0 ==> #[trigger] dp@[c] == n,
        decreases w - c0,
    {
        dp.push(n);
        c0 = c0 + 1;
    }
    let mut rev: Vec<Vec<usize>> = Vec::new();
    let mut t: usize = 0;
    while t < n
        invariant
            t <= n,
            n == s@.len(),
            w == r - l,
            l < r,
            forall|j: int| 0 <= j < s@.len() ==> l <= #[trigger] s@[j] < r,
            dp@.len() == w,
            rev@.len() == t,
            forall|c: int| 0 <= c < w ==> #[trigger] dp@[c] as int == next_occurrence(
                s@,
                l,
                n - t,
                c,
            ),
            forall|u: int|
                0 <= u < t ==> (#[trigger] rev@[u])@.len() == w,
            forall|u: int, c: int|
                #![trigger rev@[u]@[c]]
                0 <= u < t && 0 <= c < w ==> rev@[u]@[c] as int == next_occurrence(
                    s@,
                    l,
                    n - 1 - u,
                    c,
                ),
        decreases n - t,
    {
        let i = n - 1 - t;
        let ci = (s[i] - l) as usize;
        dp[ci] = i;
        proof {
            assert forall|c: int| 0 <= c < w implies #[trigger] dp@[c] as int == next_occurrence(
                s@,
                l,
                i as int,
                c,
            ) by {
                if c == ci {
                    assert(s@[i as int] == l + c);
                } else {
                    assert(s@[i as int] != l + c);
                }
            }
        }
        let mut snap: Vec<usize> = Vec::new();
        let mut c1: usize = 0;
        while c1 < w
            invariant
                c1 <= w,
                dp@.len() == w,
                snap@.len() == c1,
                forall|c: int| 0 <= c < c1 ==> #[trigger] snap@[c] == dp@[c],
            decreases w - c1,
        {
            snap.push(dp[c1]);
            c1 = c1 + 1;
        }
        rev.push(snap);
        t = t + 1;
    }
    let mut res: Vec<Vec<usize>> = Vec::new();
    let mut u: usize = 0;
    while u < n
        invariant
            u <= n,
            n == s@.len(),
            w == r - l,
            rev@.len() == n,
            res@.len() == u,
            forall|v: int|
                0 <= v < n ==> (#[trigger] rev@[v])@.len() == w,
            forall|v: int, c: int|
                #![trigger rev@[v]@[c]]
                0 <= v < n && 0 <= c < w ==> rev@[v]@[c] as int == next_occurrence(
                    s@,
                    l,
                    n - 1 - v,
                    c,
                ),
            forall|v: int| 0 <= v < u ==> (#[trigger] res@[v])@ == rev@[n - 1 - v]@,
        decreases n - u,
    {
        let mut row: Vec<usize> = Vec::new();
        let src = &rev[n - 1 - u];
        let mut c2: usize = 0;
        while c2 < src.len()
            invariant
                c2 <= src@.len(),
                src == rev@[n - 1 - u as int],
                row@.len() == c2,
                forall|c: int| 0 <= c < c2 ==> #[trigger] row@[c] == src@[c],
            decreases src@.len() - c2,
        {
            row.push(src[c2]);
            c2 = c2 + 1;
        }
        proof {
            assert(row@ =~= (rev@[n - 1 - u as int])@);
        }
        res.push(row);
        u = u + 1;
    }
    proof {
        assert forall|pos: int, c: int|
            #![trigger res@[pos]@[c]]
            0 <= pos < s@.len() && 0 <= c < r - l implies res@[pos]@[c] as int == next_occurrence(
            s@,
            l,
            pos,
            c,
        ) by {
            assert(res@[pos]@ == rev@[n - 1 - pos]@);
            assert(rev@[n - 1 - pos]@[c] as int == next_occurrence(s@, l, n - 1 - (n - 1
                - pos), c));
        }
    }
    res
}


/// The distinct values of `s` that are strictly below `x`.
pub open spec fn distinct_below(s: Seq<i64>, x: i64) -> Set<i64> {
    Set::new(|v: i64| s.contains(v) && v < x)
}

/// A strictly increasing sequence has as many elements as its set.
proof fn lemma_strict_sorted_set_len(s: Seq<i64>)
    requires
        forall|i: int, j: int| 0 <= i < j < s.len() ==> s[i] < s[j],
    ensures
        s.to_set().finite(),
        s.to_set().len() == s.len(),
    decreases s.len(),
{
    if s.len() == 0 {
        assert(s.to_set() =~= Set::empty());
    } else {
        let s0 = s.drop_last();
        lemma_strict_sorted_set_len(s0);
        assert(!s0.contains(s.last())) by {
            if s0.contains(s.last()) {
                let i = choose|i: int| 0 <= i < s0.len() && s0[i] == s.last();
                assert(s[i] < s[s.len() - 1]);
            }
        }
        assert forall|v: i64| s.contains(v) implies s0.contains(v) || v == s.last() by {
            let i = choose|i: int| 0 <= i < s.len() && s[i] == v;
            if i < s.len() - 1 {
                assert(s0[i] == v);
            }
        }
        assert forall|v: i64| s0.contains(v) implies s.contains(v) by {
            let i = choose|i: int| 0 <= i < s0.len() && s0[i] == v;
            assert(s[i] == v);
        }
        assert(s.to_set() =~= s0.to_set().insert(s.last()));
        assert(!s0.to_set().contains(s.last()));
    }
}

/// Sort a copy of `a` by repeated insertion.
fn sort_all(a: &[i64]) -> (s: Vec<i64>)
    ensures
        forall|i: int, j: int| 0 <= i < j < s@.len() ==> s@[i] <= s@[j],
        s@.to_multiset() == a@.to_multiset(),
        s@.len() == a@.len(),
{
    let mut s: Vec<i64> = Vec::new();
    let mut t: usize = 0;
    proof {
        broadcast use vstd::seq_lib::group_to_multiset_ensures;

        assert(a@.subrange(0, 0) =~= Seq::<i64>::empty());
        assert(s@ =~= Seq::<i64>::empty());
        assert(Seq::<i64>::empty().to_multiset() =~= Multiset::<i64>::empty());
    }
    while t < a.len()
        invariant
            t <= a@.len(),
            s@.len() == t,
            forall|i: int, j: int| 0 <= i < j < s@.len() ==> s@[i] <= s@[j],
            s@.to_multiset() == a@.subrange(0, t as int).to_multiset(),
        decreases a@.len() - t,
    {
        let x = a[t];
        let mut p = s.len();
        while p > 0 && s[p - 1] > x
            invariant
                p <= s@.len(),
                forall|i: int, j: int| 0 <= i < j < s@.len() ==> s@[i] <= s@[j],
                forall|q: int| p <= q < s@.len() ==> #[trigger] s@[q] > x,
            decreases p,
        {
            p = p - 1;
        }
        let ghost pre = s@;
        s.insert(p, x);
        proof {
            broadcast use vstd::seq_lib::group_to_multiset_ensures;

            crate::slopetrick::lemma_insert_multiset(pre, p as int, x);
            assert(a@.subrange(0, t + 1).drop_last() =~= a@.subrange(0, t as int));
            assert(a@.subrange(0, t + 1) =~= a@.subrange(0, t as int).push(x));
        }
        t = t + 1;
    }
    proof {
        assert(a@.subrange(0, a@.len() as int) =~= a@);
    }
    s
}

/// Return, for each element, the number of distinct values of the
/// input that are strictly smaller.
pub fn compressed(a: &[i64]) -> (r: Vec<usize>)
    ensures
        r@.len() == a@.len(),
        forall|i: int|
            0 <= i < a@.len() ==> (#[trigger] r@[i]) as int == distinct_below(a@, a@[i]).len(),
{
    let s = sort_all(a);
    // keep one copy of each value
    let mut u: Vec<i64> = Vec::new();
    let mut t: usize = 0;
    proof {
        broadcast use vstd::seq_lib::group_to_multiset_ensures;
    }
    while t < s.len()
        invariant
            t <= s@.len(),
            forall|i: int, j: int| 0 <= i < j < s@.len() ==> s@[i] <= s@[j],
            forall|i: int, j: int| 0 <= i < j < u@.len() ==> u@[i] < u@[j],
            u@.len() <= t,
            forall|v: i64| u@.contains(v) ==> s@.subrange(0, t as int).contains(v),
            forall|v: i64| s@.subrange(0, t as int).contains(v) ==> u@.contains(v),
            t > 0 ==> u@.len() > 0 && u@.last() <= s@[t - 1],
        decreases s@.len() - t,
    {
        let ghost preu = u@;
        let keep = if u.len() == 0 {
            true
        } else {
            u[u.len() - 1] != s[t]
        };
        if keep {
            proof {
                if u@.len() > 0 {
                    assert(u@.last() <= s@[t as int - 1] && s@[t as int - 1] <= s@[t as int]);
                }
            }
            u.push(s[t]);
        }
        proof {
            assert forall|v: i64| s@.subrange(0, t + 1).contains(v) implies u@.contains(v) by {
                let i = choose|i: int| 0 <= i < t + 1 && #[trigger] s@.subrange(0, t + 1)[i] == v;
                if i < t {
                    assert(s@.subrange(0, t as int).contains(v)) by {
                        assert(s@.subrange(0, t as int)[i] == v);
                    }
                    assert(preu.contains(v));
                    let j = choose|j: int| 0 <= j < preu.len() && #[trigger] preu[j] == v;
                    assert(u@[j] == v);
                } else {
                    assert(v == s@[t as int]);
                    if keep {
                        assert(u@.last() == v);
                    } else {
                        assert(u@[preu.len() - 1] == v);
                    }
                }
            }
            assert forall|v: i64| u@.contains(v) implies s@.subrange(0, t + 1).contains(v) by {
                let j = choose|j: int| 0 <= j < u@.len() && u@[j] == v;
                if j < preu.len() {
                    assert(preu[j] == v);
                    assert(preu.contains(v));
                    assert(s@.subrange(0, t as int).contains(v));
                    let i = choose|i: int|
                        0 <= i < t && #[trigger] s@.subrange(0, t as int)[i] == v;
                    assert(s@[i] == v);
                    assert(s@.subrange(0, t + 1)[i] == v);
                } else {
                    assert(v == s@[t as int]);
                    assert(s@.subrange(0, t + 1)[t as int] == v);
                }
            }
        }
        t = t + 1;
    }
    proof {
        assert(s@.subrange(0, s@.len() as int) =~= s@);
    }
    // rank each element by binary search over the distinct values
    let mut r: Vec<usize> = Vec::new();
    let mut i: usize = 0;
    while i < a.len()
        invariant
            i <= a@.len(),
            r@.len() == i,
            s@.to_multiset() == a@.to_multiset(),
            forall|i2: int, j: int| 0 <= i2 < j < u@.len() ==> u@[i2] < u@[j],
            forall|v: i64| u@.contains(v) <==> s@.contains(v),
            forall|i2: int|
                0 <= i2 < i ==> (#[trigger] r@[i2]) as int == distinct_below(a@, a@[i2]).len(),
        decreases a@.len() - i,
    {
        let x = a[i];
        let mut lo: usize = 0;
        let mut hi: usize = u.len();
        while lo < hi
            invariant
                lo <= hi <= u@.len(),
                forall|i2: int, j: int| 0 <= i2 < j < u@.len() ==> u@[i2] < u@[j],
                forall|q: int| 0 <= q < lo ==> #[trigger] u@[q] < x,
                forall|q: int| hi <= q < u@.len() ==> #[trigger] u@[q] >= x,
            decreases hi - lo,
        {
            let mid = lo + (hi - lo) / 2;
            if u[mid] < x {
                lo = mid + 1;
            } else {
                hi = mid;
            }
        }
        proof {
            broadcast use vstd::seq_lib::group_to_multiset_ensures;

            let pref = u@.subrange(0, lo as int);
            lemma_strict_sorted_set_len(pref);
            assert(distinct_below(a@, x) =~= pref.to_set()) by {
                assert forall|v: i64| distinct_below(a@, x).contains(v) implies pref.contains(
                    v,
                ) by {
                    assert(a@.to_multiset().count(v) > 0);
                    assert(s@.contains(v));
                    assert(u@.contains(v));
                    let j = choose|j: int| 0 <= j < u@.len() && u@[j] == v;
                    assert(j < lo) by {
                        if j >= lo {
                            assert(u@[j] >= x);
                        }
                    }
                    assert(pref[j] == v);
                }
                assert forall|v: i64| pref.contains(v) implies distinct_below(a@, x).contains(
                    v,
                ) by {
                    let j = choose|j: int| 0 <= j < pref.len() && pref[j] == v;
                    assert(u@[j] == v);
                    assert(s@.contains(v));
                    assert(s@.to_multiset().count(v) > 0);
                    assert(a@.contains(v));
                    assert(u@[j] < x);
                }
            }
        }
        r.push(lo);
        i = i + 1;
    }
    r
}
} // verus!

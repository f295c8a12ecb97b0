//! Dense matrices over 64-bit integers with wrapping arithmetic.

use vstd::prelude::*;
use vstd::wrapping::i64_specs;

verus! {

/// A row-major `h` by `w` matrix of `i64` entries.
pub struct Matrix {
    h: usize,
    w: usize,
    val: Vec<i64>,
}

/// The wrapped dot product of row `i` of `a` and column `j` of `b`,
/// over the first `k` terms.
pub open spec fn dot_partial(a: Seq<i64>, b: Seq<i64>, aw: int, bw: int, i: int, j: int, k: int) -> i64
    decreases k,
{
    if k <= 0 {
        0
    } else {
        i64_specs::wrapping_add(
            dot_partial(a, b, aw, bw, i, j, k - 1),
            i64_specs::wrapping_mul(a[i * aw + (k - 1)], b[(k - 1) * bw + j]),
        )
    }
}

impl Matrix {
    /// The height.
    pub closed spec fn spec_h(&self) -> int {
        self.h as int
    }

    /// The width.
    pub closed spec fn spec_w(&self) -> int {
        self.w as int
    }

    /// The entry in row `i`, column `j`.
    pub closed spec fn entry(&self, i: int, j: int) -> i64 {
        self.val@[i * self.w + j]
    }

    /// Structural well-formedness.
    pub closed spec fn inv(&self) -> bool {
        self.val@.len() == self.h * self.w && self.h * self.w <= usize::MAX
    }

    /// Build an `h` by `w` matrix from rows.
    pub fn new(h: usize, w: usize, a: &Vec<Vec<i64>>) -> (r: Self)
        requires
            a@.len() == h,
            forall|i: int| 0 <= i < h ==> (#[trigger] a@[i])@.len() == w,
            h * w <= usize::MAX,
        ensures
            r.inv(),
            r.spec_h() == h,
            r.spec_w() == w,
            forall|i: int, j: int|
                0 <= i < h && 0 <= j < w ==> #[trigger] r.entry(i, j) == a@[i]@[j],
    {
        let mut val: Vec<i64> = Vec::new();
        let mut i: usize = 0;
        while i < h
            invariant
                i <= h,
                a@.len() == h,
                forall|t: int| 0 <= t < h ==> (#[trigger] a@[t])@.len() == w,
                h * w <= usize::MAX,
                val@.len() == i * w,
                forall|t: int, j: int|
                    0 <= t < i && 0 <= j < w ==> #[trigger] val@[t * w as int + j] == a@[t]@[j],
            decreases h - i,
        {
            let row = &a[i];
            let mut j: usize = 0;
            proof {
                assert((i + 1) * w as int == i * w as int + w) by (nonlinear_arith);
                assert(i * w as int >= 0 && (i + 1) * w as int <= h * w) by (nonlinear_arith)
                    requires
                        0 <= i < h,
                        w >= 0,
                ;
            }
            while j < w
                invariant
                    j <= w,
                    i < h,
                    a@.len() == h,
                    row == a@[i as int],
                    row@.len() == w,
                    h * w <= usize::MAX,
                    i * w as int + w <= h * w,
                    val@.len() == i * w + j,
                    forall|t: int, j2: int|
                        0 <= t < i && 0 <= j2 < w
                            ==> #[trigger] val@[t * w as int + j2] == a@[t]@[j2],
                    forall|j2: int|
                        0 <= j2 < j ==> #[trigger] val@[i as int * w as int + j2] == a@[i as int]@[j2],
                decreases w - j,
            {
                val.push(row[j]);
                j = j + 1;
                proof {
                    assert forall|t: int, j2: int|
                        0 <= t < i && 0 <= j2 < w implies #[trigger] val@[t * w as int + j2]
                        == a@[t]@[j2] by {
                        assert(t * w as int + j2 < i as int * w as int) by (nonlinear_arith)
                            requires
                                0 <= t,
                                t < i,
                                0 <= j2 < w,
                        ;
                    }
                }
            }
            i = i + 1;
        }
        Matrix { h, w, val }
    }

    /// Read the entry in row `i`, column `j`.
    pub fn at(&self, i: usize, j: usize) -> (r: i64)
        requires
            self.inv(),
            i < self.spec_h(),
            j < self.spec_w(),
        ensures
            r == self.entry(i as int, j as int),
    {
        proof {
            assert(i * self.w as int + j < self.h * self.w) by (nonlinear_arith)
                requires
                    0 <= i < self.h,
                    0 <= j < self.w,
            ;
            assert(i * self.w as int >= 0) by (nonlinear_arith)
                requires
                    i >= 0,
                    self.w >= 0,
            ;
        }
        self.val[i * self.w + j]
    }

    /// The entrywise wrapped sum of two equal-shaped matrices.
    pub fn add(&self, other: &Self) -> (r: Self)
        requires
            self.inv(),
            other.inv(),
            self.spec_h() == other.spec_h(),
            self.spec_w() == other.spec_w(),
        ensures
            r.inv(),
            r.spec_h() == self.spec_h(),
            r.spec_w() == self.spec_w(),
            forall|t: int|
                0 <= t < self.spec_h() * self.spec_w() ==> #[trigger] r.raw()[t]
                    == i64_specs::wrapping_add(self.raw()[t], other.raw()[t]),
    {
        let mut res = self.clone_mat();
        res.add_assign(other);
        res
    }

    /// Add `other` entrywise into `self`, wrapping.
    pub fn add_assign(&mut self, other: &Self)
        requires
            old(self).inv(),
            other.inv(),
            old(self).spec_h() == other.spec_h(),
            old(self).spec_w() == other.spec_w(),
        ensures
            final(self).inv(),
            final(self).spec_h() == old(self).spec_h(),
            final(self).spec_w() == old(self).spec_w(),
            forall|t: int|
                0 <= t < old(self).spec_h() * old(self).spec_w() ==> #[trigger] final(self).raw()[t]
                    == i64_specs::wrapping_add(old(self).raw()[t], other.raw()[t]),
    {
        let n = self.val.len();
        let mut t: usize = 0;
        while t < n
            invariant
                t <= n,
                self.h == old(self).h,
                self.w == old(self).w,
                n == self.h * self.w,
                self.val@.len() == n,
                other.inv(),
                other.spec_h() == old(self).spec_h(),
                other.spec_w() == old(self).spec_w(),
                forall|u: int|
                    0 <= u < t ==> #[trigger] self.val@[u] == i64_specs::wrapping_add(
                        old(self).val@[u],
                        other.val@[u],
                    ),
                forall|u: int| t <= u < n ==> #[trigger] self.val@[u] == old(self).val@[u],
            decreases n - t,
        {
            let s = self.val[t].wrapping_add(other.val[t]);
            self.val[t] = s;
            t = t + 1;
        }
    }

    /// The entrywise wrapped difference of two equal-shaped matrices.
    pub fn sub(&self, other: &Self) -> (r: Self)
        requires
            self.inv(),
            other.inv(),
            self.spec_h() == other.spec_h(),
            self.spec_w() == other.spec_w(),
        ensures
            r.inv(),
            r.spec_h() == self.spec_h(),
            r.spec_w() == self.spec_w(),
            forall|t: int|
                0 <= t < self.spec_h() * self.spec_w() ==> #[trigger] r.raw()[t]
                    == i64_specs::wrapping_sub(self.raw()[t], other.raw()[t]),
    {
        let mut res = self.clone_mat();
        res.sub_assign(other);
        res
    }

    /// Subtract `other` entrywise from `self`, wrapping.
    pub fn sub_assign(&mut self, other: &Self)
        requires
            old(self).inv(),
            other.inv(),
            old(self).spec_h() == other.spec_h(),
            old(self).spec_w() == other.spec_w(),
        ensures
            final(self).inv(),
            final(self).spec_h() == old(self).spec_h(),
            final(self).spec_w() == old(self).spec_w(),
            forall|t: int|
                0 <= t < old(self).spec_h() * old(self).spec_w() ==> #[trigger] final(self).raw()[t]
                    == i64_specs::wrapping_sub(old(self).raw()[t], other.raw()[t]),
    {
        let n = self.val.len();
        let mut t: usize = 0;
        while t < n
            invariant
                t <= n,
                self.h == old(self).h,
                self.w == old(self).w,
                n == self.h * self.w,
                self.val@.len() == n,
                other.inv(),
                other.spec_h() == old(self).spec_h(),
                other.spec_w() == old(self).spec_w(),
                forall|u: int|
                    0 <= u < t ==> #[trigger] self.val@[u] == i64_specs::wrapping_sub(
                        old(self).val@[u],
                        other.val@[u],
                    ),
                forall|u: int| t <= u < n ==> #[trigger] self.val@[u] == old(self).val@[u],
            decreases n - t,
        {
            let s = self.val[t].wrapping_sub(other.val[t]);
            self.val[t] = s;
            t = t + 1;
        }
    }

    /// The flat row-major contents.
    pub closed spec fn raw(&self) -> Seq<i64> {
        self.val@
    }

    /// A copy of the matrix.
    fn clone_mat(&self) -> (r: Self)
        requires
            self.inv(),
        ensures
            r.inv(),
            r.spec_h() == self.spec_h(),
            r.spec_w() == self.spec_w(),
            r.raw() == self.raw(),
    {
        let mut val: Vec<i64> = Vec::new();
        let mut t: usize = 0;
        let n = self.val.len();
        while t < n
            invariant
                t <= n,
                n == self.val@.len(),
                val@.len() == t,
                forall|u: int| 0 <= u < t ==> #[trigger] val@[u] == self.val@[u],
            decreases n - t,
        {
            val.push(self.val[t]);
            t = t + 1;
        }
        let r = Matrix { h: self.h, w: self.w, val };
        proof {
            assert(r.raw() =~= self.raw());
        }
        r
    }

    /// The `n` by `n` identity matrix.
    pub fn e(n: usize) -> (r: Self)
        requires
            n * n <= usize::MAX,
        ensures
            r.inv(),
            r.spec_h() == n,
            r.spec_w() == n,
            forall|i: int, j: int|
                0 <= i < n && 0 <= j < n ==> #[trigger] r.entry(i, j) == if i == j {
                    1i64
                } else {
                    0i64
                },
    {
        let mut val: Vec<i64> = Vec::new();
        let mut i: usize = 0;
        while i < n
            invariant
                i <= n,
                n * n <= usize::MAX,
                val@.len() == i * n,
                forall|t: int, j: int|
                    0 <= t < i && 0 <= j < n ==> #[trigger] val@[t * n as int + j] == if t == j {
                        1i64
                    } else {
                        0i64
                    },
            decreases n - i,
        {
            proof {
                assert((i + 1) * n as int == i * n as int + n) by (nonlinear_arith);
                assert(i * n as int >= 0 && (i + 1) * n as int <= n * n) by (nonlinear_arith)
                    requires
                        0 <= i < n,
                ;
            }
            let mut j: usize = 0;
            while j < n
                invariant
                    j <= n,
                    i < n,
                    n * n <= usize::MAX,
                    i * n as int + n <= n * n,
                    val@.len() == i * n + j,
                    forall|t: int, j2: int|
                        0 <= t < i && 0 <= j2 < n ==> #[trigger] val@[t * n as int + j2] == if t
                            == j2 {
                            1i64
                        } else {
                            0i64
                        },
                    forall|j2: int|
                        0 <= j2 < j ==> #[trigger] val@[i as int * n as int + j2] == if i as int
                            == j2 {
                            1i64
                        } else {
                            0i64
                        },
                decreases n - j,
            {
                if i == j {
                    val.push(1);
                } else {
                    val.push(0);
                }
                j = j + 1;
                proof {
                    assert forall|t: int, j2: int|
                        0 <= t < i && 0 <= j2 < n implies #[trigger] val@[t * n as int + j2] == (
                        if t == j2 {
                            1i64
                        } else {
                            0i64
                        }) by {
                        assert(t * n as int + j2 < i as int * n as int) by (nonlinear_arith)
                            requires
                                0 <= t,
                                t < i,
                                0 <= j2 < n,
                        ;
                    }
                }
            }
            i = i + 1;
        }
        Matrix { h: n, w: n, val }
    }

    /// The wrapped matrix product.
    pub fn mul(&self, other: &Self) -> (r: Self)
        requires
            self.inv(),
            other.inv(),
            self.spec_w() == other.spec_h(),
            self.spec_h() * other.spec_w() <= usize::MAX,
        ensures
            r.inv(),
            r.spec_h() == self.spec_h(),
            r.spec_w() == other.spec_w(),
            forall|i: int, j: int|
                0 <= i < self.spec_h() && 0 <= j < other.spec_w() ==> #[trigger] r.entry(i, j)
                    == dot_partial(
                    self.raw(),
                    other.raw(),
                    self.spec_w(),
                    other.spec_w(),
                    i,
                    j,
                    self.spec_w(),
                ),
    {
        let h = self.h;
        let w = other.w;
        let inner = self.w;
        let mut val: Vec<i64> = Vec::new();
        let mut i: usize = 0;
        while i < h
            invariant
                i <= h,
                self.inv(),
                other.inv(),
                h == self.h,
                w == other.w,
                inner == self.w,
                self.spec_w() == other.spec_h(),
                h * w <= usize::MAX,
                val@.len() == i * w,
                forall|t: int, j: int|
                    0 <= t < i && 0 <= j < w ==> #[trigger] val@[t * w as int + j] == dot_partial(
                        self.raw(),
                        other.raw(),
                        inner as int,
                        w as int,
                        t,
                        j,
                        inner as int,
                    ),
            decreases h - i,
        {
            proof {
                assert((i + 1) * w as int == i * w as int + w) by (nonlinear_arith);
                assert(i * w as int >= 0 && (i + 1) * w as int <= h * w) by (nonlinear_arith)
                    requires
                        0 <= i < h,
                        w >= 0,
                ;
            }
            let mut j: usize = 0;
            while j < w
                invariant
                    j <= w,
                    i < h,
                    self.inv(),
                    other.inv(),
                    h == self.h,
                    w == other.w,
                    inner == self.w,
                    self.spec_w() == other.spec_h(),
                    h * w <= usize::MAX,
                    i * w as int + w <= h * w,
                    val@.len() == i * w + j,
                    forall|t: int, j2: int|
                        0 <= t < i && 0 <= j2 < w ==> #[trigger] val@[t * w as int + j2]
                            == dot_partial(
                            self.raw(),
                            other.raw(),
                            inner as int,
                            w as int,
                            t,
                            j2,
                            inner as int,
                        ),
                    forall|j2: int|
                        0 <= j2 < j ==> #[trigger] val@[i as int * w as int + j2] == dot_partial(
                            self.raw(),
                            other.raw(),
                            inner as int,
                            w as int,
                            i as int,
                            j2,
                            inner as int,
                        ),
                decreases w - j,
            {
                let mut acc: i64 = 0;
                let mut k: usize = 0;
                while k < inner
                    invariant
                        k <= inner,
                        i < h,
                        j < w,
                        self.inv(),
                        other.inv(),
                        h == self.h,
                        w == other.w,
                        inner == self.w,
                        self.spec_w() == other.spec_h(),
                        acc == dot_partial(
                            self.raw(),
                            other.raw(),
                            inner as int,
                            w as int,
                            i as int,
                            j as int,
                            k as int,
                        ),
                    decreases inner - k,
                {
                    proof {
                        assert(0 <= i * inner as int + k < self.h * self.w) by (nonlinear_arith)
                            requires
                                0 <= i < h,
                                0 <= k < inner,
                                self.h == h,
                                self.w == inner,
                        ;
                        assert(0 <= k * w as int + j < other.h * other.w) by (nonlinear_arith)
                            requires
                                0 <= k,
                                k < other.h,
                                0 <= j < w,
                                other.w == w,
                        ;
                    }
                    let p = self.val[i * inner + k].wrapping_mul(other.val[k * w + j]);
                    acc = acc.wrapping_add(p);
                    k = k + 1;
                }
                val.push(acc);
                j = j + 1;
                proof {
                    assert forall|t: int, j2: int|
                        0 <= t < i && 0 <= j2 < w implies #[trigger] val@[t * w as int + j2]
                        == dot_partial(
                        self.raw(),
                        other.raw(),
                        inner as int,
                        w as int,
                        t,
                        j2,
                        inner as int,
                    ) by {
                        assert(t * w as int + j2 < i as int * w as int) by (nonlinear_arith)
                            requires
                                0 <= t,
                                t < i,
                                0 <= j2 < w,
                        ;
                    }
                }
            }
            i = i + 1;
        }
        let r = Matrix { h, w, val };
        proof {
            assert forall|i2: int, j2: int|
                0 <= i2 < h && 0 <= j2 < w implies #[trigger] r.entry(i2, j2) == dot_partial(
                self.raw(),
                other.raw(),
                inner as int,
                w as int,
                i2,
                j2,
                inner as int,
            ) by {
                assert(r.val@[i2 * w as int + j2] == dot_partial(
                    self.raw(),
                    other.raw(),
                    inner as int,
                    w as int,
                    i2,
                    j2,
                    inner as int,
                ));
            }
        }
        r
    }
}

} // verus!

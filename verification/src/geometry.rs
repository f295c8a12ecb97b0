//! Exact two-dimensional integer vectors and small polygon utilities.

use vstd::prelude::*;

verus! {

/// A point or direction in the integer plane.
#[derive(Debug, Clone, Copy, PartialEq, Eq, Hash)]
pub struct Vector(pub (i64, i64));

impl Vector {
    /// The vector `(x, y)`.
    pub fn new(x: i64, y: i64) -> (r: Self)
        ensures
            r.0.0 == x,
            r.0.1 == y,
    {
        Vector((x, y))
    }

    /// The first coordinate.
    pub fn x(&self) -> (r: i64)
        ensures
            r == self.0.0,
    {
        self.0.0
    }

    /// The second coordinate.
    pub fn y(&self) -> (r: i64)
        ensures
            r == self.0.1,
    {
        self.0.1
    }

    /// Componentwise sum.
    pub fn add(&self, other: &Self) -> (r: Self)
        requires
            i64::MIN <= self.0.0 + other.0.0 <= i64::MAX,
            i64::MIN <= self.0.1 + other.0.1 <= i64::MAX,
        ensures
            r.0.0 == self.0.0 + other.0.0,
            r.0.1 == self.0.1 + other.0.1,
    {
        Vector((self.0.0 + other.0.0, self.0.1 + other.0.1))
    }

    /// Componentwise difference.
    pub fn sub(&self, other: &Self) -> (r: Self)
        requires
            i64::MIN <= self.0.0 - other.0.0 <= i64::MAX,
            i64::MIN <= self.0.1 - other.0.1 <= i64::MAX,
        ensures
            r.0.0 == self.0.0 - other.0.0,
            r.0.1 == self.0.1 - other.0.1,
    {
        Vector((self.0.0 - other.0.0, self.0.1 - other.0.1))
    }

    /// Scaling by an integer factor.
    pub fn scalar(&self, a: &i64) -> (r: Self)
        requires
            i64::MIN <= a * self.0.0 <= i64::MAX,
            i64::MIN <= a * self.0.1 <= i64::MAX,
        ensures
            r.0.0 == a * self.0.0,
            r.0.1 == a * self.0.1,
    {
        Vector((*a * self.0.0, *a * self.0.1))
    }

    /// The dot product.
    pub fn dot(&self, other: &Self) -> (r: i64)
        requires
            i64::MIN <= self.0.0 * other.0.0 <= i64::MAX,
            i64::MIN <= self.0.1 * other.0.1 <= i64::MAX,
            i64::MIN <= self.0.0 * other.0.0 + self.0.1 * other.0.1 <= i64::MAX,
        ensures
            r == self.0.0 * other.0.0 + self.0.1 * other.0.1,
    {
        self.0.0 * other.0.0 + self.0.1 * other.0.1
    }

    /// The cross product (signed parallelogram area).
    pub fn cross(&self, other: &Self) -> (r: i64)
        requires
            i64::MIN <= self.0.0 * other.0.1 <= i64::MAX,
            i64::MIN <= self.0.1 * other.0.0 <= i64::MAX,
            i64::MIN <= self.0.0 * other.0.1 - self.0.1 * other.0.0 <= i64::MAX,
        ensures
            r == self.0.0 * other.0.1 - self.0.1 * other.0.0,
    {
        self.0.0 * other.0.1 - self.0.1 * other.0.0
    }

    /// The squared Euclidean norm.
    pub fn norm_pow2(&self) -> (r: i64)
        requires
            i64::MIN <= self.0.0 * self.0.0 <= i64::MAX,
            i64::MIN <= self.0.1 * self.0.1 <= i64::MAX,
            i64::MIN <= self.0.0 * self.0.0 + self.0.1 * self.0.1 <= i64::MAX,
        ensures
            r == self.0.0 * self.0.0 + self.0.1 * self.0.1,
    {
        self.0.0 * self.0.0 + self.0.1 * self.0.1
    }
}

/// The cross product of `b - a` and `c - a`, as an unbounded integer.
pub open spec fn spec_cross_from(a: Vector, b: Vector, c: Vector) -> int {
    (b.0.0 - a.0.0) * (c.0.1 - a.0.1) - (b.0.1 - a.0.1) * (c.0.0 - a.0.0)
}

/// The absolute value of an integer.
pub open spec fn spec_abs(x: int) -> int {
    if x >= 0 {
        x
    } else {
        -x
    }
}

/// Twice the accumulated fan area over the first `i` triangle fans of a
/// polygon, all anchored at the first point.
pub open spec fn area2_partial(p: Seq<Vector>, i: int) -> int
    decreases i,
{
    if i <= 0 {
        0
    } else {
        area2_partial(p, i - 1) + spec_abs(spec_cross_from(p[0], p[i - 1], p[i]))
    }
}

/// Do the intermediate values of the `i`-th fan term fit into `i64`?
pub open spec fn cross_fits(p: Seq<Vector>, i: int) -> bool {
    &&& i64::MIN <= p[i - 1].0.0 - p[0].0.0 <= i64::MAX
    &&& i64::MIN <= p[i - 1].0.1 - p[0].0.1 <= i64::MAX
    &&& i64::MIN <= p[i].0.0 - p[0].0.0 <= i64::MAX
    &&& i64::MIN <= p[i].0.1 - p[0].0.1 <= i64::MAX
    &&& i64::MIN <= (p[i - 1].0.0 - p[0].0.0) * (p[i].0.1 - p[0].0.1) <= i64::MAX
    &&& i64::MIN <= (p[i - 1].0.1 - p[0].0.1) * (p[i].0.0 - p[0].0.0) <= i64::MAX
    &&& i64::MIN < spec_cross_from(p[0], p[i - 1], p[i]) <= i64::MAX
}

/// Do all the intermediate values of the fan-area computation over `p`
/// fit into the machine integers used?
pub open spec fn area2_in_range(p: Seq<Vector>) -> bool {
    &&& forall|i: int| 1 <= i < p.len() ==> #[trigger] cross_fits(p, i)
    &&& forall|i: int| 0 <= i < p.len() ==> 0 <= #[trigger] area2_partial(p, i) <= i64::MAX
}

/// Twice the area of the polygon `p`, computed as a fan of triangles
/// anchored at the first vertex; degenerate polygons yield zero.
pub fn polygon_area_mul2(p: &Vec<Vector>) -> (r: i64)
    requires
        area2_in_range(p@),
    ensures
        p@.len() < 3 ==> r == 0,
        p@.len() >= 3 ==> r == area2_partial(p@, p@.len() - 1),
{
    let n = p.len();
    if n < 3 {
        return 0;
    }
    let a = p[0];
    let mut acc: i64 = 0;
    let mut i: usize = 1;
    while i < n
        invariant
            1 <= i <= n,
            n == p@.len(),
            3 <= n,
            a == p@[0],
            area2_in_range(p@),
            acc == area2_partial(p@, i as int - 1),
        decreases n - i,
    {
        proof {
            assert(cross_fits(p@, i as int));
        }
        let b = p[i - 1];
        let c = p[i];
        let cr = (b.0.0 - a.0.0) * (c.0.1 - a.0.1) - (b.0.1 - a.0.1) * (c.0.0 - a.0.0);
        let term = if cr >= 0 {
            cr
        } else {
            -cr
        };
        proof {
            assert(0 <= area2_partial(p@, i as int) <= i64::MAX);
        }
        acc = acc + term;
        i = i + 1;
    }
    acc
}

/// Compare two directions by angle: vectors in the upper half plane
/// (including the positive x-axis) come first, and within a half plane
/// the cross product decides.
pub fn arg_cmp(v: &Vector, w: &Vector) -> (r: i8)
    requires
        i64::MIN <= v.0.1 * w.0.0 <= i64::MAX,
        i64::MIN <= v.0.0 * w.0.1 <= i64::MAX,
    ensures
        r as int == arg_cmp_spec(*v, *w),
{
    let hv: i8 = if v.0.1 < 0 || (v.0.1 == 0 && v.0.0 < 0) {
        1
    } else {
        0
    };
    let hw: i8 = if w.0.1 < 0 || (w.0.1 == 0 && w.0.0 < 0) {
        1
    } else {
        0
    };
    if hv < hw {
        -1
    } else if hv > hw {
        1
    } else {
        let x = v.0.1 * w.0.0;
        let y = v.0.0 * w.0.1;
        if x < y {
            -1
        } else if x > y {
            1
        } else {
            0
        }
    }
}

/// Is `(y, x)` lexicographically before the origin?
pub open spec fn below_origin(v: Vector) -> bool {
    v.0.1 < 0 || (v.0.1 == 0 && v.0.0 < 0)
}

/// The angular comparison of two vectors: `-1`, `0` or `1`.
pub open spec fn arg_cmp_spec(v: Vector, w: Vector) -> int {
    if !below_origin(v) && below_origin(w) {
        -1
    } else if below_origin(v) && !below_origin(w) {
        1
    } else if v.0.1 * w.0.0 < v.0.0 * w.0.1 {
        -1
    } else if v.0.1 * w.0.0 > v.0.0 * w.0.1 {
        1
    } else {
        0
    }
}

} // verus!

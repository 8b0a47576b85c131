//! The spatial-point capability: a vertex that reports a 2-D coordinate
//! pair, together with distance formulas derived from the coordinates.
//!
//! All distances are integers in thousandths of a coordinate unit
//! ([`DIST_SCALE`]), so that the Euclidean length of a unit diagonal,
//! `sqrt(2)`, is representable (as 1414) without floating point.

use vstd::prelude::*;

verus! {

/// Distances returned by the derived formulas are scaled by this factor:
/// a distance of one coordinate unit is reported as 1000.
pub const DIST_SCALE: u64 = 1000;

/// The absolute value of an integer.
pub open spec fn absi(x: int) -> int {
    if x < 0 {
        -x
    } else {
        x
    }
}

/// The larger of two integers.
pub open spec fn maxi(a: int, b: int) -> int {
    if a >= b {
        a
    } else {
        b
    }
}

/// The integer square root: the largest `r` with `r * r <= n`.
pub open spec fn isqrt(n: nat) -> nat
    decreases n,
{
    if n == 0 {
        0
    } else {
        let r = isqrt((n - 1) as nat);
        if (r + 1) * (r + 1) <= n {
            (r + 1) as nat
        } else {
            r
        }
    }
}

/// `isqrt(n)` is the unique `r` with `r * r <= n < (r + 1) * (r + 1)`.
pub proof fn lemma_isqrt_bounds(n: nat)
    ensures
        isqrt(n) * isqrt(n) <= n,
        n < (isqrt(n) + 1) * (isqrt(n) + 1),
    decreases n,
{
    if n > 0 {
        lemma_isqrt_bounds((n - 1) as nat);
        let r = isqrt((n - 1) as nat);
        if (r + 1) * (r + 1) <= n {
            assert(isqrt(n) == r + 1);
            assert(n < (r + 2) * (r + 2)) by (nonlinear_arith)
                requires
                    n <= (r + 1) * (r + 1),
                    r >= 0,
            ;
            assert((isqrt(n) + 1) * (isqrt(n) + 1) == (r + 2) * (r + 2));
        } else {
            assert(isqrt(n) == r);
        }
    } else {
        assert(n < (isqrt(n) + 1) * (isqrt(n) + 1)) by (nonlinear_arith)
            requires
                n == 0,
                isqrt(n) == 0,
        ;
    }
}

/// Squaring is monotone, so the bounds of `lemma_isqrt_bounds` pin the root.
pub proof fn lemma_isqrt_unique(n: nat, r: nat)
    requires
        r * r <= n,
        n < (r + 1) * (r + 1),
    ensures
        isqrt(n) == r,
{
    lemma_isqrt_bounds(n);
    let q = isqrt(n);
    if q < r {
        assert((q + 1) * (q + 1) <= r * r) by (nonlinear_arith)
            requires
                q + 1 <= r,
                q >= 0,
        ;
    }
    if r < q {
        assert((r + 1) * (r + 1) <= q * q) by (nonlinear_arith)
            requires
                r + 1 <= q,
                r >= 0,
        ;
    }
}

/// A larger value never has a smaller integer square root.
pub proof fn lemma_isqrt_monotone(a: nat, b: nat)
    requires
        a <= b,
    ensures
        isqrt(a) <= isqrt(b),
{
    lemma_isqrt_bounds(a);
    lemma_isqrt_bounds(b);
    if isqrt(b) < isqrt(a) {
        assert((isqrt(b) + 1) * (isqrt(b) + 1) <= isqrt(a) * isqrt(a)) by (nonlinear_arith)
            requires
                isqrt(b) + 1 <= isqrt(a),
        ;
    }
}

/// The integer square root of a perfect square is its root.
pub proof fn lemma_isqrt_square(k: nat)
    ensures
        isqrt(k * k) == k,
{
    assert(k * k < (k + 1) * (k + 1)) by (nonlinear_arith)
        requires
            k >= 0,
    ;
    lemma_isqrt_unique(k * k, k);
}

/// Computes the integer square root of a 64-bit value by binary search.
pub fn int_sqrt(n: u64) -> (r: u64)
    ensures
        r as nat == isqrt(n as nat),
{
    let mut lo: u64 = 0;
    let mut hi: u64 = 4294967296;
    while lo + 1 < hi
        invariant
            lo < hi <= 4294967296,
            (lo as nat) * (lo as nat) <= n as nat,
            (hi as nat) * (hi as nat) > n as nat,
        decreases hi - lo,
    {
        let mid = lo + (hi - lo) / 2;
        proof {
            assert((mid as int) * (mid as int) <= 18446744073709551616) by (nonlinear_arith)
                requires
                    0 <= mid <= 4294967296,
            ;
        }
        if (mid as u128) * (mid as u128) <= n as u128 {
            lo = mid;
        } else {
            hi = mid;
        }
    }
    proof {
        assert((lo + 1) * (lo + 1) >= (hi as nat) * (hi as nat)) by (nonlinear_arith)
            requires
                lo + 1 >= hi,
                hi >= 0,
        ;
        lemma_isqrt_unique(n as nat, lo as nat);
    }
    lo
}

/// Both coordinate differences between two vertices stay within two million
/// units, so the scaled distance formulas below cannot overflow.
pub open spec fn coords_close(a: (int, int), b: (int, int)) -> bool {
    let dx = b.0 - a.0;
    let dy = b.1 - a.1;
    &&& -2000000 <= dx <= 2000000
    &&& -2000000 <= dy <= 2000000
}

/// The squared Euclidean distance between two vertices, scaled by
/// `DIST_SCALE * DIST_SCALE`.
pub open spec fn scaled_sq_dist(a: (int, int), b: (int, int)) -> int {
    let dx = b.0 - a.0;
    let dy = b.1 - a.1;
    (dx * dx + dy * dy) * 1000000
}

/// A type with a position on an abstract 2-D surface. In a simple square
/// grid, the coordinate pair could be expected to be an (x, y) pair.
///
/// Conforming types report their coordinates through [`Vertex2D::coords`]
/// and decide vertex identity through [`Vertex2D::eq_vertex`]; the distance
/// formulas are derived from the coordinates and may be relied upon without
/// redefining them.
pub trait Vertex2D: Sized {
    /// The mathematical coordinates of this vertex.
    spec fn pos(&self) -> (int, int);

    /// The coordinate pair of this vertex.
    fn coords(&self) -> (r: (i64, i64))
        ensures
            r.0 as int == self.pos().0,
            r.1 as int == self.pos().1,
    ;

    /// Decides whether two vertices are the same point, for search
    /// bookkeeping and for the goal comparison.
    fn eq_vertex(&self, other: &Self) -> (r: bool)
        ensures
            r == (*self == *other),
    ;

    /// Returns the Euclidean distance between two vertices, defined as the
    /// length of a straight line connecting them, `sqrt(dx * dx + dy * dy)`,
    /// in thousandths of a unit (rounded down).
    fn euclidean_distance(&self, other: &Self) -> (r: u64)
        requires
            coords_close(self.pos(), other.pos()),
        ensures
            r as nat == isqrt(scaled_sq_dist(self.pos(), other.pos()) as nat),
    {
        let (x, y) = self.coords();
        let (xf, yf) = other.coords();
        let x_dist: i64 = xf - x;
        let y_dist: i64 = yf - y;
        proof {
            assert(0 <= x_dist * x_dist <= 4000000000000) by (nonlinear_arith)
                requires
                    -2000000 <= x_dist <= 2000000,
            ;
            assert(0 <= y_dist * y_dist <= 4000000000000) by (nonlinear_arith)
                requires
                    -2000000 <= y_dist <= 2000000,
            ;
        }
        let xs: i64 = x_dist * x_dist;
        let ys: i64 = y_dist * y_dist;
        let sq: i64 = (xs + ys) * 1000000;
        int_sqrt(sq as u64)
    }

    /// Returns the largest axial distance between two vertices,
    /// `max(|dx|, |dy|)`, in thousandths of a unit.
    fn chebyshev_distance(&self, other: &Self) -> (r: u64)
        requires
            coords_close(self.pos(), other.pos()),
        ensures
            r as int == DIST_SCALE * maxi(
                absi(other.pos().0 - self.pos().0),
                absi(other.pos().1 - self.pos().1),
            ),
    {
        let (x, y) = self.coords();
        let (xf, yf) = other.coords();
        let x_dist: i64 = if xf >= x {
            xf - x
        } else {
            x - xf
        };
        let y_dist: i64 = if yf >= y {
            yf - y
        } else {
            y - yf
        };
        let m: i64 = if x_dist >= y_dist {
            x_dist
        } else {
            y_dist
        };
        (m as u64) * 1000
    }

    /// Returns the distance between two vertices as if they were in a square
    /// grid and diagonal movement were disallowed, `|dx| + |dy|`, in
    /// thousandths of a unit.
    fn manhattan_distance(&self, other: &Self) -> (r: u64)
        requires
            coords_close(self.pos(), other.pos()),
        ensures
            r as int == DIST_SCALE * (absi(other.pos().0 - self.pos().0) + absi(
                other.pos().1 - self.pos().1,
            )),
    {
        let (x, y) = self.coords();
        let (xf, yf) = other.coords();
        let x_dist: i64 = if xf >= x {
            xf - x
        } else {
            x - xf
        };
        let y_dist: i64 = if yf >= y {
            yf - y
        } else {
            y - yf
        };
        ((x_dist as u64) + (y_dist as u64)) * 1000
    }
}

} // verus!

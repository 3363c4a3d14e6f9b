//! Plane coordinates in micro-units, with Euclidean distance.

use vstd::prelude::*;
use crate::num::MAX_MICROS;

verus! {

/// A plane coordinate. `x` and `y` are in micros (millionths of a unit).
#[derive(Clone, Copy, Debug, PartialEq, Eq, Structural)]
pub struct Point {
    pub x: i64,
    pub y: i64,
}

/// The coordinates stay within the magnitude every parsed quantity obeys.
pub open spec fn point_wf(p: Point) -> bool {
    &&& -MAX_MICROS <= p.x <= MAX_MICROS
    &&& -MAX_MICROS <= p.y <= MAX_MICROS
}

/// Squared Euclidean distance between two points, in squared micros.
pub open spec fn dist2(a: Point, b: Point) -> int {
    (a.x - b.x) * (a.x - b.x) + (a.y - b.y) * (a.y - b.y)
}

impl Point {
    pub fn from_xy(x: i64, y: i64) -> (p: Self)
        ensures
            p.x == x && p.y == y,
    {
        Self { x, y }
    }

    pub fn x(&self) -> (v: i64)
        ensures
            v == self.x,
    {
        self.x
    }

    pub fn y(&self) -> (v: i64)
        ensures
            v == self.y,
    {
        self.y
    }

    /// Euclidean distance in micros, rounded down: the unique `d` with
    /// `d*d <= dist2 < (d+1)*(d+1)`.
    pub fn distance_to(&self, o: &Point) -> (d: i64)
        requires
            point_wf(*self),
            point_wf(*o),
        ensures
            0 <= d,
            d * d <= dist2(*self, *o),
            dist2(*self, *o) < (d + 1) * (d + 1),
    {
        let dx = (self.x as i128) - (o.x as i128);
        let dy = (self.y as i128) - (o.y as i128);
        proof {
            assert(dx * dx <= 4_000_000_000_000_000_000_000_000_000_000) by (nonlinear_arith)
                requires
                    -2_000_000_000_000_000 <= dx <= 2_000_000_000_000_000,
            ;
            assert(dy * dy <= 4_000_000_000_000_000_000_000_000_000_000) by (nonlinear_arith)
                requires
                    -2_000_000_000_000_000 <= dy <= 2_000_000_000_000_000,
            ;
            assert(dx * dx >= 0) by (nonlinear_arith);
            assert(dy * dy >= 0) by (nonlinear_arith);
        }
        let d2: u128 = ((dx * dx) as u128) + ((dy * dy) as u128);
        let r = isqrt(d2, 3_000_000_000_000_000);
        proof {
            assert(d2 == dist2(*self, *o));
            assert(r as i64 as int == r as int);
            assert(r * r <= 9_000_000_000_000_000_000_000_000_000_000 && (r + 1) * (r + 1)
                <= 10_000_000_000_000_000_000_000_000_000_000) by (nonlinear_arith)
                requires
                    0 <= r <= 3_000_000_000_000_000,
            ;
            assert(r * r <= d2);
            assert(d2 < (r + 1) * (r + 1));
        }
        r as i64
    }
}

/// Integer square root by binary search: the unique `r` with
/// `r*r <= n < (r+1)*(r+1)`, for `n` below `(hi+1)^2`.
fn isqrt(n: u128, hi: u64) -> (r: u64)
    requires
        n < ((hi + 1) * (hi + 1)) as u128,
        hi < 0x7fff_ffff_ffff_ffff,
    ensures
        r <= hi,
        (r * r) as u128 <= n,
        n < ((r + 1) * (r + 1)) as u128,
{
    let mut lo: u64 = 0;
    let mut hi_v: u64 = hi;
    while lo < hi_v
        invariant
            lo <= hi_v <= hi,
            hi < 0x7fff_ffff_ffff_ffff,
            (lo * lo) as u128 <= n,
            n < ((hi_v + 1) * (hi_v + 1)) as u128,
        decreases hi_v - lo,
    {
        let mid = lo + (hi_v - lo + 1) / 2;
        proof {
            assert(lo < mid <= hi_v);
            assert(mid * mid < 0x1_0000_0000_0000_0000_0000_0000_0000_0000) by (nonlinear_arith)
                requires
                    mid < 0x8000_0000_0000_0000,
            ;
        }
        if (mid as u128) * (mid as u128) <= n {
            lo = mid;
        } else {
            proof {
                assert(n < ((mid) * (mid)) as u128);
                assert((((mid - 1) + 1) * ((mid - 1) + 1)) == mid * mid);
            }
            hi_v = mid - 1;
        }
    }
    lo
}

} // verus!

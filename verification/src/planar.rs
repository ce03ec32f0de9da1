//! Positions on the projection grid and distances between them.

use vstd::prelude::*;

verus! {

/// A position on the projection grid of the configured zone, in whole metres
/// north and east of the grid's origin. It serves as a key of the spatial
/// index only and carries no identity.
#[derive(Clone, Copy, Debug, PartialEq, Eq, Structural)]
pub struct PlanarPoint {
    pub northing: i32,
    pub easting: i32,
}

/// The square of the Euclidean distance between two grid positions.
pub open spec fn squared_distance(a: PlanarPoint, b: PlanarPoint) -> int {
    (a.northing - b.northing) * (a.northing - b.northing) + (a.easting - b.easting) * (a.easting
        - b.easting)
}

/// `r` is the largest whole number whose square does not exceed `n`.
pub open spec fn is_floor_sqrt(n: int, r: int) -> bool {
    0 <= r && r * r <= n < (r + 1) * (r + 1)
}

/// The largest whole number whose square does not exceed `n`.
pub open spec fn floor_sqrt(n: int) -> int
    recommends
        n >= 0,
{
    choose|r: int| is_floor_sqrt(n, r)
}

/// Squares are monotone on the non-negative integers.
proof fn lemma_square_monotone(a: int, b: int)
    requires
        0 <= a <= b,
    ensures
        a * a <= b * b,
{
    assert(a * a <= b * b) by (nonlinear_arith)
        requires
            0 <= a <= b,
    ;
}

/// There is exactly one `r >= 0` with `r * r <= n < (r + 1) * (r + 1)`.
pub proof fn lemma_floor_sqrt_unique(n: int, r: int)
    requires
        is_floor_sqrt(n, r),
    ensures
        floor_sqrt(n) == r,
{
    let s = floor_sqrt(n);
    assert(is_floor_sqrt(n, s));
    if s < r {
        lemma_square_monotone(s + 1, r);
    } else if r < s {
        lemma_square_monotone(r + 1, s);
    }
}

impl PlanarPoint {
    pub fn new(northing: i32, easting: i32) -> (p: PlanarPoint)
        ensures
            p == (PlanarPoint { northing, easting }),
    {
        PlanarPoint { northing, easting }
    }

    /// The exact squared distance to `other`, in square metres.
    pub fn squared_distance_to(&self, other: &PlanarPoint) -> (d: u128)
        ensures
            d == squared_distance(*self, *other),
    {
        let dn: i128 = self.northing as i128 - other.northing as i128;
        let de: i128 = self.easting as i128 - other.easting as i128;
        assert(0 <= dn * dn <= 0x1_0000_0000_0000_0000) by (nonlinear_arith)
            requires
                -0x1_0000_0000 <= dn <= 0x1_0000_0000,
        ;
        assert(0 <= de * de <= 0x1_0000_0000_0000_0000) by (nonlinear_arith)
            requires
                -0x1_0000_0000 <= de <= 0x1_0000_0000,
        ;
        let sum: i128 = dn * dn + de * de;
        sum as u128
    }
}

/// The distance that belongs to a squared distance, rounded down to whole
/// metres.
pub fn integer_sqrt(n: u64) -> (r: u32)
    ensures
        r == floor_sqrt(n as int),
        is_floor_sqrt(n as int, r as int),
{
    let mut lo: u64 = 0;
    let mut hi: u64 = 0x1_0000_0000;
    assert(n < hi * hi) by (nonlinear_arith)
        requires
            hi == 0x1_0000_0000,
            n <= 0xffff_ffff_ffff_ffff,
    ;
    while hi - lo > 1
        invariant
            lo < hi <= 0x1_0000_0000,
            lo * lo <= n < hi * hi,
        decreases hi - lo,
    {
        let mid: u64 = lo + (hi - lo) / 2;
        assert(mid * mid <= 0xffff_ffff * 0xffff_ffff) by (nonlinear_arith)
            requires
                0 <= mid <= 0xffff_ffff,
        ;
        if mid * mid <= n {
            lo = mid;
        } else {
            hi = mid;
        }
    }
    proof {
        lemma_floor_sqrt_unique(n as int, lo as int);
    }
    lo as u32
}

} // verus!

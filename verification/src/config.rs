//! The policy constants of a run, as named configuration.

use vstd::arithmetic::power::{lemma_square_is_pow2, pow};
use vstd::prelude::*;

verus! {

/// The search radius that is used where none is chosen, in metres on the
/// grid. The value is a matter of experience, not a law: it is meant to be
/// tuned.
pub const DEFAULT_SEARCH_RADIUS: u32 = 300;

/// The projection zone that is used where none is chosen. One zone serves a
/// whole run: it belongs to the region, not to the single point.
pub const DEFAULT_PROJECTION_ZONE: u8 = 11;

/// What a run is configured with.
#[derive(Clone, Copy, Debug, PartialEq, Eq, Structural)]
pub struct Config {
    /// How far from a survey record a map node may lie to be a candidate, in
    /// metres on the grid.
    pub search_radius: u32,
    /// The zone of the projection grid.
    pub projection_zone: u8,
}

impl Default for Config {
    fn default() -> (c: Config)
        ensures
            c == (Config {
                search_radius: DEFAULT_SEARCH_RADIUS,
                projection_zone: DEFAULT_PROJECTION_ZONE,
            }),
    {
        Config { search_radius: DEFAULT_SEARCH_RADIUS, projection_zone: DEFAULT_PROJECTION_ZONE }
    }
}

/// Calls `num::pow` on 64-bit unsigned integers. That function multiplies by
/// repeated squaring and returns `base` raised to `exponent`, with 1 for the
/// exponent 0; every product it forms on the way is a power of `base` with an
/// exponent no larger than `exponent`, so nothing overflows where the result
/// fits.
#[verifier::external_body]
fn integer_power(base: u64, exponent: usize) -> (r: u64)
    requires
        pow(base as int, exponent as nat) <= u64::MAX,
    ensures
        r == pow(base as int, exponent as nat),
{
    num::pow(base, exponent)
}

impl Config {
    /// The square of the search radius, to be held against squared
    /// distances.
    pub fn radius_squared(&self) -> (r: u64)
        ensures
            r == self.search_radius * self.search_radius,
    {
        proof {
            lemma_square_is_pow2(self.search_radius as int);
            assert(self.search_radius * self.search_radius <= u64::MAX) by (nonlinear_arith)
                requires
                    0 <= self.search_radius <= u32::MAX,
            ;
        }
        integer_power(self.search_radius as u64, 2)
    }
}

} // verus!

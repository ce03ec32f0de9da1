//! Why input is refused at load time, before any reconciling begins.

use vstd::prelude::*;

verus! {

/// Why a record of the map file or of the survey cannot be taken.
#[derive(Clone, Copy, Debug, PartialEq, Eq, Structural)]
pub enum LoadError {
    /// The map node with this identifier has no revision counter.
    MissingVersion { node: i64 },
    /// The map node with this identifier carries a key twice.
    DuplicateTagKey { node: i64 },
    /// A survey height in feet is too large to be held in metres.
    ElevationOutOfRange,
}

} // verus!

//! Error type for the supercluster crate.

use vstd::prelude::*;

verus! {

/// The errors that index queries can report.
#[derive(Clone, Copy, Debug, PartialEq, Eq, Structural)]
pub enum SuperclusterError {
    /// Cluster not found with the specified ID.
    ClusterNotFound,

    /// Tree not found at the specified zoom level.
    TreeNotFound,

    /// Tile not found at the specified coordinates and zoom level.
    TileNotFound,
}

} // verus!

//! A point-clustering index: it precomputes a hierarchy of clusters across
//! discrete zoom levels so that a map viewer can fetch the clusters and points
//! that intersect a bounding box or a tile, and can walk the cluster tree, in
//! near-constant time.
//!
//! All coordinates are held as fixed-point numbers: a value `v` stands for the
//! real number `v / 2^32`, so the normalized unit square spans `0 ..= COORD_ONE`
//! on each axis.  Callers project their input into that square (for longitude
//! the exact conversion lives here; see [`fixed`]) and hand the index plain
//! integer coordinates.

pub mod builder;
pub mod error;
pub mod fixed;
pub mod kdbush;
pub mod range;
pub mod store;
pub mod supercluster;

pub use builder::{SuperclusterBuilder, SuperclusterOptions};
pub use error::SuperclusterError;
pub use kdbush::KDBush;
pub use range::DataRange;
pub use store::StoreRow;
pub use supercluster::{
    ClusterFeature, ClusterMetadata, CoordinateSystem, FeatureData, InputPoint, Supercluster,
    Tile, TileContent, TileFeature,
};

//! Builder for the supercluster configuration settings.

use crate::supercluster::CoordinateSystem;
use vstd::prelude::*;

verus! {

/// Supercluster configuration options.
///
/// `radius` and `extent` are pixel counts; zoom levels and `min_points` are
/// small integers.  A well-formed set of options (see [`Self::wf`]) keeps
/// `min_zoom <= max_zoom <= 30`, so that a cluster id can carry its origin
/// zoom in five bits.
#[derive(Clone, Debug)]
pub struct SuperclusterOptions {
    /// Minimal zoom level to generate clusters on.
    pub min_zoom: u8,

    /// Maximal zoom level to cluster the points on.
    pub max_zoom: u8,

    /// Minimum points to form a cluster.
    pub min_points: u8,

    /// Cluster radius, in pixels.
    pub radius: u32,

    /// Tile extent in pixels (radius is calculated relative to it).
    pub extent: u32,

    /// Size of the KD-tree leaf node, affects performance.
    pub node_size: usize,

    /// Type of coordinate system for clustering.
    pub coordinate_system: CoordinateSystem,
}

impl SuperclusterOptions {
    /// The option domains: zooms within `0..=30` and ordered, at least two
    /// points to a cluster, positive pixel sizes, a positive leaf size, and a
    /// well-formed data range in cartesian mode.
    pub open spec fn wf(self) -> bool {
        &&& self.min_zoom <= self.max_zoom <= 30
        &&& 2 <= self.min_points
        &&& 1 <= self.radius <= 0x10000
        &&& 1 <= self.extent <= 0x10000
        &&& 1 <= self.node_size
        &&& self.coordinate_system.wf()
    }
}

/// Supercluster configuration options builder.
#[derive(Clone, Debug)]
pub struct SuperclusterBuilder {
    /// Minimal zoom level to generate clusters on, or the default 0.
    pub min_zoom: Option<u8>,

    /// Maximal zoom level to cluster the points on, or the default 16.
    pub max_zoom: Option<u8>,

    /// Minimum points to form a cluster, or the default 2.
    pub min_points: Option<u8>,

    /// Cluster radius in pixels, or the default 40.
    pub radius: Option<u32>,

    /// Tile extent in pixels, or the default 512.
    pub extent: Option<u32>,

    /// Size of the KD-tree leaf node, or the default 64.
    pub node_size: Option<usize>,

    /// Type of coordinate system for clustering, or the default
    /// latitude/longitude mode.
    pub coordinate_system: Option<CoordinateSystem>,
}

impl Default for SuperclusterBuilder {
    /// A builder with every option unset.
    fn default() -> (r: Self)
        ensures
            r.min_zoom is None,
            r.max_zoom is None,
            r.min_points is None,
            r.radius is None,
            r.extent is None,
            r.node_size is None,
            r.coordinate_system is None,
    {
        SuperclusterBuilder {
            min_zoom: Option::None,
            max_zoom: Option::None,
            min_points: Option::None,
            radius: Option::None,
            extent: Option::None,
            node_size: Option::None,
            coordinate_system: Option::None,
        }
    }
}

impl SuperclusterBuilder {
    /// Create a new supercluster options builder with every option unset.
    pub fn new() -> (r: Self)
        ensures
            r.min_zoom is None,
            r.max_zoom is None,
            r.min_points is None,
            r.radius is None,
            r.extent is None,
            r.node_size is None,
            r.coordinate_system is None,
    {
        Self::default()
    }

    /// Set the minimal zoom level to generate clusters on.
    pub fn min_zoom(self, min_zoom: u8) -> (r: Self)
        ensures
            r == (SuperclusterBuilder { min_zoom: Option::Some(min_zoom), ..self }),
    {
        SuperclusterBuilder { min_zoom: Option::Some(min_zoom), ..self }
    }

    /// Set the maximal zoom level to cluster the points on.
    pub fn max_zoom(self, max_zoom: u8) -> (r: Self)
        ensures
            r == (SuperclusterBuilder { max_zoom: Option::Some(max_zoom), ..self }),
    {
        SuperclusterBuilder { max_zoom: Option::Some(max_zoom), ..self }
    }

    /// Set the minimum points to form a cluster.
    pub fn min_points(self, min_points: u8) -> (r: Self)
        ensures
            r == (SuperclusterBuilder { min_points: Option::Some(min_points), ..self }),
    {
        SuperclusterBuilder { min_points: Option::Some(min_points), ..self }
    }

    /// Set the cluster radius in pixels.
    pub fn radius(self, radius: u32) -> (r: Self)
        ensures
            r == (SuperclusterBuilder { radius: Option::Some(radius), ..self }),
    {
        SuperclusterBuilder { radius: Option::Some(radius), ..self }
    }

    /// Set the tile extent in pixels (radius is calculated relative to it).
    pub fn extent(self, extent: u32) -> (r: Self)
        ensures
            r == (SuperclusterBuilder { extent: Option::Some(extent), ..self }),
    {
        SuperclusterBuilder { extent: Option::Some(extent), ..self }
    }

    /// Set the size of the KD-tree leaf node.
    pub fn node_size(self, node_size: usize) -> (r: Self)
        ensures
            r == (SuperclusterBuilder { node_size: Option::Some(node_size), ..self }),
    {
        SuperclusterBuilder { node_size: Option::Some(node_size), ..self }
    }

    /// Set the type of coordinate system for clustering.
    pub fn coordinate_system(self, coordinate_system: CoordinateSystem) -> (r: Self)
        ensures
            r == (SuperclusterBuilder {
                coordinate_system: Option::Some(coordinate_system),
                ..self
            }),
    {
        SuperclusterBuilder { coordinate_system: Option::Some(coordinate_system), ..self }
    }

    /// Build the supercluster options, filling every unset option with its
    /// default.
    pub fn build(self) -> (r: SuperclusterOptions)
        ensures
            r.min_zoom == self.min_zoom.unwrap_or(0),
            r.max_zoom == self.max_zoom.unwrap_or(16),
            r.min_points == self.min_points.unwrap_or(2),
            r.radius == self.radius.unwrap_or(40),
            r.extent == self.extent.unwrap_or(512),
            r.node_size == self.node_size.unwrap_or(64),
            r.coordinate_system == self.coordinate_system.unwrap_or(CoordinateSystem::LatLng),
    {
        SuperclusterOptions {
            min_zoom: match self.min_zoom {
                Option::Some(v) => v,
                Option::None => 0,
            },
            max_zoom: match self.max_zoom {
                Option::Some(v) => v,
                Option::None => 16,
            },
            min_points: match self.min_points {
                Option::Some(v) => v,
                Option::None => 2,
            },
            radius: match self.radius {
                Option::Some(v) => v,
                Option::None => 40,
            },
            extent: match self.extent {
                Option::Some(v) => v,
                Option::None => 512,
            },
            node_size: match self.node_size {
                Option::Some(v) => v,
                Option::None => 64,
            },
            coordinate_system: match self.coordinate_system {
                Option::Some(v) => v,
                Option::None => CoordinateSystem::LatLng,
            },
        }
    }
}

} // verus!

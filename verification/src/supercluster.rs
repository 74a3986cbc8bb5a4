//! The core clustering index: configuration, loading, and the query surface.
//!
//! Every pass of the hierarchical clusterer is specified by a functional
//! model ([`cluster_model`]): the executable pass is proved to return exactly
//! what the model says, which pins the whole index down as a function of the
//! loaded points and makes loading deterministic.

use crate::builder::{SuperclusterBuilder, SuperclusterOptions};
use crate::fixed::{two_pow, COORD_HALF, COORD_ONE};
use crate::kdbush::{box_row_ids, disk_row_ids, row_in_box, row_in_disk, sel_ids_upto, KDBush};
use crate::range::DataRange;
use crate::store::{total_weight, StoreRow, MAX_POINTS, ZOOM_UNVISITED};
use vstd::arithmetic::div_mod::{
    lemma_div_is_ordered, lemma_fundamental_div_mod, lemma_fundamental_div_mod_converse,
};
use vstd::prelude::*;

verus! {

/// Coordinate system for clustering.
/// The coordinate system is used to determine the range of the incoming data.
#[derive(Clone, Debug, PartialEq)]
pub enum CoordinateSystem {
    /// Latitude and longitude coordinates. Used for geo-spatial data.
    LatLng,

    /// Cartesian coordinates. Used for non-geospatial (i.e. microscopy,
    /// etc.) data.
    Cartesian {
        /// The range of the incoming data if choosing the cartesian
        /// coordinate system.
        range: DataRange,
    },
}

impl CoordinateSystem {
    /// A well-formed coordinate system: in cartesian mode the range itself
    /// must be well-formed.
    pub open spec fn wf(self) -> bool {
        match self {
            CoordinateSystem::LatLng => true,
            CoordinateSystem::Cartesian { range } => range.wf(),
        }
    }
}

/// One input point, already projected into the normalized unit square
/// (fixed point; see [`crate::fixed`]).
#[derive(Clone, Copy, Debug, PartialEq, Eq, Structural)]
pub struct InputPoint {
    /// Normalized x in the unit square.
    pub x: i64,

    /// Normalized y in the unit square.
    pub y: i64,
}

/// A spatial clustering configuration and data structure.
///
/// `trees` holds one KD-tree per zoom level, in descending zoom order:
/// `trees[0]` indexes the store at `max_zoom + 1` and `trees[j]` the store
/// at `max_zoom + 1 - j`, down to `min_zoom`.
pub struct Supercluster {
    /// Configuration settings.
    pub options: SuperclusterOptions,

    /// The per-zoom KD-trees, in descending zoom order; empty before a load.
    pub trees: Vec<KDBush>,

    /// Input data points, as loaded; entries that were not points are kept
    /// as `None` so that indices line up with the caller's feature list.
    pub points: Vec<Option<InputPoint>>,
}

// ---------------------------------------------------------------------------
// Projection: the exact (affine) part of the spherical-mercator conversion.
// ---------------------------------------------------------------------------

/// Convert a longitude (fixed-point degrees) to its normalized x in the unit
/// square: `lng / 360 + 1/2`, floored at the fixed-point granularity.
pub open spec fn lng_to_norm(lng: int) -> int {
    lng / 360 + COORD_HALF
}

/// Convert a longitude, held as fixed-point degrees, to spherical mercator in
/// the unit square.
pub fn convert_longitude_to_spherical_mercator(lng: i64) -> (nx: i64)
    requires
        -0x2000_0000_0000_0000 <= lng <= 0x2000_0000_0000_0000,
    ensures
        nx == lng_to_norm(lng as int),
{
    let q = crate::fixed::div_floor(lng as i128, 360);
    proof {
        crate::fixed::lemma_div_floor_bounds(lng as int, 360);
    }
    (q as i64) + COORD_HALF
}

/// Convert a normalized x back to a longitude in fixed-point degrees:
/// `(nx - 1/2) * 360`, exactly.
pub open spec fn norm_to_lng(nx: int) -> int {
    (nx - COORD_HALF) * 360
}

/// Convert a normalized x in the unit square back to a longitude held as
/// fixed-point degrees.
pub fn convert_spherical_mercator_to_longitude(nx: i64) -> (lng: i64)
    requires
        -0x10_0000_0000 <= nx <= 0x10_0000_0000,
    ensures
        lng == norm_to_lng(nx as int),
{
    (nx - COORD_HALF) * 360
}

/// The longitude conversion inverts exactly on the fixed-point grid.
pub proof fn lemma_longitude_round_trip(nx: int)
    ensures
        lng_to_norm(norm_to_lng(nx)) == nx,
{
    let lng = (nx - COORD_HALF) * 360;
    assert(lng / 360 == nx - COORD_HALF) by (nonlinear_arith)
        requires
            lng == (nx - COORD_HALF) * 360,
    ;
}

// ---------------------------------------------------------------------------
// Cluster-id codec.
// ---------------------------------------------------------------------------

/// Pack an origin row and the zoom of the pass that formed the cluster into
/// a single id, offset past the input-feature indices.
pub open spec fn encode_cluster_id(row: int, zoom: int, n_feat: int) -> int {
    row * 32 + zoom + 1 + n_feat
}

/// The origin row packed into a cluster id.
pub open spec fn origin_row_of(cluster_id: int, n_feat: int) -> int {
    (cluster_id - n_feat) / 32
}

/// The origin zoom packed into a cluster id: the zoom level of the store
/// that holds the cluster's children.
pub open spec fn origin_zoom_of(cluster_id: int, n_feat: int) -> int {
    (cluster_id - n_feat) % 32
}

/// Encoding then decoding gives back the origin row, and an origin zoom one
/// above the pass zoom.
pub proof fn lemma_cluster_id_codec(row: int, zoom: int, n_feat: int)
    requires
        0 <= row,
        0 <= zoom <= 30,
        0 <= n_feat,
    ensures
        origin_row_of(encode_cluster_id(row, zoom, n_feat), n_feat) == row,
        origin_zoom_of(encode_cluster_id(row, zoom, n_feat), n_feat) == zoom + 1,
        encode_cluster_id(row, zoom, n_feat) >= n_feat,
{
    lemma_fundamental_div_mod_converse(row * 32 + zoom + 1, 32, row, zoom + 1);
    assert(row * 32 >= 0) by (nonlinear_arith)
        requires
            row >= 0,
    ;
}

// ---------------------------------------------------------------------------
// The functional model of one clustering pass.
// ---------------------------------------------------------------------------

/// A store that pass `z` may consume: every row still unvisited below `z`,
/// no parents assigned yet, positive weights, coordinates in the unit
/// square.
pub open spec fn store_ready(rows: Seq<StoreRow>, z: int) -> bool {
    forall|i: int|
        0 <= i < rows.len() ==> (#[trigger] rows[i]).zoom_processed > z && rows[i].parent_id
            is None && rows[i].weight >= 1 && rows[i].in_unit()
}

/// The fixed clustering radius of pass `z`, in normalized units:
/// `radius / (extent * 2^z)`, floored at the fixed-point granularity.
pub open spec fn zoom_radius_spec(opts: SuperclusterOptions, z: int) -> int {
    ((opts.radius as int) * (COORD_ONE as int)) / ((opts.extent as int) * two_pow(z as nat))
}

/// A row stamped as visited at zoom `z`.
pub open spec fn stamp_row(row: StoreRow, z: u8) -> StoreRow {
    StoreRow { zoom_processed: z as u32, ..row }
}

/// A row absorbed into the cluster `id` at zoom `z`.
pub open spec fn absorb_row(row: StoreRow, z: u8, id: usize) -> StoreRow {
    StoreRow { zoom_processed: z as u32, parent_id: Option::Some(id), ..row }
}

/// The summed weight of the still-unvisited rows among the first `j`
/// neighbors.
pub open spec fn nbr_weight_sum(d1: Seq<StoreRow>, nbrs: Seq<usize>, z: u8, j: int) -> int
    decreases j,
{
    if j <= 0 {
        0
    } else {
        nbr_weight_sum(d1, nbrs, z, j - 1) + (if d1[nbrs[j - 1] as int].zoom_processed > z {
            d1[nbrs[j - 1] as int].weight as int
        } else {
            0
        })
    }
}

/// The weighted x sum of the still-unvisited rows among the first `j`
/// neighbors.
pub open spec fn nbr_wx_sum(d1: Seq<StoreRow>, nbrs: Seq<usize>, z: u8, j: int) -> int
    decreases j,
{
    if j <= 0 {
        0
    } else {
        nbr_wx_sum(d1, nbrs, z, j - 1) + (if d1[nbrs[j - 1] as int].zoom_processed > z {
            (d1[nbrs[j - 1] as int].weight as int) * (d1[nbrs[j - 1] as int].x as int)
        } else {
            0
        })
    }
}

/// The weighted y sum of the still-unvisited rows among the first `j`
/// neighbors.
pub open spec fn nbr_wy_sum(d1: Seq<StoreRow>, nbrs: Seq<usize>, z: u8, j: int) -> int
    decreases j,
{
    if j <= 0 {
        0
    } else {
        nbr_wy_sum(d1, nbrs, z, j - 1) + (if d1[nbrs[j - 1] as int].zoom_processed > z {
            (d1[nbrs[j - 1] as int].weight as int) * (d1[nbrs[j - 1] as int].y as int)
        } else {
            0
        })
    }
}

/// The store after absorbing the still-unvisited rows among the first `j`
/// neighbors into cluster `id`.
pub open spec fn absorb_nbrs(
    d1: Seq<StoreRow>,
    nbrs: Seq<usize>,
    z: u8,
    id: usize,
    j: int,
) -> Seq<StoreRow>
    decreases j,
{
    if j <= 0 {
        d1
    } else {
        let d = absorb_nbrs(d1, nbrs, z, id, j - 1);
        let k = nbrs[j - 1] as int;
        if d1[k].zoom_processed > z {
            d.update(k, absorb_row(d1[k], z, id))
        } else {
            d
        }
    }
}

/// The store after stamping the still-unvisited rows among the first `j`
/// neighbors as visited (the carry-over branch).
pub open spec fn stamp_nbrs(d1: Seq<StoreRow>, nbrs: Seq<usize>, z: u8, j: int) -> Seq<StoreRow>
    decreases j,
{
    if j <= 0 {
        d1
    } else {
        let d = stamp_nbrs(d1, nbrs, z, j - 1);
        let k = nbrs[j - 1] as int;
        if d1[k].zoom_processed > z {
            d.update(k, stamp_row(d1[k], z))
        } else {
            d
        }
    }
}

/// The stamped copies of the still-unvisited rows among the first `j`
/// neighbors, in neighbor order (the carry-over branch).
pub open spec fn copied_rows(d1: Seq<StoreRow>, nbrs: Seq<usize>, z: u8, j: int) -> Seq<StoreRow>
    decreases j,
{
    if j <= 0 {
        Seq::empty()
    } else {
        copied_rows(d1, nbrs, z, j - 1) + (if d1[nbrs[j - 1] as int].zoom_processed > z {
            seq![stamp_row(d1[nbrs[j - 1] as int], z)]
        } else {
            Seq::empty()
        })
    }
}

/// One step of the clustering pass at seed row `i`: skip visited seeds;
/// otherwise stamp the seed, gather its still-unvisited neighbors within
/// the pass radius, and either form a cluster from them or carry them over.
pub open spec fn cluster_step(
    data: Seq<StoreRow>,
    next: Seq<StoreRow>,
    i: int,
    z: u8,
    n_feat: int,
    min_points: int,
    rr: int,
) -> (Seq<StoreRow>, Seq<StoreRow>) {
    if data[i].zoom_processed <= z {
        (data, next)
    } else {
        let d1 = data.update(i, stamp_row(data[i], z));
        let nbrs = disk_row_ids(d1, data[i].x as int, data[i].y as int, rr);
        let w0 = data[i].weight as int;
        let wsum = w0 + nbr_weight_sum(d1, nbrs, z, nbrs.len() as int);
        if wsum > w0 && wsum >= min_points {
            let id = encode_cluster_id(i, z as int, n_feat);
            let wx = w0 * (data[i].x as int) + nbr_wx_sum(d1, nbrs, z, nbrs.len() as int);
            let wy = w0 * (data[i].y as int) + nbr_wy_sum(d1, nbrs, z, nbrs.len() as int);
            let d2 = absorb_nbrs(d1, nbrs, z, id as usize, nbrs.len() as int);
            let d3 = d2.update(
                i,
                (StoreRow { parent_id: Option::Some(id as usize), ..d2[i] }),
            );
            let cluster_row = (StoreRow {
                x: (wx / wsum) as i64,
                y: (wy / wsum) as i64,
                zoom_processed: ZOOM_UNVISITED,
                id_or_index: id as usize,
                parent_id: Option::None,
                weight: wsum as u64,
            });
            (d3, next.push(cluster_row))
        } else if wsum > 1 {
            (stamp_nbrs(d1, nbrs, z, nbrs.len() as int), next.push(d1[i]) + copied_rows(
                d1,
                nbrs,
                z,
                nbrs.len() as int,
            ))
        } else {
            (d1, next.push(d1[i]))
        }
    }
}

/// The pass state after the first `i` seed rows.
pub open spec fn cluster_upto(
    rows0: Seq<StoreRow>,
    z: u8,
    n_feat: int,
    min_points: int,
    rr: int,
    i: int,
) -> (Seq<StoreRow>, Seq<StoreRow>)
    decreases i,
{
    if i <= 0 {
        (rows0, Seq::empty())
    } else {
        let (d, nx) = cluster_upto(rows0, z, n_feat, min_points, rr, i - 1);
        cluster_step(d, nx, i - 1, z, n_feat, min_points, rr)
    }
}

/// The full pass over a store: the stamped store (which stays at its zoom
/// level) and the freshly built next store.
pub open spec fn cluster_model(
    rows0: Seq<StoreRow>,
    z: u8,
    n_feat: int,
    min_points: int,
    rr: int,
) -> (Seq<StoreRow>, Seq<StoreRow>) {
    cluster_upto(rows0, z, n_feat, min_points, rr, rows0.len() as int)
}

// ---------------------------------------------------------------------------
// Facts about the model folds.
// ---------------------------------------------------------------------------

/// Each row's weight is bounded by the store's total weight.
pub proof fn lemma_row_weight_le_total(rows: Seq<StoreRow>, k: int)
    requires
        0 <= k < rows.len(),
    ensures
        rows[k].weight <= total_weight(rows),
    decreases rows.len(),
{
    if k + 1 < rows.len() {
        lemma_row_weight_le_total(rows.drop_last(), k);
    } else {
        crate::store::lemma_total_weight_nonneg(rows.drop_last());
    }
}

/// The absorb fold touches exactly the listed still-unvisited neighbors and
/// nothing else.
pub proof fn lemma_absorb_nbrs_props(d1: Seq<StoreRow>, nbrs: Seq<usize>, z: u8, id: usize, j: int)
    requires
        0 <= j <= nbrs.len(),
        forall|a: int| 0 <= a < nbrs.len() ==> (#[trigger] nbrs[a]) < d1.len(),
        forall|a: int, b: int| 0 <= a < b < nbrs.len() ==> nbrs[a] < nbrs[b],
    ensures
        absorb_nbrs(d1, nbrs, z, id, j).len() == d1.len(),
        forall|t: int|
            0 <= t < d1.len() && (forall|u: int| 0 <= u < j ==> (#[trigger] nbrs[u]) as int != t)
                ==> absorb_nbrs(d1, nbrs, z, id, j)[t] == d1[t],
        forall|u: int|
            0 <= u < j ==> absorb_nbrs(d1, nbrs, z, id, j)[(#[trigger] nbrs[u]) as int] == (
            if d1[nbrs[u] as int].zoom_processed > z {
                absorb_row(d1[nbrs[u] as int], z, id)
            } else {
                d1[nbrs[u] as int]
            }),
    decreases j,
{
    if j > 0 {
        lemma_absorb_nbrs_props(d1, nbrs, z, id, j - 1);
        assert forall|u: int|
            0 <= u < j implies absorb_nbrs(d1, nbrs, z, id, j)[(#[trigger] nbrs[u]) as int] == (
            if d1[nbrs[u] as int].zoom_processed > z {
                absorb_row(d1[nbrs[u] as int], z, id)
            } else {
                d1[nbrs[u] as int]
            }) by {
            if u < j - 1 {
                assert(nbrs[u] < nbrs[j - 1]);
            }
        }
    }
}

/// The stamp fold touches exactly the listed still-unvisited neighbors and
/// nothing else.
pub proof fn lemma_stamp_nbrs_props(d1: Seq<StoreRow>, nbrs: Seq<usize>, z: u8, j: int)
    requires
        0 <= j <= nbrs.len(),
        forall|a: int| 0 <= a < nbrs.len() ==> (#[trigger] nbrs[a]) < d1.len(),
        forall|a: int, b: int| 0 <= a < b < nbrs.len() ==> nbrs[a] < nbrs[b],
    ensures
        stamp_nbrs(d1, nbrs, z, j).len() == d1.len(),
        forall|t: int|
            0 <= t < d1.len() && (forall|u: int| 0 <= u < j ==> (#[trigger] nbrs[u]) as int != t)
                ==> stamp_nbrs(d1, nbrs, z, j)[t] == d1[t],
        forall|u: int|
            0 <= u < j ==> stamp_nbrs(d1, nbrs, z, j)[(#[trigger] nbrs[u]) as int] == (
            if d1[nbrs[u] as int].zoom_processed > z {
                stamp_row(d1[nbrs[u] as int], z)
            } else {
                d1[nbrs[u] as int]
            }),
    decreases j,
{
    if j > 0 {
        lemma_stamp_nbrs_props(d1, nbrs, z, j - 1);
        assert forall|u: int|
            0 <= u < j implies stamp_nbrs(d1, nbrs, z, j)[(#[trigger] nbrs[u]) as int] == (
            if d1[nbrs[u] as int].zoom_processed > z {
                stamp_row(d1[nbrs[u] as int], z)
            } else {
                d1[nbrs[u] as int]
            }) by {
            if u < j - 1 {
                assert(nbrs[u] < nbrs[j - 1]);
            }
        }
    }
}

/// The neighbor sums are non-negative, grow with `j`, and the coordinate
/// sums stay below the weight sum scaled by one unit.
pub proof fn lemma_nbr_sums_bounds(d1: Seq<StoreRow>, nbrs: Seq<usize>, z: u8, j: int)
    requires
        0 <= j <= nbrs.len(),
        forall|a: int| 0 <= a < nbrs.len() ==> (#[trigger] nbrs[a]) < d1.len(),
        forall|t: int| 0 <= t < d1.len() ==> (#[trigger] d1[t]).in_unit(),
    ensures
        0 <= nbr_weight_sum(d1, nbrs, z, j),
        0 <= nbr_wx_sum(d1, nbrs, z, j) <= nbr_weight_sum(d1, nbrs, z, j) * (COORD_ONE as int),
        0 <= nbr_wy_sum(d1, nbrs, z, j) <= nbr_weight_sum(d1, nbrs, z, j) * (COORD_ONE as int),
    decreases j,
{
    if j > 0 {
        lemma_nbr_sums_bounds(d1, nbrs, z, j - 1);
        let k = nbrs[j - 1] as int;
        if d1[k].zoom_processed > z {
            let w = d1[k].weight as int;
            let s = nbr_weight_sum(d1, nbrs, z, j - 1);
            assert(0 <= w * (d1[k].x as int) <= w * (COORD_ONE as int) && 0 <= w * (
            d1[k].y as int) <= w * (COORD_ONE as int)) by (nonlinear_arith)
                requires
                    0 <= w,
                    0 <= d1[k].x <= COORD_ONE,
                    0 <= d1[k].y <= COORD_ONE,
            ;
            assert((s + w) * (COORD_ONE as int) == s * (COORD_ONE as int) + w * (COORD_ONE as int))
                by (nonlinear_arith);
        }
    }
}

/// The data side of the pass keeps every row's coordinates, weight and id:
/// only visit stamps and parent assignments change.
pub proof fn lemma_cluster_upto_frame(
    rows0: Seq<StoreRow>,
    z: u8,
    n_feat: int,
    min_points: int,
    rr: int,
    i: int,
)
    requires
        0 <= i <= rows0.len(),
        rows0.len() <= MAX_POINTS,
    ensures
        cluster_upto(rows0, z, n_feat, min_points, rr, i).0.len() == rows0.len(),
        forall|t: int|
            0 <= t < rows0.len() ==> (#[trigger] cluster_upto(
                rows0,
                z,
                n_feat,
                min_points,
                rr,
                i,
            ).0[t]).x == rows0[t].x && cluster_upto(rows0, z, n_feat, min_points, rr, i).0[t].y
                == rows0[t].y && cluster_upto(rows0, z, n_feat, min_points, rr, i).0[t].weight
                == rows0[t].weight && cluster_upto(rows0, z, n_feat, min_points, rr, i).0[t].id_or_index
                == rows0[t].id_or_index,
    decreases i,
{
    if i > 0 {
        lemma_cluster_upto_frame(rows0, z, n_feat, min_points, rr, i - 1);
        let (d, nx) = cluster_upto(rows0, z, n_feat, min_points, rr, i - 1);
        if d[i - 1].zoom_processed > z {
            let d1 = d.update(i - 1, stamp_row(d[i - 1], z));
            let nbrs = disk_row_ids(d1, d[i - 1].x as int, d[i - 1].y as int, rr);
            crate::kdbush::lemma_disk_row_ids_props(
                d1,
                d[i - 1].x as int,
                d[i - 1].y as int,
                rr,
            );
            let w0 = d[i - 1].weight as int;
            let wsum = w0 + nbr_weight_sum(d1, nbrs, z, nbrs.len() as int);
            if wsum > w0 && wsum >= min_points {
                let id = encode_cluster_id(i - 1, z as int, n_feat);
                lemma_absorb_nbrs_props(d1, nbrs, z, id as usize, nbrs.len() as int);
                let d2 = absorb_nbrs(d1, nbrs, z, id as usize, nbrs.len() as int);
                assert forall|t: int|
                    0 <= t < rows0.len() implies (#[trigger] d2[t]).x == d1[t].x && d2[t].y
                    == d1[t].y && d2[t].weight == d1[t].weight && d2[t].id_or_index
                    == d1[t].id_or_index by {
                    if exists|u: int| 0 <= u < nbrs.len() && (#[trigger] nbrs[u]) as int == t {
                    } else {
                        assert(forall|u: int|
                            0 <= u < nbrs.len() ==> (#[trigger] nbrs[u]) as int != t);
                    }
                }
            } else if wsum > 1 {
                lemma_stamp_nbrs_props(d1, nbrs, z, nbrs.len() as int);
                let d2 = stamp_nbrs(d1, nbrs, z, nbrs.len() as int);
                assert forall|t: int|
                    0 <= t < rows0.len() implies (#[trigger] d2[t]).x == d1[t].x && d2[t].y
                    == d1[t].y && d2[t].weight == d1[t].weight && d2[t].id_or_index
                    == d1[t].id_or_index by {
                    if exists|u: int| 0 <= u < nbrs.len() && (#[trigger] nbrs[u]) as int == t {
                    } else {
                        assert(forall|u: int|
                            0 <= u < nbrs.len() ==> (#[trigger] nbrs[u]) as int != t);
                    }
                }
            }
        }
    }
}

// ---------------------------------------------------------------------------
// Accounting over the pass: weights are conserved, rows never multiply.
// ---------------------------------------------------------------------------

/// The summed weight of the rows still unvisited below `z`.
pub open spec fn unvisited_weight(rows: Seq<StoreRow>, z: int) -> int
    decreases rows.len(),
{
    if rows.len() == 0 {
        0
    } else {
        unvisited_weight(rows.drop_last(), z) + (if rows.last().zoom_processed > z {
            rows.last().weight as int
        } else {
            0
        })
    }
}

/// The number of rows still unvisited below `z`.
pub open spec fn unvisited_count(rows: Seq<StoreRow>, z: int) -> int
    decreases rows.len(),
{
    if rows.len() == 0 {
        0
    } else {
        unvisited_count(rows.drop_last(), z) + (if rows.last().zoom_processed > z {
            1int
        } else {
            0
        })
    }
}

/// The per-row contribution to [`unvisited_weight`].
pub open spec fn row_contrib(row: StoreRow, z: int) -> int {
    if row.zoom_processed > z {
        row.weight as int
    } else {
        0
    }
}

/// The per-row contribution to [`unvisited_count`].
pub open spec fn row_contrib_count(row: StoreRow, z: int) -> int {
    if row.zoom_processed > z {
        1
    } else {
        0
    }
}

/// Updating one row shifts the unvisited sums by the contribution change.
proof fn lemma_unvisited_update(rows: Seq<StoreRow>, z: int, k: int, r2: StoreRow)
    requires
        0 <= k < rows.len(),
    ensures
        unvisited_weight(rows.update(k, r2), z) == unvisited_weight(rows, z) - row_contrib(
            rows[k],
            z,
        ) + row_contrib(r2, z),
        unvisited_count(rows.update(k, r2), z) == unvisited_count(rows, z) - row_contrib_count(
            rows[k],
            z,
        ) + row_contrib_count(r2, z),
    decreases rows.len(),
{
    if k + 1 < rows.len() {
        lemma_unvisited_update(rows.drop_last(), z, k, r2);
        assert(rows.update(k, r2).drop_last() =~= rows.drop_last().update(k, r2));
        assert(rows.update(k, r2).last() == rows.last());
    } else {
        assert(rows.update(k, r2).drop_last() =~= rows.drop_last());
        assert(rows.update(k, r2).last() == r2);
    }
}

/// Unvisited totals over a fully unvisited store are the full totals.
proof fn lemma_unvisited_full(rows: Seq<StoreRow>, z: int)
    requires
        forall|t: int| 0 <= t < rows.len() ==> (#[trigger] rows[t]).zoom_processed > z,
    ensures
        unvisited_weight(rows, z) == total_weight(rows),
        unvisited_count(rows, z) == rows.len(),
    decreases rows.len(),
{
    if rows.len() > 0 {
        lemma_unvisited_full(rows.drop_last(), z);
    }
}

/// Unvisited totals over a fully visited store are zero.
proof fn lemma_unvisited_none(rows: Seq<StoreRow>, z: int)
    requires
        forall|t: int| 0 <= t < rows.len() ==> (#[trigger] rows[t]).zoom_processed <= z,
    ensures
        unvisited_weight(rows, z) == 0,
        unvisited_count(rows, z) == 0,
    decreases rows.len(),
{
    if rows.len() > 0 {
        lemma_unvisited_none(rows.drop_last(), z);
    }
}

/// The unvisited totals are non-negative and bounded by the full totals.
proof fn lemma_unvisited_bounds(rows: Seq<StoreRow>, z: int)
    ensures
        0 <= unvisited_weight(rows, z) <= total_weight(rows),
        0 <= unvisited_count(rows, z) <= rows.len(),
    decreases rows.len(),
{
    if rows.len() > 0 {
        lemma_unvisited_bounds(rows.drop_last(), z);
    }
}

/// Absorbing the first `j` neighbors removes exactly their summed weight
/// and count from the unvisited totals.
proof fn lemma_absorb_unvisited(d1: Seq<StoreRow>, nbrs: Seq<usize>, z: u8, id: usize, j: int)
    requires
        0 <= j <= nbrs.len(),
        forall|a: int| 0 <= a < nbrs.len() ==> (#[trigger] nbrs[a]) < d1.len(),
        forall|a: int, b: int| 0 <= a < b < nbrs.len() ==> nbrs[a] < nbrs[b],
    ensures
        unvisited_weight(absorb_nbrs(d1, nbrs, z, id, j), z as int) == unvisited_weight(
            d1,
            z as int,
        ) - nbr_weight_sum(d1, nbrs, z, j),
        unvisited_count(absorb_nbrs(d1, nbrs, z, id, j), z as int) == unvisited_count(
            d1,
            z as int,
        ) - nbr_count_sum(d1, nbrs, z, j),
    decreases j,
{
    if j > 0 {
        lemma_absorb_unvisited(d1, nbrs, z, id, j - 1);
        lemma_absorb_nbrs_props(d1, nbrs, z, id, j - 1);
        let d = absorb_nbrs(d1, nbrs, z, id, j - 1);
        let k = nbrs[j - 1] as int;
        if d1[k].zoom_processed > z {
            assert forall|u: int| 0 <= u < j - 1 implies (#[trigger] nbrs[u]) as int != k by {
                assert(nbrs[u] < nbrs[j - 1]);
            }
            assert(d[k] == d1[k]);
            lemma_unvisited_update(d, z as int, k, absorb_row(d1[k], z, id));
        }
    }
}

/// The number of still-unvisited rows among the first `j` neighbors.
pub open spec fn nbr_count_sum(d1: Seq<StoreRow>, nbrs: Seq<usize>, z: u8, j: int) -> int
    decreases j,
{
    if j <= 0 {
        0
    } else {
        nbr_count_sum(d1, nbrs, z, j - 1) + (if d1[nbrs[j - 1] as int].zoom_processed > z {
            1int
        } else {
            0
        })
    }
}

/// Stamping the first `j` neighbors removes exactly their summed weight and
/// count from the unvisited totals.
proof fn lemma_stamp_unvisited(d1: Seq<StoreRow>, nbrs: Seq<usize>, z: u8, j: int)
    requires
        0 <= j <= nbrs.len(),
        forall|a: int| 0 <= a < nbrs.len() ==> (#[trigger] nbrs[a]) < d1.len(),
        forall|a: int, b: int| 0 <= a < b < nbrs.len() ==> nbrs[a] < nbrs[b],
    ensures
        unvisited_weight(stamp_nbrs(d1, nbrs, z, j), z as int) == unvisited_weight(d1, z as int)
            - nbr_weight_sum(d1, nbrs, z, j),
        unvisited_count(stamp_nbrs(d1, nbrs, z, j), z as int) == unvisited_count(d1, z as int)
            - nbr_count_sum(d1, nbrs, z, j),
    decreases j,
{
    if j > 0 {
        lemma_stamp_unvisited(d1, nbrs, z, j - 1);
        lemma_stamp_nbrs_props(d1, nbrs, z, j - 1);
        let d = stamp_nbrs(d1, nbrs, z, j - 1);
        let k = nbrs[j - 1] as int;
        if d1[k].zoom_processed > z {
            assert forall|u: int| 0 <= u < j - 1 implies (#[trigger] nbrs[u]) as int != k by {
                assert(nbrs[u] < nbrs[j - 1]);
            }
            assert(d[k] == d1[k]);
            lemma_unvisited_update(d, z as int, k, stamp_row(d1[k], z));
        }
    }
}

/// The copied rows carry exactly the summed weight and count of the
/// still-unvisited neighbors.
proof fn lemma_copied_totals(d1: Seq<StoreRow>, nbrs: Seq<usize>, z: u8, j: int)
    requires
        0 <= j <= nbrs.len(),
        forall|a: int| 0 <= a < nbrs.len() ==> (#[trigger] nbrs[a]) < d1.len(),
    ensures
        total_weight(copied_rows(d1, nbrs, z, j)) == nbr_weight_sum(d1, nbrs, z, j),
        copied_rows(d1, nbrs, z, j).len() == nbr_count_sum(d1, nbrs, z, j),
    decreases j,
{
    if j > 0 {
        lemma_copied_totals(d1, nbrs, z, j - 1);
        let k = nbrs[j - 1] as int;
        if d1[k].zoom_processed > z {
            assert(copied_rows(d1, nbrs, z, j) =~= copied_rows(d1, nbrs, z, j - 1).push(
                stamp_row(d1[k], z),
            ));
            crate::store::lemma_total_weight_push(
                copied_rows(d1, nbrs, z, j - 1),
                stamp_row(d1[k], z),
            );
        } else {
            assert(copied_rows(d1, nbrs, z, j) =~= copied_rows(d1, nbrs, z, j - 1));
        }
    }
}

/// A positive neighbor weight sum means at least one unvisited neighbor.
proof fn lemma_nbr_sum_count_link(d1: Seq<StoreRow>, nbrs: Seq<usize>, z: u8, j: int)
    requires
        0 <= j <= nbrs.len(),
        forall|a: int| 0 <= a < nbrs.len() ==> (#[trigger] nbrs[a]) < d1.len(),
    ensures
        nbr_count_sum(d1, nbrs, z, j) == 0 ==> nbr_weight_sum(d1, nbrs, z, j) == 0,
        nbr_count_sum(d1, nbrs, z, j) >= 0,
    decreases j,
{
    if j > 0 {
        lemma_nbr_sum_count_link(d1, nbrs, z, j - 1);
    }
}

/// Over the whole pass: the next store's weight plus what is still
/// unvisited equals the original total; rows never multiply; the first `i`
/// rows end visited.
pub proof fn lemma_cluster_upto_accounting(
    rows0: Seq<StoreRow>,
    z: u8,
    nf: int,
    mp: int,
    rr: int,
    i: int,
)
    requires
        0 <= i <= rows0.len(),
        rows0.len() <= MAX_POINTS,
        total_weight(rows0) <= MAX_POINTS,
        store_ready(rows0, z as int),
    ensures
        total_weight(cluster_upto(rows0, z, nf, mp, rr, i).1) + unvisited_weight(
            cluster_upto(rows0, z, nf, mp, rr, i).0,
            z as int,
        ) == total_weight(rows0),
        cluster_upto(rows0, z, nf, mp, rr, i).1.len() + unvisited_count(
            cluster_upto(rows0, z, nf, mp, rr, i).0,
            z as int,
        ) <= rows0.len(),
        forall|t: int|
            0 <= t < i ==> (#[trigger] cluster_upto(rows0, z, nf, mp, rr, i).0[t]).zoom_processed
                <= z,
    decreases i,
{
    if i == 0 {
        assert forall|t: int|
            0 <= t < rows0.len() implies (#[trigger] rows0[t]).zoom_processed > z as int by {}
        lemma_unvisited_full(rows0, z as int);
    } else {
        lemma_cluster_upto_accounting(rows0, z, nf, mp, rr, i - 1);
        lemma_cluster_upto_frame(rows0, z, nf, mp, rr, i - 1);
        let (d, nx) = cluster_upto(rows0, z, nf, mp, rr, i - 1);
        let d9 = cluster_upto(rows0, z, nf, mp, rr, i).0;
        let nx9 = cluster_upto(rows0, z, nf, mp, rr, i).1;
        assert forall|t: int|
            0 <= t < rows0.len() implies (#[trigger] d[t]).weight == rows0[t].weight by {
            assert(cluster_upto(rows0, z, nf, mp, rr, i - 1).0[t] == d[t]);
        }
        lemma_total_weight_pointwise(d, rows0);
        crate::store::lemma_total_weight_nonneg(nx);
        lemma_unvisited_bounds(d, z as int);
        if d[i - 1].zoom_processed > z {
            let d1 = d.update(i - 1, stamp_row(d[i - 1], z));
            let nbrs = disk_row_ids(d1, d[i - 1].x as int, d[i - 1].y as int, rr);
            crate::kdbush::lemma_disk_row_ids_props(d1, d[i - 1].x as int, d[i - 1].y as int, rr);
            lemma_unvisited_update(d, z as int, i - 1, stamp_row(d[i - 1], z));
            lemma_total_weight_pointwise(d1, rows0);
            lemma_unvisited_bounds(d1, z as int);
            let w0 = d[i - 1].weight as int;
            let ws = nbr_weight_sum(d1, nbrs, z, nbrs.len() as int);
            let cs = nbr_count_sum(d1, nbrs, z, nbrs.len() as int);
            let wsum = w0 + ws;
            lemma_nbr_sum_count_link(d1, nbrs, z, nbrs.len() as int);
            lemma_row_weight_le_total(rows0, i - 1);
            assert(d[i - 1].weight == rows0[i - 1].weight) by {
                assert(cluster_upto(rows0, z, nf, mp, rr, i - 1).0[i - 1] == d[i - 1]);
            }
            if wsum > w0 && wsum >= mp {
                let id = encode_cluster_id(i - 1, z as int, nf);
                lemma_absorb_unvisited(d1, nbrs, z, id as usize, nbrs.len() as int);
                let d2 = absorb_nbrs(d1, nbrs, z, id as usize, nbrs.len() as int);
                lemma_absorb_nbrs_props(d1, nbrs, z, id as usize, nbrs.len() as int);
                lemma_unvisited_bounds(d2, z as int);
                assert(d2[i - 1] == d1[i - 1]) by {
                    if exists|u: int| 0 <= u < nbrs.len() && (#[trigger] nbrs[u]) as int == i - 1 {
                        let u = choose|u: int|
                            0 <= u < nbrs.len() && (#[trigger] nbrs[u]) as int == i - 1;
                        assert(d2[nbrs[u] as int] == d1[nbrs[u] as int]);
                    } else {
                        assert(forall|u: int|
                            0 <= u < nbrs.len() ==> (#[trigger] nbrs[u]) as int != i - 1);
                    }
                }
                let seeded = (StoreRow { parent_id: Option::Some(id as usize), ..d2[i - 1] });
                lemma_unvisited_update(d2, z as int, i - 1, seeded);
                // the new cluster row's weight is the exact sum, no truncation
                assert(0 <= ws <= unvisited_weight(d1, z as int));
                assert(w0 <= MAX_POINTS);
                assert(unvisited_weight(d1, z as int) <= total_weight(d1));
                assert(total_weight(d1) == total_weight(rows0));
                assert(wsum <= 2 * MAX_POINTS);
                let crow = nx9.last();
                assert(nx9 =~= nx.push(crow));
                crate::store::lemma_total_weight_push(nx, crow);
                assert(crow.weight == wsum);
                assert(total_weight(nx9) + unvisited_weight(d9, z as int) == total_weight(rows0));
                assert forall|t: int|
                    0 <= t < i implies (#[trigger] d9[t]).zoom_processed <= z by {
                    if t < i - 1 {
                        if exists|u: int|
                            0 <= u < nbrs.len() && (#[trigger] nbrs[u]) as int == t {
                            let u = choose|u: int|
                                0 <= u < nbrs.len() && (#[trigger] nbrs[u]) as int == t;
                            assert(d9[t] == d2[t]);
                            assert(d2[nbrs[u] as int] == (if d1[nbrs[u] as int].zoom_processed > z {
                                absorb_row(d1[nbrs[u] as int], z, id as usize)
                            } else {
                                d1[nbrs[u] as int]
                            }));
                        } else {
                            assert(forall|u: int|
                                0 <= u < nbrs.len() ==> (#[trigger] nbrs[u]) as int != t);
                            assert(d2[t] == d1[t]);
                        }
                    }
                }
            } else if wsum > 1 {
                lemma_stamp_unvisited(d1, nbrs, z, nbrs.len() as int);
                let d2 = stamp_nbrs(d1, nbrs, z, nbrs.len() as int);
                lemma_stamp_nbrs_props(d1, nbrs, z, nbrs.len() as int);
                lemma_copied_totals(d1, nbrs, z, nbrs.len() as int);
                let copies = copied_rows(d1, nbrs, z, nbrs.len() as int);
                lemma_total_weight_concat(nx.push(d1[i - 1]), copies);
                crate::store::lemma_total_weight_push(nx, d1[i - 1]);
                assert(nx9 == nx.push(d1[i - 1]) + copies);
                assert(total_weight(nx9) + unvisited_weight(d9, z as int) == total_weight(rows0));
                assert forall|t: int|
                    0 <= t < i implies (#[trigger] d9[t]).zoom_processed <= z by {
                    if t < i - 1 {
                        if exists|u: int|
                            0 <= u < nbrs.len() && (#[trigger] nbrs[u]) as int == t {
                            let u = choose|u: int|
                                0 <= u < nbrs.len() && (#[trigger] nbrs[u]) as int == t;
                            assert(d2[nbrs[u] as int] == (if d1[nbrs[u] as int].zoom_processed > z {
                                stamp_row(d1[nbrs[u] as int], z)
                            } else {
                                d1[nbrs[u] as int]
                            }));
                        } else {
                            assert(forall|u: int|
                                0 <= u < nbrs.len() ==> (#[trigger] nbrs[u]) as int != t);
                            assert(d2[t] == d1[t]);
                        }
                    }
                }
            } else {
                crate::store::lemma_total_weight_push(nx, d1[i - 1]);
                assert(nx9 =~= nx.push(d1[i - 1]));
            }
        }
    }
}

/// A next-store row that is a cluster formed by this pass: its id encodes a
/// seed row of the consumed store.
pub open spec fn fresh_cluster_of(r: StoreRow, rows0: Seq<StoreRow>, z: u8, nf: int) -> bool {
    exists|s: int|
        0 <= s < rows0.len() && r.id_or_index == encode_cluster_id(s, z as int, nf) && r.weight > 1
}

/// A next-store row carried over from the consumed store: some source row
/// has the same id and weight.
pub open spec fn carried_from(r: StoreRow, rows0: Seq<StoreRow>) -> bool {
    exists|k: int|
        0 <= k < rows0.len() && (#[trigger] rows0[k]).id_or_index == r.id_or_index
            && rows0[k].weight == r.weight && rows0[k].x == r.x && rows0[k].y == r.y
}

/// Everything a pass guarantees of each row it emits into the next store.
pub open spec fn next_row_ok(r: StoreRow, rows0: Seq<StoreRow>, z: u8, nf: int) -> bool {
    &&& r.in_unit()
    &&& r.weight >= 1
    &&& r.zoom_processed >= z
    &&& r.parent_id is None
    &&& (fresh_cluster_of(r, rows0, z, nf) || carried_from(r, rows0))
}

/// A parent assignment points at a seed of this pass, and the child lies
/// within the pass radius of that seed.
pub open spec fn parent_link_ok(
    d: Seq<StoreRow>,
    rows0: Seq<StoreRow>,
    z: u8,
    nf: int,
    rr: int,
    t: int,
) -> bool {
    d[t].parent_id matches Option::Some(c) ==> exists|s: int|
        0 <= s < rows0.len() && c == encode_cluster_id(s, z as int, nf) && row_in_disk(
            rows0[t],
            rows0[s].x as int,
            rows0[s].y as int,
            rr,
        )
}

/// Over the whole pass: every emitted row is well-formed and traceable, and
/// every parent assignment points back at its seed within the pass radius.
pub proof fn lemma_cluster_upto_ids(
    rows0: Seq<StoreRow>,
    z: u8,
    nf: int,
    mp: int,
    rr: int,
    i: int,
)
    requires
        0 <= i <= rows0.len(),
        rows0.len() <= MAX_POINTS,
        total_weight(rows0) <= MAX_POINTS,
        store_ready(rows0, z as int),
        2 <= mp,
        0 <= rr,
        z <= 30,
        0 <= nf <= MAX_POINTS,
    ensures
        forall|j: int|
            0 <= j < cluster_upto(rows0, z, nf, mp, rr, i).1.len() ==> next_row_ok(
                #[trigger] cluster_upto(rows0, z, nf, mp, rr, i).1[j],
                rows0,
                z,
                nf,
            ),
        forall|t: int|
            0 <= t < rows0.len() ==> ((#[trigger] cluster_upto(
                rows0,
                z,
                nf,
                mp,
                rr,
                i,
            ).0[t]).zoom_processed > z ==> cluster_upto(rows0, z, nf, mp, rr, i).0[t].parent_id
                is None),
        forall|t: int|
            0 <= t < rows0.len() ==> #[trigger] parent_link_ok(
                cluster_upto(rows0, z, nf, mp, rr, i).0,
                rows0,
                z,
                nf,
                rr,
                t,
            ),
    decreases i,
{
    if i == 0 {
    } else {
        lemma_cluster_upto_ids(rows0, z, nf, mp, rr, i - 1);
        lemma_cluster_upto_frame(rows0, z, nf, mp, rr, i - 1);
        let d = cluster_upto(rows0, z, nf, mp, rr, i - 1).0;
        let nx = cluster_upto(rows0, z, nf, mp, rr, i - 1).1;
        let d9 = cluster_upto(rows0, z, nf, mp, rr, i).0;
        let nx9 = cluster_upto(rows0, z, nf, mp, rr, i).1;
        assert forall|t: int|
            0 <= t < rows0.len() implies (#[trigger] d[t]).weight == rows0[t].weight && d[t].x
            == rows0[t].x && d[t].y == rows0[t].y && d[t].id_or_index
            == rows0[t].id_or_index by {
            assert(cluster_upto(rows0, z, nf, mp, rr, i - 1).0[t] == d[t]);
        }
        assert forall|t: int|
            0 <= t < rows0.len() implies parent_link_ok(d, rows0, z, nf, rr, t) by {
            assert(parent_link_ok(
                cluster_upto(rows0, z, nf, mp, rr, i - 1).0,
                rows0,
                z,
                nf,
                rr,
                t,
            ));
        }
        if d[i - 1].zoom_processed > z {
            let d1 = d.update(i - 1, stamp_row(d[i - 1], z));
            let nbrs = disk_row_ids(d1, d[i - 1].x as int, d[i - 1].y as int, rr);
            crate::kdbush::lemma_disk_row_ids_props(d1, d[i - 1].x as int, d[i - 1].y as int, rr);
            assert forall|t: int| 0 <= t < d1.len() implies (#[trigger] d1[t]).in_unit() by {
                assert(rows0[t].in_unit());
            }
            let w0 = d[i - 1].weight as int;
            let ws = nbr_weight_sum(d1, nbrs, z, nbrs.len() as int);
            let wsum = w0 + ws;
            lemma_nbr_sums_bounds(d1, nbrs, z, nbrs.len() as int);
            lemma_row_weight_le_total(rows0, i - 1);
            lemma_unvisited_update(d, z as int, i - 1, stamp_row(d[i - 1], z));
            assert forall|t: int|
                0 <= t < rows0.len() implies (#[trigger] d1[t]).weight == rows0[t].weight by {}
            lemma_total_weight_pointwise(d1, rows0);
            lemma_unvisited_bounds(d1, z as int);
            if wsum > w0 && wsum >= mp {
                let id = encode_cluster_id(i - 1, z as int, nf);
                lemma_cluster_id_codec(i - 1, z as int, nf);
                lemma_absorb_unvisited(d1, nbrs, z, id as usize, nbrs.len() as int);
                let d2 = absorb_nbrs(d1, nbrs, z, id as usize, nbrs.len() as int);
                lemma_absorb_nbrs_props(d1, nbrs, z, id as usize, nbrs.len() as int);
                lemma_unvisited_bounds(d2, z as int);
                assert(wsum <= 2 * MAX_POINTS);
                // the fresh cluster row is inside the unit square
                let wx = w0 * (d[i - 1].x as int) + nbr_wx_sum(d1, nbrs, z, nbrs.len() as int);
                let wy = w0 * (d[i - 1].y as int) + nbr_wy_sum(d1, nbrs, z, nbrs.len() as int);
                assert(0 <= wx <= wsum * (COORD_ONE as int) && 0 <= wy <= wsum * (
                COORD_ONE as int)) by (nonlinear_arith)
                    requires
                        0 <= nbr_wx_sum(d1, nbrs, z, nbrs.len() as int) <= nbr_weight_sum(
                            d1,
                            nbrs,
                            z,
                            nbrs.len() as int,
                        ) * (COORD_ONE as int),
                        0 <= nbr_wy_sum(d1, nbrs, z, nbrs.len() as int) <= nbr_weight_sum(
                            d1,
                            nbrs,
                            z,
                            nbrs.len() as int,
                        ) * (COORD_ONE as int),
                        0 <= d[i - 1].x <= COORD_ONE,
                        0 <= d[i - 1].y <= COORD_ONE,
                        0 <= w0,
                        wx == w0 * (d[i - 1].x as int) + nbr_wx_sum(d1, nbrs, z, nbrs.len() as int),
                        wy == w0 * (d[i - 1].y as int) + nbr_wy_sum(d1, nbrs, z, nbrs.len() as int),
                        ws == nbr_weight_sum(d1, nbrs, z, nbrs.len() as int),
                        wsum == w0 + ws,
                ;
                lemma_div_is_ordered(wx, wsum * (COORD_ONE as int), wsum);
                lemma_div_is_ordered(wy, wsum * (COORD_ONE as int), wsum);
                vstd::arithmetic::div_mod::lemma_div_by_multiple(COORD_ONE as int, wsum);
                assert((COORD_ONE as int) * wsum == wsum * (COORD_ONE as int)) by (nonlinear_arith);
                vstd::arithmetic::div_mod::lemma_div_pos_is_pos(wx, wsum);
                vstd::arithmetic::div_mod::lemma_div_pos_is_pos(wy, wsum);
                // next side
                assert forall|j: int|
                    0 <= j < nx9.len() implies next_row_ok(#[trigger] nx9[j], rows0, z, nf) by {
                    if j < nx.len() {
                        assert(next_row_ok(cluster_upto(rows0, z, nf, mp, rr, i - 1).1[j], rows0, z, nf));
                    } else {
                        assert(nx9[j] == nx9.last());
                        assert(fresh_cluster_of(nx9[j], rows0, z, nf)) by {
                            assert(nx9[j].id_or_index == encode_cluster_id(i - 1, z as int, nf)
                                && nx9[j].weight > 1);
                        }
                    }
                }
                // data side
                let seeded = (StoreRow { parent_id: Option::Some(id as usize), ..d2[i - 1] });
                assert forall|t: int|
                    0 <= t < rows0.len() implies ((#[trigger] d9[t]).zoom_processed > z
                    ==> d9[t].parent_id is None) && parent_link_ok(
                    d9,
                    rows0,
                    z,
                    nf,
                    rr,
                    t,
                ) by {
                    assert(parent_link_ok(d, rows0, z, nf, rr, t));
                    if t == i - 1 {
                        assert(d9[t] == seeded);
                        assert(row_in_disk(rows0[t], rows0[i - 1].x as int, rows0[i - 1].y as int, rr))
                            by {
                            assert(0 <= rr * rr) by (nonlinear_arith)
                                requires 0 <= rr;
                        }
                    } else if exists|u: int|
                        0 <= u < nbrs.len() && (#[trigger] nbrs[u]) as int == t {
                        let u = choose|u: int|
                            0 <= u < nbrs.len() && (#[trigger] nbrs[u]) as int == t;
                        assert(d2[nbrs[u] as int] == (if d1[nbrs[u] as int].zoom_processed > z {
                            absorb_row(d1[nbrs[u] as int], z, id as usize)
                        } else {
                            d1[nbrs[u] as int]
                        }));
                        if d1[t].zoom_processed > z {
                            assert(row_in_disk(d1[t], d[i - 1].x as int, d[i - 1].y as int, rr));
                            assert(row_in_disk(rows0[t], rows0[i - 1].x as int, rows0[i - 1].y as int, rr));
                        } else {
                            assert(d9[t] == d1[t] && d1[t] == d[t]);
                        }
                    } else {
                        assert(forall|u: int|
                            0 <= u < nbrs.len() ==> (#[trigger] nbrs[u]) as int != t);
                        assert(d2[t] == d1[t]);
                        assert(d9[t] == d[t]);
                    }
                }
            } else if wsum > 1 {
                let d2 = stamp_nbrs(d1, nbrs, z, nbrs.len() as int);
                lemma_stamp_nbrs_props(d1, nbrs, z, nbrs.len() as int);
                let copies = copied_rows(d1, nbrs, z, nbrs.len() as int);
                lemma_copied_next_ok(d1, d, rows0, nbrs, z, nf, nbrs.len() as int);
                assert forall|j: int|
                    0 <= j < nx9.len() implies next_row_ok(#[trigger] nx9[j], rows0, z, nf) by {
                    if j < nx.len() {
                        assert(next_row_ok(cluster_upto(rows0, z, nf, mp, rr, i - 1).1[j], rows0, z, nf));
                    } else if j == nx.len() {
                        assert(nx9[j] == d1[i - 1]);
                        assert(carried_from(d1[i - 1], rows0)) by {
                            assert(rows0[i - 1].id_or_index == d1[i - 1].id_or_index
                                && rows0[i - 1].weight == d1[i - 1].weight
                                && rows0[i - 1].x == d1[i - 1].x
                                && rows0[i - 1].y == d1[i - 1].y);
                        }
                        assert(rows0[i - 1].in_unit());
                    } else {
                        assert(nx9[j] == copies[j - nx.len() - 1]);
                    }
                }
                assert forall|t: int|
                    0 <= t < rows0.len() implies ((#[trigger] d9[t]).zoom_processed > z
                    ==> d9[t].parent_id is None) && parent_link_ok(
                    d9,
                    rows0,
                    z,
                    nf,
                    rr,
                    t,
                ) by {
                    assert(parent_link_ok(d, rows0, z, nf, rr, t));
                    if t == i - 1 {
                        assert(d9[t] == d1[i - 1]);
                    } else if exists|u: int|
                        0 <= u < nbrs.len() && (#[trigger] nbrs[u]) as int == t {
                        let u = choose|u: int|
                            0 <= u < nbrs.len() && (#[trigger] nbrs[u]) as int == t;
                        assert(d2[nbrs[u] as int] == (if d1[nbrs[u] as int].zoom_processed > z {
                            stamp_row(d1[nbrs[u] as int], z)
                        } else {
                            d1[nbrs[u] as int]
                        }));
                    } else {
                        assert(forall|u: int|
                            0 <= u < nbrs.len() ==> (#[trigger] nbrs[u]) as int != t);
                        assert(d2[t] == d1[t]);
                        assert(d9[t] == d[t]);
                    }
                }
            } else {
                assert forall|j: int|
                    0 <= j < nx9.len() implies next_row_ok(#[trigger] nx9[j], rows0, z, nf) by {
                    if j < nx.len() {
                        assert(next_row_ok(cluster_upto(rows0, z, nf, mp, rr, i - 1).1[j], rows0, z, nf));
                    } else {
                        assert(nx9[j] == d1[i - 1]);
                        assert(carried_from(d1[i - 1], rows0)) by {
                            assert(rows0[i - 1].id_or_index == d1[i - 1].id_or_index
                                && rows0[i - 1].weight == d1[i - 1].weight
                                && rows0[i - 1].x == d1[i - 1].x
                                && rows0[i - 1].y == d1[i - 1].y);
                        }
                        assert(rows0[i - 1].in_unit());
                    }
                }
                assert forall|t: int|
                    0 <= t < rows0.len() implies ((#[trigger] d9[t]).zoom_processed > z
                    ==> d9[t].parent_id is None) && parent_link_ok(
                    d9,
                    rows0,
                    z,
                    nf,
                    rr,
                    t,
                ) by {
                    assert(parent_link_ok(d, rows0, z, nf, rr, t));
                    if t != i - 1 {
                        assert(d9[t] == d[t]);
                    }
                }
            }
        } else {
            assert forall|j: int|
                0 <= j < nx9.len() implies next_row_ok(#[trigger] nx9[j], rows0, z, nf) by {
                assert(next_row_ok(cluster_upto(rows0, z, nf, mp, rr, i - 1).1[j], rows0, z, nf));
            }
            assert forall|t: int|
                0 <= t < rows0.len() implies ((#[trigger] d9[t]).zoom_processed > z ==> d9[t].parent_id
                is None) && parent_link_ok(d9, rows0, z, nf, rr, t) by {
                assert(parent_link_ok(d, rows0, z, nf, rr, t));
                assert(d9[t] == d[t]);
            }
        }
    }
}

/// Every copied row is a well-formed carried row.
proof fn lemma_copied_next_ok(
    d1: Seq<StoreRow>,
    d: Seq<StoreRow>,
    rows0: Seq<StoreRow>,
    nbrs: Seq<usize>,
    z: u8,
    nf: int,
    j: int,
)
    requires
        0 <= j <= nbrs.len(),
        d1.len() == rows0.len(),
        forall|a: int| 0 <= a < nbrs.len() ==> (#[trigger] nbrs[a]) < d1.len(),
        forall|t: int|
            0 <= t < rows0.len() ==> (#[trigger] d1[t]).weight == rows0[t].weight && d1[t].x
                == rows0[t].x && d1[t].y == rows0[t].y && d1[t].id_or_index
                == rows0[t].id_or_index,
        forall|t: int|
            0 <= t < rows0.len() ==> ((#[trigger] d1[t]).zoom_processed > z ==> d1[t].parent_id
                is None),
        store_ready(rows0, z as int),
    ensures
        forall|p: int|
            0 <= p < copied_rows(d1, nbrs, z, j).len() ==> next_row_ok(
                #[trigger] copied_rows(d1, nbrs, z, j)[p],
                rows0,
                z,
                nf,
            ),
    decreases j,
{
    if j > 0 {
        lemma_copied_next_ok(d1, d, rows0, nbrs, z, nf, j - 1);
        let k = nbrs[j - 1] as int;
        let prev = copied_rows(d1, nbrs, z, j - 1);
        if d1[k].zoom_processed > z {
            assert forall|p: int|
                0 <= p < copied_rows(d1, nbrs, z, j).len() implies next_row_ok(
                #[trigger] copied_rows(d1, nbrs, z, j)[p],
                rows0,
                z,
                nf,
            ) by {
                if p < prev.len() {
                    assert(copied_rows(d1, nbrs, z, j)[p] == prev[p]);
                    assert(next_row_ok(prev[p], rows0, z, nf));
                } else {
                    let r = stamp_row(d1[k], z);
                    assert(copied_rows(d1, nbrs, z, j)[p] == r);
                    assert(rows0[k].in_unit());
                    assert(carried_from(r, rows0)) by {
                        assert(rows0[k].id_or_index == r.id_or_index && rows0[k].weight
                            == r.weight && rows0[k].x == r.x && rows0[k].y == r.y);
                    }
                }
            }
        } else {
            assert(copied_rows(d1, nbrs, z, j) =~= prev);
        }
    }
}

/// Stores with pointwise equal weights have equal weight totals.
proof fn lemma_total_weight_pointwise(a: Seq<StoreRow>, b: Seq<StoreRow>)
    requires
        a.len() == b.len(),
        forall|t: int| 0 <= t < a.len() ==> (#[trigger] a[t]).weight == b[t].weight,
    ensures
        total_weight(a) == total_weight(b),
    decreases a.len(),
{
    if a.len() > 0 {
        lemma_total_weight_pointwise(a.drop_last(), b.drop_last());
    }
}

/// Weight totals add over concatenation.
proof fn lemma_total_weight_concat(a: Seq<StoreRow>, b: Seq<StoreRow>)
    ensures
        total_weight(a + b) == total_weight(a) + total_weight(b),
    decreases b.len(),
{
    if b.len() == 0 {
        assert(a + b =~= a);
    } else {
        lemma_total_weight_concat(a, b.drop_last());
        assert((a + b).drop_last() =~= a + b.drop_last());
        assert((a + b).last() == b.last());
    }
}

// ---------------------------------------------------------------------------
// The load model: one store per zoom level, each a function of the input.
// ---------------------------------------------------------------------------

/// Every present input point lies in the normalized unit square.
pub open spec fn points_in_unit(points: Seq<Option<InputPoint>>) -> bool {
    forall|i: int|
        0 <= i < points.len() ==> ((#[trigger] points[i]) matches Option::Some(pt) ==> 0 <= pt.x
            <= COORD_ONE && 0 <= pt.y <= COORD_ONE)
}

/// The seed store over the first `i` input entries: one row per present
/// point, in input order, with unvisited stamps and unit weights.
pub open spec fn seed_rows(points: Seq<Option<InputPoint>>, i: int) -> Seq<StoreRow>
    decreases i,
{
    if i <= 0 {
        Seq::empty()
    } else {
        seed_rows(points, i - 1) + (match points[i - 1] {
            Option::Some(pt) => seq![
                (StoreRow {
                    x: pt.x,
                    y: pt.y,
                    zoom_processed: ZOOM_UNVISITED,
                    id_or_index: (i - 1) as usize,
                    parent_id: Option::None,
                    weight: 1,
                }),
            ],
            Option::None => Seq::empty(),
        })
    }
}

/// The number of input entries that are points.
pub open spec fn loaded_count(points: Seq<Option<InputPoint>>) -> int {
    seed_rows(points, points.len() as int).len() as int
}

/// Seed rows are well-formed leaves backed by their input points.
pub proof fn lemma_seed_rows_props(points: Seq<Option<InputPoint>>, i: int)
    requires
        0 <= i <= points.len(),
        i <= usize::MAX,
        points_in_unit(points),
    ensures
        seed_rows(points, i).len() <= i,
        total_weight(seed_rows(points, i)) == seed_rows(points, i).len(),
        forall|p: int|
            0 <= p < seed_rows(points, i).len() ==> {
                let r = #[trigger] seed_rows(points, i)[p];
                &&& r.weight == 1
                &&& r.zoom_processed == ZOOM_UNVISITED
                &&& r.parent_id is None
                &&& r.in_unit()
                &&& r.id_or_index < i
                &&& points[r.id_or_index as int] matches Option::Some(pt) && r.x == pt.x && r.y
                    == pt.y
            },
    decreases i,
{
    if i > 0 {
        lemma_seed_rows_props(points, i - 1);
        let prev = seed_rows(points, i - 1);
        let cur = seed_rows(points, i);
        if points[i - 1] is Some {
            crate::store::lemma_total_weight_push(prev, cur.last());
            assert(cur =~= prev.push(cur.last()));
            assert forall|p: int|
                0 <= p < cur.len() implies {
                let r = #[trigger] cur[p];
                &&& r.weight == 1
                &&& r.zoom_processed == ZOOM_UNVISITED
                &&& r.parent_id is None
                &&& r.in_unit()
                &&& r.id_or_index < i
                &&& points[r.id_or_index as int] matches Option::Some(pt) && r.x == pt.x && r.y
                    == pt.y
            } by {
                if p < prev.len() {
                    assert(cur[p] == prev[p]);
                } else {
                    assert(cur[p] == cur.last());
                }
            }
        } else {
            assert(cur =~= prev);
        }
    }
}

/// The freshly built store at zoom `zl`: the seed store at `max_zoom + 1`,
/// below that the output of the pass at `zl` over the store above.
pub open spec fn fresh_store_model(
    opts: SuperclusterOptions,
    points: Seq<Option<InputPoint>>,
    zl: int,
) -> Seq<StoreRow>
    decreases opts.max_zoom + 1 - zl,
{
    if zl >= opts.max_zoom + 1 {
        seed_rows(points, points.len() as int)
    } else {
        cluster_model(
            fresh_store_model(opts, points, zl + 1),
            zl as u8,
            points.len() as int,
            opts.min_points as int,
            zoom_radius_spec(opts, zl),
        ).1
    }
}

/// The store at zoom `zl` as it finally stands: stamped and parented by the
/// pass below it, except at `min_zoom`, which no pass consumes.
pub open spec fn final_store_model(
    opts: SuperclusterOptions,
    points: Seq<Option<InputPoint>>,
    zl: int,
) -> Seq<StoreRow> {
    if zl <= opts.min_zoom {
        fresh_store_model(opts, points, zl)
    } else {
        cluster_model(
            fresh_store_model(opts, points, zl),
            (zl - 1) as u8,
            points.len() as int,
            opts.min_points as int,
            zoom_radius_spec(opts, zl - 1),
        ).0
    }
}

/// The pass radius is never negative.
pub proof fn lemma_zoom_radius_nonneg(opts: SuperclusterOptions, z: int)
    requires
        opts.wf(),
        0 <= z,
    ensures
        0 <= zoom_radius_spec(opts, z),
{
    crate::fixed::lemma_two_pow_pos(z as nat);
    assert(0 < (opts.extent as int) * two_pow(z as nat)) by (nonlinear_arith)
        requires
            1 <= opts.extent,
            1 <= two_pow(z as nat),
    ;
    vstd::arithmetic::div_mod::lemma_div_pos_is_pos(
        (opts.radius as int) * (COORD_ONE as int),
        (opts.extent as int) * two_pow(z as nat),
    );
    assert(0 <= (opts.radius as int) * (COORD_ONE as int)) by (nonlinear_arith)
        requires
            0 <= opts.radius,
    ;
}

/// Every fresh store carries the full input weight, has no more rows than
/// loaded points, and is ready for the pass below it.
pub proof fn lemma_fresh_store_invariants(
    opts: SuperclusterOptions,
    points: Seq<Option<InputPoint>>,
    zl: int,
)
    requires
        opts.wf(),
        points.len() <= MAX_POINTS,
        points_in_unit(points),
        opts.min_zoom <= zl <= opts.max_zoom + 1,
    ensures
        fresh_store_model(opts, points, zl).len() <= loaded_count(points),
        loaded_count(points) <= points.len(),
        total_weight(fresh_store_model(opts, points, zl)) == loaded_count(points),
        store_ready(fresh_store_model(opts, points, zl), zl - 1),
    decreases opts.max_zoom + 1 - zl,
{
    lemma_seed_rows_props(points, points.len() as int);
    if zl >= opts.max_zoom + 1 {
        let rows = seed_rows(points, points.len() as int);
        assert forall|t: int|
            0 <= t < rows.len() implies (#[trigger] rows[t]).zoom_processed > zl - 1
            && rows[t].parent_id is None && rows[t].weight >= 1 && rows[t].in_unit() by {}
    } else {
        lemma_fresh_store_invariants(opts, points, zl + 1);
        let rows0 = fresh_store_model(opts, points, zl + 1);
        let z = zl as u8;
        let nf = points.len() as int;
        let mp = opts.min_points as int;
        let rr = zoom_radius_spec(opts, zl);
        lemma_zoom_radius_nonneg(opts, zl);
        lemma_cluster_upto_accounting(rows0, z, nf, mp, rr, rows0.len() as int);
        lemma_cluster_upto_ids(rows0, z, nf, mp, rr, rows0.len() as int);
        let d9 = cluster_upto(rows0, z, nf, mp, rr, rows0.len() as int).0;
        let nx9 = cluster_upto(rows0, z, nf, mp, rr, rows0.len() as int).1;
        lemma_cluster_upto_frame(rows0, z, nf, mp, rr, rows0.len() as int);
        assert forall|t: int|
            0 <= t < d9.len() implies (#[trigger] d9[t]).zoom_processed <= zl by {
            assert(cluster_upto(rows0, z, nf, mp, rr, rows0.len() as int).0[t] == d9[t]);
        }
        lemma_unvisited_none(d9, zl);
        assert forall|t: int|
            0 <= t < nx9.len() implies (#[trigger] nx9[t]).zoom_processed > zl - 1
            && nx9[t].parent_id is None && nx9[t].weight >= 1 && nx9[t].in_unit() by {
            assert(next_row_ok(nx9[t], rows0, z, nf));
        }
    }
}

// ---------------------------------------------------------------------------
// Bbox coordinate handling: clamping latitudes, wrapping longitudes.
// ---------------------------------------------------------------------------

/// A normalized coordinate clamped into the unit interval.
pub open spec fn clamp_unit(v: int) -> int {
    if v < 0 {
        0
    } else if v > COORD_ONE {
        COORD_ONE as int
    } else {
        v
    }
}

/// A normalized x wrapped around the antimeridian into `[0, 1)`.
pub open spec fn wrap_unit(v: int) -> int {
    v % (COORD_ONE as int)
}

/// Clamp a normalized coordinate into the unit interval.
fn clamp_coord(v: i64) -> (r: i64)
    ensures
        r == clamp_unit(v as int),
{
    if v < 0 {
        0
    } else if v > COORD_ONE {
        COORD_ONE
    } else {
        v
    }
}

/// Wrap a normalized x around the antimeridian into `[0, 1)`.
fn wrap_coord(v: i64) -> (r: i64)
    requires
        -0x100_0000_0000 <= v <= 0x100_0000_0000,
    ensures
        r == wrap_unit(v as int),
        0 <= r < COORD_ONE,
{
    let q = crate::fixed::div_floor(v as i128, COORD_ONE as i128);
    proof {
        crate::fixed::lemma_div_floor_bounds(v as int, COORD_ONE as int);
        lemma_fundamental_div_mod(v as int, COORD_ONE as int);
    }
    (v as i128 - q * (COORD_ONE as i128)) as i64
}

// ---------------------------------------------------------------------------
// Materialization: turning store rows into output records.
// ---------------------------------------------------------------------------

/// The ASCII digit for `d`.
pub open spec fn dec_digit(d: int) -> u8 {
    (0x30 + d) as u8
}

/// The decimal digits of `n`, most significant first.
pub open spec fn dec_bytes(n: int) -> Seq<u8>
    decreases n,
{
    if n < 10 {
        seq![dec_digit(n)]
    } else {
        dec_bytes(n / 10) + seq![dec_digit(n % 10)]
    }
}

/// Up to three decimals of a fraction `f / 1000`, with trailing zeros and an
/// all-zero fraction dropped, preceded by a dot when anything remains.
pub open spec fn frac3_bytes(f: int) -> Seq<u8> {
    if f == 0 {
        Seq::empty()
    } else {
        let d1 = f / 100;
        let d2 = (f / 10) % 10;
        let d3 = f % 10;
        seq![0x2Eu8] + (if d3 != 0 {
            seq![dec_digit(d1), dec_digit(d2), dec_digit(d3)]
        } else if d2 != 0 {
            seq![dec_digit(d1), dec_digit(d2)]
        } else {
            seq![dec_digit(d1)]
        })
    }
}

/// The abbreviated point count: `w/1000` with a `k` suffix from ten
/// thousand up, one rounded decimal with a `k` suffix from one thousand up,
/// else the count itself.
pub open spec fn abbrev_bytes(w: int) -> Seq<u8> {
    if w >= 10000 {
        dec_bytes(w / 1000) + frac3_bytes(w % 1000) + seq![0x6Bu8]
    } else if w >= 1000 {
        let r = (w + 50) / 100;
        dec_bytes(r / 10) + (if r % 10 == 0 {
            Seq::empty()
        } else {
            seq![0x2Eu8, dec_digit(r % 10)]
        }) + seq![0x6Bu8]
    } else {
        dec_bytes(w)
    }
}

/// The decimal digits of `n` as ASCII bytes.
pub fn u64_dec_bytes(n: u64) -> (v: Vec<u8>)
    ensures
        v@ == dec_bytes(n as int),
    decreases n,
{
    if n < 10 {
        let mut v: Vec<u8> = Vec::new();
        v.push(0x30 + (n as u8));
        proof {
            assert(v@ =~= dec_bytes(n as int));
        }
        v
    } else {
        let mut v = u64_dec_bytes(n / 10);
        v.push(0x30 + ((n % 10) as u8));
        proof {
            assert(v@ =~= dec_bytes(n as int));
        }
        v
    }
}

/// The abbreviated point count as ASCII bytes.
pub fn abbreviate_count(w: u64) -> (v: Vec<u8>)
    ensures
        v@ == abbrev_bytes(w as int),
{
    if w >= 10000 {
        let mut v = u64_dec_bytes(w / 1000);
        let f = w % 1000;
        if f != 0 {
            let d1 = (f / 100) as u8;
            let d2 = ((f / 10) % 10) as u8;
            let d3 = (f % 10) as u8;
            v.push(0x2E);
            if d3 != 0 {
                v.push(0x30 + d1);
                v.push(0x30 + d2);
                v.push(0x30 + d3);
            } else if d2 != 0 {
                v.push(0x30 + d1);
                v.push(0x30 + d2);
            } else {
                v.push(0x30 + d1);
            }
        }
        v.push(0x6B);
        proof {
            assert(v@ =~= abbrev_bytes(w as int));
        }
        v
    } else if w >= 1000 {
        let r = (w + 50) / 100;
        let mut v = u64_dec_bytes(r / 10);
        if r % 10 != 0 {
            v.push(0x2E);
            v.push(0x30 + ((r % 10) as u8));
        }
        v.push(0x6B);
        proof {
            assert(v@ =~= abbrev_bytes(w as int));
        }
        v
    } else {
        u64_dec_bytes(w)
    }
}

/// The synthesized property set of a cluster: always flagged as a cluster,
/// with its id, its point count and the abbreviated count.  (The original
/// feature payloads live with the caller; a caller that keeps per-cluster
/// metadata merges it by the cluster id.)
#[derive(Clone, Debug, PartialEq, Eq)]
pub struct ClusterMetadata {
    /// Always true: the record describes a cluster.
    pub cluster: bool,

    /// The packed cluster id.
    pub cluster_id: usize,

    /// Number of input points aggregated.
    pub point_count: u64,

    /// The abbreviated point count, as ASCII text.
    pub point_count_abbreviated: Vec<u8>,
}

/// A materialized cluster: its normalized position and its metadata.
#[derive(Clone, Debug, PartialEq, Eq)]
pub struct ClusterFeature {
    /// Normalized x of the cluster's weighted mean position.
    pub x: i64,

    /// Normalized y of the cluster's weighted mean position.
    pub y: i64,

    /// The synthesized cluster properties.
    pub metadata: ClusterMetadata,
}

/// One record returned by a bbox or children query: a materialized cluster,
/// or the index of an original input point.
#[derive(Clone, Debug, PartialEq, Eq)]
pub enum FeatureData {
    /// A cluster of two or more points.
    Cluster(ClusterFeature),

    /// A single input point, by its index in the loaded features.
    Point(usize),
}

/// What correct cluster metadata for a row says.
pub open spec fn metadata_ok(md: ClusterMetadata, row: StoreRow) -> bool {
    &&& md.cluster == true
    &&& md.cluster_id == row.id_or_index
    &&& md.point_count == row.weight
    &&& md.point_count_abbreviated@ == abbrev_bytes(row.weight as int)
}

/// What a correct cluster record for a row says.
pub open spec fn cluster_feature_ok(cf: ClusterFeature, row: StoreRow) -> bool {
    cf.x == row.x && cf.y == row.y && metadata_ok(cf.metadata, row)
}

/// What a correct query record for a row says: clusters are materialized,
/// single points returned by input index.
pub open spec fn feature_data_ok(fd: FeatureData, row: StoreRow) -> bool {
    if row.weight > 1 {
        fd matches FeatureData::Cluster(cf) && cluster_feature_ok(cf, row)
    } else {
        fd matches FeatureData::Point(idx) && idx == row.id_or_index
    }
}

/// Retrieve the synthesized metadata for a cluster row.
pub fn get_cluster_metadata(row: &StoreRow) -> (md: ClusterMetadata)
    ensures
        metadata_ok(md, *row),
{
    ClusterMetadata {
        cluster: true,
        cluster_id: row.id_or_index,
        point_count: row.weight,
        point_count_abbreviated: abbreviate_count(row.weight),
    }
}

/// Materialize a cluster row into an output record.
pub fn get_cluster(row: &StoreRow) -> (cf: ClusterFeature)
    ensures
        cluster_feature_ok(cf, *row),
{
    ClusterFeature { x: row.x, y: row.y, metadata: get_cluster_metadata(row) }
}

/// Materialize any store row into a query record.
pub fn materialize_row(row: &StoreRow) -> (fd: FeatureData)
    ensures
        feature_data_ok(fd, *row),
{
    if row.weight > 1 {
        FeatureData::Cluster(get_cluster(row))
    } else {
        FeatureData::Point(row.id_or_index)
    }
}

/// Per-store id validity: every leaf points at a loaded input point and
/// carries its coordinates; every cluster id decodes to a strictly higher
/// zoom whose store contains the origin row.
pub open spec fn store_rows_ok(
    opts: SuperclusterOptions,
    points: Seq<Option<InputPoint>>,
    zl: int,
    rows: Seq<StoreRow>,
) -> bool {
    forall|t: int|
        #![trigger rows[t]]
        0 <= t < rows.len() ==> {
            &&& rows[t].weight >= 1
            &&& (rows[t].weight == 1 ==> rows[t].id_or_index < points.len() && (points[rows[t].id_or_index as int]
                matches Option::Some(pt) && rows[t].x == pt.x && rows[t].y == pt.y))
            &&& (rows[t].weight > 1 ==> rows[t].id_or_index >= points.len() && zl + 1 <= origin_zoom_of(
                rows[t].id_or_index as int,
                points.len() as int,
            ) <= opts.max_zoom + 1 && origin_row_of(rows[t].id_or_index as int, points.len() as int)
                < fresh_store_model(
                opts,
                points,
                origin_zoom_of(rows[t].id_or_index as int, points.len() as int),
            ).len())
        }
}

/// Every fresh store satisfies the id validity invariant.
pub proof fn lemma_fresh_store_ids(
    opts: SuperclusterOptions,
    points: Seq<Option<InputPoint>>,
    zl: int,
)
    requires
        opts.wf(),
        points.len() <= MAX_POINTS,
        points_in_unit(points),
        opts.min_zoom <= zl <= opts.max_zoom + 1,
    ensures
        store_rows_ok(opts, points, zl, fresh_store_model(opts, points, zl)),
    decreases opts.max_zoom + 1 - zl,
{
    if zl >= opts.max_zoom + 1 {
        lemma_seed_rows_props(points, points.len() as int);
    } else {
        lemma_fresh_store_ids(opts, points, zl + 1);
        lemma_fresh_store_invariants(opts, points, zl + 1);
        let rows0 = fresh_store_model(opts, points, zl + 1);
        let z = zl as u8;
        let nf = points.len() as int;
        let mp = opts.min_points as int;
        let rr = zoom_radius_spec(opts, zl);
        lemma_zoom_radius_nonneg(opts, zl);
        lemma_cluster_upto_ids(rows0, z, nf, mp, rr, rows0.len() as int);
        let nx9 = cluster_upto(rows0, z, nf, mp, rr, rows0.len() as int).1;
        assert forall|t: int|
            0 <= t < nx9.len() implies {
            let r = #[trigger] nx9[t];
            &&& r.weight >= 1
            &&& (r.weight == 1 ==> r.id_or_index < points.len() && (points[r.id_or_index as int]
                matches Option::Some(pt) && r.x == pt.x && r.y == pt.y))
            &&& (r.weight > 1 ==> r.id_or_index >= points.len() && zl + 1 <= origin_zoom_of(
                r.id_or_index as int,
                points.len() as int,
            ) <= opts.max_zoom + 1 && origin_row_of(r.id_or_index as int, points.len() as int)
                < fresh_store_model(
                opts,
                points,
                origin_zoom_of(r.id_or_index as int, points.len() as int),
            ).len())
        } by {
            assert(next_row_ok(nx9[t], rows0, z, nf));
            if fresh_cluster_of(nx9[t], rows0, z, nf) {
                let s = choose|s: int|
                    0 <= s < rows0.len() && nx9[t].id_or_index == encode_cluster_id(
                        s,
                        z as int,
                        nf,
                    ) && nx9[t].weight > 1;
                lemma_cluster_id_codec(s, zl, nf);
            } else {
                let k = choose|k: int|
                    0 <= k < rows0.len() && (#[trigger] rows0[k]).id_or_index
                        == nx9[t].id_or_index && rows0[k].weight == nx9[t].weight && rows0[k].x
                        == nx9[t].x && rows0[k].y == nx9[t].y;
                assert(store_rows_ok(opts, points, zl + 1, rows0));
                assert(rows0[k] == rows0[k]);
            }
        }
    }
}

/// The final store at a level below the top keeps its parents pointing at
/// seeds of the pass that consumed it, each child within the pass radius.
pub proof fn lemma_final_store_parents(
    opts: SuperclusterOptions,
    points: Seq<Option<InputPoint>>,
    zl: int,
)
    requires
        opts.wf(),
        points.len() <= MAX_POINTS,
        points_in_unit(points),
        opts.min_zoom < zl <= opts.max_zoom + 1,
    ensures
        forall|t: int|
            0 <= t < final_store_model(opts, points, zl).len() ==> #[trigger] parent_link_ok(
                final_store_model(opts, points, zl),
                fresh_store_model(opts, points, zl),
                (zl - 1) as u8,
                points.len() as int,
                zoom_radius_spec(opts, zl - 1),
                t,
            ),
{
    lemma_fresh_store_invariants(opts, points, zl);
    let rows0 = fresh_store_model(opts, points, zl);
    let z = (zl - 1) as u8;
    let nf = points.len() as int;
    let mp = opts.min_points as int;
    let rr = zoom_radius_spec(opts, zl - 1);
    lemma_zoom_radius_nonneg(opts, zl - 1);
    lemma_cluster_upto_ids(rows0, z, nf, mp, rr, rows0.len() as int);
    lemma_cluster_upto_frame(rows0, z, nf, mp, rr, rows0.len() as int);
    assert forall|t: int|
        0 <= t < final_store_model(opts, points, zl).len() implies parent_link_ok(
        final_store_model(opts, points, zl),
        rows0,
        z,
        nf,
        rr,
        t,
    ) by {
        assert(parent_link_ok(
            cluster_upto(rows0, z, nf, mp, rr, rows0.len() as int).0,
            rows0,
            z,
            nf,
            rr,
            t,
        ));
    }
}

/// The ascending row indices of the store whose parent is the cluster `c`.
pub open spec fn parent_row_ids(rows: Seq<StoreRow>, c: usize) -> Seq<usize> {
    sel_ids_upto(rows, |row: StoreRow| row.parent_id == Option::Some(c), rows.len() as int)
}

/// The prefix of `ids` kept by the parent filter.
pub open spec fn parent_filter(rows: Seq<StoreRow>, ids: Seq<usize>, c: usize, j: int) -> Seq<
    usize,
>
    decreases j,
{
    if j <= 0 {
        Seq::empty()
    } else {
        parent_filter(rows, ids, c, j - 1) + (if rows[ids[j - 1] as int].parent_id
            == Option::Some(c) {
            seq![ids[j - 1]]
        } else {
            Seq::empty()
        })
    }
}

/// The parent filter of a strictly ascending id list is strictly ascending
/// and keeps exactly the listed rows with the right parent.
proof fn lemma_parent_filter_props(rows: Seq<StoreRow>, ids: Seq<usize>, c: usize, j: int)
    requires
        0 <= j <= ids.len(),
        forall|a: int| 0 <= a < ids.len() ==> (#[trigger] ids[a]) < rows.len(),
        forall|a: int, b: int| 0 <= a < b < ids.len() ==> ids[a] < ids[b],
    ensures
        forall|p: int|
            0 <= p < parent_filter(rows, ids, c, j).len() ==> exists|t: int|
                0 <= t < j && ids[t] == #[trigger] parent_filter(rows, ids, c, j)[p],
        forall|p1: int, p2: int|
            0 <= p1 < p2 < parent_filter(rows, ids, c, j).len() ==> parent_filter(
                rows,
                ids,
                c,
                j,
            )[p1] < parent_filter(rows, ids, c, j)[p2],
        forall|u: usize|
            #[trigger] parent_filter(rows, ids, c, j).contains(u) <==> ((exists|t: int|
                0 <= t < j && ids[t] == u) && rows[u as int].parent_id == Option::Some(c)),
    decreases j,
{
    if j > 0 {
        lemma_parent_filter_props(rows, ids, c, j - 1);
        let prev = parent_filter(rows, ids, c, j - 1);
        let cur = parent_filter(rows, ids, c, j);
        if rows[ids[j - 1] as int].parent_id == Option::Some(c) {
            assert(cur =~= prev.push(ids[j - 1]));
            assert forall|p: int|
                0 <= p < cur.len() implies exists|t: int|
                0 <= t < j && ids[t] == #[trigger] cur[p] by {
                if p < prev.len() {
                    assert(cur[p] == prev[p]);
                    let t = choose|t: int| 0 <= t < j - 1 && ids[t] == prev[p];
                    assert(ids[t] == cur[p]);
                } else {
                    assert(cur[p] == ids[j - 1]);
                }
            }
            assert forall|p1: int, p2: int|
                0 <= p1 < p2 < cur.len() implies cur[p1] < cur[p2] by {
                if p2 < prev.len() {
                    assert(cur[p1] == prev[p1] && cur[p2] == prev[p2]);
                } else {
                    assert(cur[p2] == ids[j - 1]);
                    assert(cur[p1] == prev[p1]);
                    let t = choose|t: int| 0 <= t < j - 1 && ids[t] == prev[p1];
                    assert(ids[t] < ids[j - 1]);
                }
            }
            assert forall|u: usize|
                #[trigger] cur.contains(u) implies ((exists|t: int|
                0 <= t < j && ids[t] == u) && rows[u as int].parent_id == Option::Some(c)) by {
                let p = choose|p: int| 0 <= p < cur.len() && cur[p] == u;
                if p < prev.len() {
                    assert(prev[p] == u);
                    assert(prev.contains(u));
                } else {
                    assert(u == ids[j - 1]);
                }
            }
            assert forall|u: usize|
                ((exists|t: int| 0 <= t < j && ids[t] == u) && rows[u as int].parent_id
                    == Option::Some(c)) implies #[trigger] cur.contains(u) by {
                let t = choose|t: int| 0 <= t < j && ids[t] == u;
                if t < j - 1 {
                    assert(prev.contains(u));
                    let p = choose|p: int| 0 <= p < prev.len() && prev[p] == u;
                    assert(cur[p] == u);
                } else {
                    assert(cur[cur.len() - 1] == u);
                }
            }
        } else {
            assert(cur =~= prev);
            assert forall|u: usize|
                #[trigger] cur.contains(u) <==> ((exists|t: int| 0 <= t < j && ids[t] == u)
                    && rows[u as int].parent_id == Option::Some(c)) by {
                if (exists|t: int| 0 <= t < j && ids[t] == u) && rows[u as int].parent_id
                    == Option::Some(c) {
                    let t = choose|t: int| 0 <= t < j && ids[t] == u;
                    if t == j - 1 {
                        assert(rows[ids[j - 1] as int].parent_id == Option::Some(c));
                        assert(false);
                    }
                }
            }
        }
    }
}

/// One feature of a tile: its position in tile pixels, and either the
/// synthesized cluster properties or the index of the original input point.
#[derive(Clone, Debug, PartialEq, Eq)]
pub struct TileFeature {
    /// Pixel x within the tile (may fall in the padding outside `0..extent`).
    pub x: i64,

    /// Pixel y within the tile.
    pub y: i64,

    /// What the feature is: a cluster or an input point.
    pub data: TileContent,
}

/// The payload of a tile feature.
#[derive(Clone, Debug, PartialEq, Eq)]
pub enum TileContent {
    /// A cluster of two or more points.
    Cluster(ClusterMetadata),

    /// A single input point, by its index in the loaded features.
    Point(usize),
}

/// A tile: the features that fall inside one padded tile square.
#[derive(Clone, Debug, PartialEq, Eq)]
pub struct Tile {
    /// The features of the tile, in query order.
    pub features: Vec<TileFeature>,
}

/// The pixel coordinate of a normalized value `v` within tile `t` of a
/// `z2`-by-`z2` grid: `extent * (v * z2 - t)`, rounded half away from zero.
pub open spec fn tile_px(extent: int, z2: int, t: int, v: int) -> int {
    crate::fixed::round_div(extent * (v * z2 - t * (COORD_ONE as int)), COORD_ONE as int)
}

/// What a correct tile feature for a row says.
pub open spec fn tile_feature_ok(
    tf: TileFeature,
    row: StoreRow,
    extent: int,
    z2: int,
    tx: int,
    ty: int,
) -> bool {
    &&& tf.x == tile_px(extent, z2, tx, row.x as int)
    &&& tf.y == tile_px(extent, z2, ty, row.y as int)
    &&& (if row.weight > 1 {
        tf.data matches TileContent::Cluster(md) && metadata_ok(md, row)
    } else {
        tf.data matches TileContent::Point(idx) && idx == row.id_or_index
    })
}

/// The lower edge of a padded tile in normalized units:
/// `(t - radius/extent) / z2`, floored at the fixed-point granularity.
pub open spec fn tile_lo(extent: int, radius: int, z2: int, t: int) -> int {
    ((t * extent - radius) * (COORD_ONE as int)) / (extent * z2)
}

/// The upper edge of a padded tile in normalized units:
/// `(t + 1 + radius/extent) / z2`, floored at the fixed-point granularity.
pub open spec fn tile_hi(extent: int, radius: int, z2: int, t: int) -> int {
    (((t + 1) * extent + radius) * (COORD_ONE as int)) / (extent * z2)
}

/// The radius used to look up a cluster's children: the radius of the pass
/// that formed the cluster, one zoom below the children's store.
pub open spec fn child_radius_spec(opts: SuperclusterOptions, oz: int) -> int {
    if oz == 0 {
        (2 * (opts.radius as int) * (COORD_ONE as int)) / (opts.extent as int)
    } else {
        zoom_radius_spec(opts, oz - 1)
    }
}

/// Looking up children around a cluster's seed with the pass radius and
/// filtering by parent finds exactly the rows whose parent is the cluster:
/// every child was absorbed within that radius of the seed.
proof fn lemma_children_complete(
    opts: SuperclusterOptions,
    points: Seq<Option<InputPoint>>,
    oz: int,
    c: usize,
)
    requires
        opts.wf(),
        points.len() <= MAX_POINTS,
        points_in_unit(points),
        opts.min_zoom <= oz <= opts.max_zoom + 1,
        c >= points.len(),
        origin_zoom_of(c as int, points.len() as int) == oz,
        0 <= origin_row_of(c as int, points.len() as int) < final_store_model(
            opts,
            points,
            oz,
        ).len(),
    ensures
        ({
            let rows = final_store_model(opts, points, oz);
            let or = origin_row_of(c as int, points.len() as int);
            let dids = disk_row_ids(
                rows,
                rows[or].x as int,
                rows[or].y as int,
                child_radius_spec(opts, oz),
            );
            parent_filter(rows, dids, c, dids.len() as int) == parent_row_ids(rows, c)
        }),
{
    let rows = final_store_model(opts, points, oz);
    let nf = points.len() as int;
    let or = origin_row_of(c as int, nf);
    let rr = child_radius_spec(opts, oz);
    let dids = disk_row_ids(rows, rows[or].x as int, rows[or].y as int, rr);
    lemma_fresh_store_invariants(opts, points, oz);
    let fresh = fresh_store_model(opts, points, oz);
    if oz > opts.min_zoom {
        let z = (oz - 1) as u8;
        let mp = opts.min_points as int;
        let rr0 = zoom_radius_spec(opts, oz - 1);
        lemma_cluster_upto_frame(fresh, z, nf, mp, rr0, fresh.len() as int);
        assert forall|t: int|
            0 <= t < fresh.len() implies (#[trigger] rows[t]).x == fresh[t].x && rows[t].y
            == fresh[t].y by {
            assert(cluster_upto(fresh, z, nf, mp, rr0, fresh.len() as int).0[t] == rows[t]);
        }
        lemma_final_store_parents(opts, points, oz);
    } else {
        assert(rows == fresh);
    }
    crate::kdbush::lemma_disk_row_ids_props(rows, rows[or].x as int, rows[or].y as int, rr);
    lemma_parent_filter_props(rows, dids, c, dids.len() as int);
    let f = |row: StoreRow| row.parent_id == Option::Some(c);
    crate::kdbush::lemma_sel_ids_props(rows, f, rows.len() as int);
    let g = |row: StoreRow| row.parent_id == Option::Some(c);
    assert(parent_row_ids(rows, c) == sel_ids_upto(rows, f, rows.len() as int)) by {
        assert(f =~= g) by {
            assert(forall|row: StoreRow| #[trigger] f(row) == g(row));
        }
    }
    let lhs = parent_filter(rows, dids, c, dids.len() as int);
    let rhs = parent_row_ids(rows, c);
    assert forall|u: usize| lhs.contains(u) <==> rhs.contains(u) by {
        if lhs.contains(u) {
            let t = choose|t: int| 0 <= t < dids.len() && dids[t] == u;
            assert(u < rows.len() && f(rows[u as int]));
            assert(rhs.contains(u));
        }
        if rhs.contains(u) {
            let p = choose|p: int| 0 <= p < rhs.len() && rhs[p] == u;
            assert(u < rows.len() && f(rows[u as int]));
            assert(rows[u as int].parent_id == Option::Some(c));
            if oz > opts.min_zoom {
                let z = (oz - 1) as u8;
                let rr0 = zoom_radius_spec(opts, oz - 1);
                assert(parent_link_ok(rows, fresh, z, nf, rr0, u as int));
                let s = choose|s: int|
                    0 <= s < fresh.len() && c == encode_cluster_id(s, z as int, nf)
                        && row_in_disk(fresh[u as int], fresh[s].x as int, fresh[s].y as int, rr0);
                lemma_cluster_id_codec(s, oz - 1, nf);
                assert(s == or);
                assert(row_in_disk(rows[u as int], rows[or].x as int, rows[or].y as int, rr));
                assert(dids.contains(u));
                let t = choose|t: int| 0 <= t < dids.len() && dids[t] == u;
                assert(lhs.contains(u));
            } else {
                assert(store_ready(fresh, oz - 1));
                assert(rows[u as int].parent_id is None);
                assert(false);
            }
        }
    }
    crate::kdbush::lemma_ascending_same_membership(lhs, rhs);
}

/// Compute `(a / b)` scaled into fixed point, flooring: `(a * 2^32) / b`.
fn scale_div(a: i64, b: i64) -> (r: i64)
    requires
        1 <= b <= 0x4000_0000_0000_0000,
        -0x2_0000 <= a <= b + 0x2_0000,
    ensures
        r == (a * (COORD_ONE as int)) / (b as int),
        -0x2_0000_0000_0000 <= r <= 0x2_0004_0000_0000,
{
    proof {
        let bi = b as int;
        let p = a * (COORD_ONE as int);
        crate::fixed::lemma_div_floor_bounds(p, bi);
        assert(-0x2_0000 * (COORD_ONE as int) <= p) by (nonlinear_arith)
            requires
                -0x2_0000 <= a,
                p == a * (COORD_ONE as int),
        ;
        assert(p <= (bi + 0x2_0000) * (COORD_ONE as int)) by (nonlinear_arith)
            requires
                a <= bi + 0x2_0000,
                p == a * (COORD_ONE as int),
        ;
        assert(p / bi <= 0x2_0004_0000_0000) by (nonlinear_arith)
            requires
                1 <= bi,
                p <= (bi + 0x2_0000) * (COORD_ONE as int),
                bi * (p / bi) <= p < bi * (p / bi) + bi,
        ;
        assert(-0x2_0000_0000_0000 <= p / bi) by (nonlinear_arith)
            requires
                1 <= bi,
                -0x2_0000 * (COORD_ONE as int) <= p,
                bi * (p / bi) <= p < bi * (p / bi) + bi,
        ;
    }
    let q = crate::fixed::div_floor((a as i128) * (COORD_ONE as i128), b as i128);
    q as i64
}

/// The pixel coordinate of a normalized value within a tile.
fn tile_pixel(extent: u32, z2: u64, t: i64, v: i64) -> (r: i64)
    requires
        0 <= v <= COORD_ONE,
        1 <= z2 <= 0x8000_0000,
        -1 <= t <= z2,
        1 <= extent <= 0x10000,
    ensures
        r == tile_px(extent as int, z2 as int, t as int, v as int),
{
    proof {
        assert(0 <= (v as int) * (z2 as int) <= 0x8000_0000_0000_0000) by (nonlinear_arith)
            requires
                0 <= v <= COORD_ONE,
                1 <= z2 <= 0x8000_0000,
        ;
        assert(-0x1_0000_0000 <= (t as int) * (COORD_ONE as int)
            <= 0x8000_0000_0000_0000) by (nonlinear_arith)
            requires
                -1 <= t <= z2 <= 0x8000_0000,
        ;
        let d = (v as int) * (z2 as int) - (t as int) * (COORD_ONE as int);
        assert(-0x1_0000_0000_0000_0000 <= d <= 0x1_0000_0000_0000_0000);
        assert(-0x1_0000_0000_0000_0000_0000 <= (extent as int) * d
            <= 0x1_0000_0000_0000_0000_0000) by (nonlinear_arith)
            requires
                1 <= extent <= 0x10000,
                -0x1_0000_0000_0000_0000 <= d <= 0x1_0000_0000_0000_0000,
        ;
    }
    let n: i128 = (extent as i128) * ((v as i128) * (z2 as i128) - (t as i128) * (
    COORD_ONE as i128));
    let q = crate::fixed::div_round(n, COORD_ONE as i128);
    proof {
        crate::fixed::lemma_div_floor_bounds(2 * n + COORD_ONE, 2 * (COORD_ONE as int));
        crate::fixed::lemma_div_floor_bounds(2 * -(n as int) + COORD_ONE, 2 * (COORD_ONE as int));
        assert(-0x2_0000_0000_0000 <= q <= 0x2_0000_0000_0000);
    }
    q as i64
}

/// Every row of a loaded store lies in the unit square with positive
/// weight.
proof fn lemma_loaded_store_rows(opts: SuperclusterOptions, points: Seq<Option<InputPoint>>, zl: int)
    requires
        opts.wf(),
        points.len() <= MAX_POINTS,
        points_in_unit(points),
        opts.min_zoom <= zl <= opts.max_zoom + 1,
    ensures
        final_store_model(opts, points, zl).len() <= MAX_POINTS,
        final_store_model(opts, points, zl).len() == fresh_store_model(opts, points, zl).len(),
        forall|t: int|
            0 <= t < final_store_model(opts, points, zl).len() ==> (#[trigger] final_store_model(
                opts,
                points,
                zl,
            )[t]).in_unit() && final_store_model(opts, points, zl)[t].weight >= 1
                && final_store_model(opts, points, zl)[t].weight == fresh_store_model(
                opts,
                points,
                zl,
            )[t].weight && final_store_model(opts, points, zl)[t].x == fresh_store_model(
                opts,
                points,
                zl,
            )[t].x && final_store_model(opts, points, zl)[t].y == fresh_store_model(
                opts,
                points,
                zl,
            )[t].y && final_store_model(opts, points, zl)[t].id_or_index == fresh_store_model(
                opts,
                points,
                zl,
            )[t].id_or_index,
{
    lemma_fresh_store_invariants(opts, points, zl);
    let fresh = fresh_store_model(opts, points, zl);
    let rows = final_store_model(opts, points, zl);
    if zl > opts.min_zoom {
        let z = (zl - 1) as u8;
        let mp = opts.min_points as int;
        let rr0 = zoom_radius_spec(opts, zl - 1);
        lemma_cluster_upto_frame(fresh, z, points.len() as int, mp, rr0, fresh.len() as int);
        assert forall|t: int|
            0 <= t < rows.len() implies (#[trigger] rows[t]).in_unit() && rows[t].weight >= 1
            && rows[t].weight == fresh[t].weight && rows[t].x == fresh[t].x && rows[t].y
            == fresh[t].y && rows[t].id_or_index == fresh[t].id_or_index by {
            assert(cluster_upto(fresh, z, points.len() as int, mp, rr0, fresh.len() as int).0[t]
                == rows[t]);
            assert(fresh[t].in_unit() && fresh[t].weight >= 1);
        }
    } else {
        assert forall|t: int|
            0 <= t < rows.len() implies (#[trigger] rows[t]).in_unit() && rows[t].weight
            >= 1 by {
            assert(fresh[t].in_unit() && fresh[t].weight >= 1);
        }
    }
}

impl Supercluster {
    /// The number of input features the index was loaded with (cluster ids
    /// are offset past this).
    pub open spec fn n_feat(self) -> int {
        self.points@.len() as int
    }

    /// The number of zoom levels the index holds once loaded.
    pub open spec fn span(self) -> int {
        self.options.max_zoom + 2 - self.options.min_zoom
    }

    /// The store at zoom `zl` (the trees sit in descending zoom order).
    pub open spec fn store_at(self, zl: int) -> Seq<StoreRow> {
        self.trees@[self.options.max_zoom + 1 - zl].rows@
    }

    /// A loaded index: one well-formed tree per zoom level, holding exactly
    /// the store the load model assigns to that level.  Everything a query
    /// returns is thereby a function of the options and the loaded points.
    pub open spec fn loaded(self) -> bool {
        &&& self.options.wf()
        &&& self.points@.len() <= MAX_POINTS
        &&& points_in_unit(self.points@)
        &&& self.trees@.len() == self.span()
        &&& forall|j: int|
            0 <= j < self.span() ==> (#[trigger] self.trees@[j]).wf() && self.trees@[j].node_size
                == self.options.node_size && self.trees@[j].rows@ == final_store_model(
                self.options,
                self.points@,
                self.options.max_zoom + 1 - j,
            )
    }

    /// Load the input points into the index, clustering them at every zoom
    /// level from `max_zoom` down to `min_zoom`.  Entries given as `None`
    /// (non-point features) occupy an index but produce no row.  A re-load
    /// replaces all state.
    #[verifier::loop_isolation(false)]
    pub fn load(&mut self, points: Vec<Option<InputPoint>>) -> (r: Result<
        (),
        crate::error::SuperclusterError,
    >)
        requires
            old(self).options.wf(),
            points@.len() <= MAX_POINTS,
            points_in_unit(points@),
        ensures
            r is Ok,
            final(self).options == old(self).options,
            final(self).points == points,
            final(self).loaded(),
    {
        let ghost opts = self.options;
        self.points = points;
        let n = self.points.len();
        let mut seed: Vec<StoreRow> = Vec::new();
        let mut i: usize = 0;
        while i < n
            invariant
                i <= n,
                seed@ == seed_rows(self.points@, i as int),
            decreases n - i,
        {
            match self.points[i] {
                Option::Some(pt) => {
                    seed.push(
                        StoreRow {
                            x: pt.x,
                            y: pt.y,
                            zoom_processed: ZOOM_UNVISITED,
                            id_or_index: i,
                            parent_id: Option::None,
                            weight: 1,
                        },
                    );
                    proof {
                        assert(seed@ =~= seed_rows(self.points@, i + 1));
                    }
                },
                Option::None => {
                    proof {
                        assert(seed@ =~= seed_rows(self.points@, i + 1));
                    }
                },
            }
            i = i + 1;
        }
        proof {
            lemma_seed_rows_props(self.points@, n as int);
        }
        let mut trees: Vec<KDBush> = Vec::new();
        let seed_tree = self.create_tree(seed);
        trees.push(seed_tree);
        let passes = (self.options.max_zoom - self.options.min_zoom) as usize + 1;
        let mut step: usize = 0;
        proof {
            lemma_fresh_store_invariants(opts, self.points@, opts.max_zoom + 1);
        }
        while step < passes
            invariant
                step <= passes,
                trees@.len() == step + 1,
                forall|j: int|
                    0 <= j <= step ==> (#[trigger] trees@[j]).wf() && trees@[j].node_size
                        == opts.node_size,
                forall|j: int|
                    0 <= j < step ==> (#[trigger] trees@[j]).rows@ == final_store_model(
                        opts,
                        self.points@,
                        opts.max_zoom + 1 - j,
                    ),
                trees@[step as int].rows@ == fresh_store_model(
                    opts,
                    self.points@,
                    opts.max_zoom + 1 - step,
                ),
            decreases passes - step,
        {
            let zoom = self.options.max_zoom - step as u8;
            let ghost zl = zoom as int + 1;
            let mut t = trees.pop().unwrap();
            proof {
                lemma_fresh_store_invariants(opts, self.points@, zl);
            }
            let pair = self.cluster(&t, zoom);
            let (prev, next) = pair;
            proof {
                lemma_cluster_upto_frame(
                    t.rows@,
                    zoom,
                    self.n_feat(),
                    opts.min_points as int,
                    zoom_radius_spec(opts, zoom as int),
                    t.rows@.len() as int,
                );
                lemma_fresh_store_invariants(opts, self.points@, zl - 1);
            }
            t.set_rows(prev);
            trees.push(t);
            let next_tree = self.create_tree(next);
            trees.push(next_tree);
            step = step + 1;
        }
        self.trees = trees;
        proof {
            assert forall|j: int|
                0 <= j < self.span() implies (#[trigger] self.trees@[j]).wf()
                && self.trees@[j].node_size == self.options.node_size && self.trees@[j].rows@
                == final_store_model(self.options, self.points@, self.options.max_zoom + 1
                - j) by {
                if j == self.span() - 1 {
                    assert(self.options.max_zoom + 1 - j == self.options.min_zoom);
                }
            }
        }
        Result::Ok(())
    }

    /// The row indices a bbox query selects: in cartesian mode a direct box
    /// query; in latitude/longitude mode latitudes are clamped, longitudes
    /// wrapped, a box a whole world wide covers everything, and a box that
    /// crosses the antimeridian is split at the seam into two queries whose
    /// results are concatenated.
    pub open spec fn clusters_query_ids(
        self,
        min_x: int,
        min_y: int,
        max_x: int,
        max_y: int,
        zoom: int,
    ) -> Seq<usize> {
        let rows = self.store_at(self.limit_zoom_spec(zoom));
        match self.options.coordinate_system {
            CoordinateSystem::Cartesian { .. } => box_row_ids(rows, min_x, min_y, max_x, max_y),
            CoordinateSystem::LatLng => {
                let lo_y = clamp_unit(min_y);
                let hi_y = clamp_unit(max_y);
                if max_x - min_x >= COORD_ONE {
                    box_row_ids(rows, 0, lo_y, COORD_ONE as int, hi_y)
                } else {
                    let w = wrap_unit(min_x);
                    let e = if max_x == COORD_ONE {
                        COORD_ONE as int
                    } else {
                        wrap_unit(max_x)
                    };
                    if w > e {
                        box_row_ids(rows, w, lo_y, COORD_ONE as int, hi_y) + box_row_ids(
                            rows,
                            0,
                            lo_y,
                            e,
                            hi_y,
                        )
                    } else {
                        box_row_ids(rows, w, lo_y, e, hi_y)
                    }
                }
            },
        }
    }

    /// Retrieve clustered features within the specified bounding box and
    /// zoom level.  The box is given in normalized coordinates as
    /// `[min_x, min_y, max_x, max_y]`; in latitude/longitude mode the x
    /// bounds may lie outside the unit range and are wrapped around the
    /// antimeridian; they must stay within a few hundred world-widths so
    /// the wrap arithmetic stays in range.  Returns one record per selected
    /// row of the store at the effective zoom, in query order.
    pub fn get_clusters(&self, bbox: [i64; 4], zoom: u8) -> (r: Result<
        Vec<FeatureData>,
        crate::error::SuperclusterError,
    >)
        requires
            self.trees@.len() == 0 || self.loaded(),
            forall|i: int| 0 <= i < 4 ==> -0x100_0000_0000 <= #[trigger] bbox@[i] <= 0x100_0000_0000,
        ensures
            self.trees@.len() == 0 ==> (r matches Err(e) && e
                == crate::error::SuperclusterError::TreeNotFound),
            self.loaded() ==> (r matches Ok(v) && {
                let ids = self.clusters_query_ids(
                    bbox@[0] as int,
                    bbox@[1] as int,
                    bbox@[2] as int,
                    bbox@[3] as int,
                    zoom as int,
                );
                let rows = self.store_at(self.limit_zoom_spec(zoom as int));
                &&& v@.len() == ids.len()
                &&& forall|i: int|
                    0 <= i < ids.len() ==> feature_data_ok(#[trigger] v@[i], rows[ids[i] as int])
            }),
    {
        if self.trees.len() == 0 {
            return Result::Err(crate::error::SuperclusterError::TreeNotFound);
        }
        let zl = self.limit_zoom(zoom);
        let idx = (self.options.max_zoom as usize) + 1 - zl;
        let tree = &self.trees[idx];
        let ghost rows = tree.rows@;
        let nrows = tree.rows.len();
        proof {
            assert(self.trees@[idx as int].rows@ == self.store_at(zl as int));
            assert(rows.len() == nrows);
        }
        let ids: Vec<usize> = match &self.options.coordinate_system {
            CoordinateSystem::Cartesian { .. } => {
                let v = tree.range(bbox[0], bbox[1], bbox[2], bbox[3]);
                proof {
                    crate::kdbush::lemma_box_row_ids_props(
                        rows,
                        bbox@[0] as int,
                        bbox@[1] as int,
                        bbox@[2] as int,
                        bbox@[3] as int,
                    );
                }
                v
            },
            CoordinateSystem::LatLng => {
                let lo_y = clamp_coord(bbox[1]);
                let hi_y = clamp_coord(bbox[3]);
                if bbox[2] - bbox[0] >= COORD_ONE {
                    let v = tree.range(0, lo_y, COORD_ONE, hi_y);
                    proof {
                        crate::kdbush::lemma_box_row_ids_props(
                            rows,
                            0,
                            lo_y as int,
                            COORD_ONE as int,
                            hi_y as int,
                        );
                    }
                    v
                } else {
                    let w = wrap_coord(bbox[0]);
                    let e = if bbox[2] == COORD_ONE {
                        COORD_ONE
                    } else {
                        wrap_coord(bbox[2])
                    };
                    if w > e {
                        let mut a = tree.range(w, lo_y, COORD_ONE, hi_y);
                        let mut b = tree.range(0, lo_y, e, hi_y);
                        proof {
                            crate::kdbush::lemma_box_row_ids_props(
                                rows,
                                w as int,
                                lo_y as int,
                                COORD_ONE as int,
                                hi_y as int,
                            );
                            crate::kdbush::lemma_box_row_ids_props(
                                rows,
                                0,
                                lo_y as int,
                                e as int,
                                hi_y as int,
                            );
                        }
                        a.append(&mut b);
                        a
                    } else {
                        let v = tree.range(w, lo_y, e, hi_y);
                        proof {
                            crate::kdbush::lemma_box_row_ids_props(
                                rows,
                                w as int,
                                lo_y as int,
                                e as int,
                                hi_y as int,
                            );
                        }
                        v
                    }
                }
            },
        };
        let ghost idseq = self.clusters_query_ids(
            bbox@[0] as int,
            bbox@[1] as int,
            bbox@[2] as int,
            bbox@[3] as int,
            zoom as int,
        );
        assert(ids@ == idseq);
        assert(forall|t: int| 0 <= t < ids@.len() ==> (#[trigger] ids@[t]) < rows.len());
        let mut out: Vec<FeatureData> = Vec::new();
        let mut j: usize = 0;
        while j < ids.len()
            invariant
                j <= ids@.len(),
                out@.len() == j,
                forall|i: int|
                    0 <= i < j ==> feature_data_ok(#[trigger] out@[i], rows[ids@[i] as int]),
                ids@ == idseq,
                forall|t: int| 0 <= t < ids@.len() ==> (#[trigger] ids@[t]) < rows.len(),
                tree.rows@ == rows,
            decreases ids@.len() - j,
        {
            let id = ids[j];
            let fd = materialize_row(&tree.rows[id]);
            out.push(fd);
            j = j + 1;
        }
        Result::Ok(out)
    }

    /// Create a new supercluster builder instance.
    pub fn builder() -> (r: SuperclusterBuilder)
        ensures
            r.min_zoom is None,
            r.max_zoom is None,
            r.min_points is None,
            r.radius is None,
            r.extent is None,
            r.node_size is None,
            r.coordinate_system is None,
    {
        SuperclusterBuilder::new()
    }

    /// Create a new instance of `Supercluster` with the specified
    /// configuration settings.  The index holds no data until
    /// [`Self::load`] is called.
    pub fn new(options: SuperclusterOptions) -> (r: Self)
        requires
            options.wf(),
        ensures
            r.options == options,
            r.trees@.len() == 0,
            r.points@.len() == 0,
    {
        Supercluster { options, trees: Vec::new(), points: Vec::new() }
    }

    /// Create a KD-tree over the given store rows, configured with the
    /// index's leaf size, for spatial indexing.
    pub fn create_tree(&self, rows: Vec<StoreRow>) -> (t: KDBush)
        requires
            self.options.wf(),
            rows@.len() <= MAX_POINTS,
            forall|i: int| 0 <= i < rows@.len() ==> (#[trigger] rows@[i]).in_unit(),
        ensures
            t.wf(),
            t.rows == rows,
            t.node_size == self.options.node_size,
    {
        KDBush::build(rows, self.options.node_size)
    }

    /// The effective zoom level: the requested zoom clamped into
    /// `min_zoom ..= max_zoom + 1`.
    pub fn limit_zoom(&self, zoom: u8) -> (r: usize)
        requires
            self.options.wf(),
        ensures
            r == self.limit_zoom_spec(zoom as int),
    {
        let lo = if zoom >= self.options.min_zoom {
            zoom
        } else {
            self.options.min_zoom
        };
        let hi = self.options.max_zoom + 1;
        (if lo <= hi {
            lo
        } else {
            hi
        }) as usize
    }

    /// What [`Self::limit_zoom`] returns.
    pub open spec fn limit_zoom_spec(self, zoom: int) -> int {
        if zoom < self.options.min_zoom {
            self.options.min_zoom as int
        } else if zoom > self.options.max_zoom + 1 {
            self.options.max_zoom + 1
        } else {
            zoom
        }
    }

    /// Get the index of the point from which the cluster originated.
    pub fn get_origin_id(&self, cluster_id: usize) -> (r: usize)
        requires
            cluster_id >= self.points@.len(),
    ensures
            r == origin_row_of(cluster_id as int, self.points@.len() as int),
    {
        (cluster_id - self.points.len()) / 32
    }

    /// Get the zoom of the store holding the cluster's children.
    /// The zoom level is encoded in the cluster ID.
    pub fn get_origin_zoom(&self, cluster_id: usize) -> (r: usize)
        requires
            cluster_id >= self.points@.len(),
        ensures
            r == origin_zoom_of(cluster_id as int, self.points@.len() as int),
            r < 32,
    {
        (cluster_id - self.points.len()) % 32
    }

    /// The row indices of the store at the effective zoom that fall in the
    /// padded tile square.
    pub open spec fn tile_main_ids(self, z: int, x: int, y: int) -> Seq<usize> {
        let rows = self.store_at(self.limit_zoom_spec(z));
        let e = self.options.extent as int;
        let rad = self.options.radius as int;
        let z2 = two_pow(z as nat);
        box_row_ids(
            rows,
            tile_lo(e, rad, z2, x),
            tile_lo(e, rad, z2, y),
            tile_hi(e, rad, z2, x),
            tile_hi(e, rad, z2, y),
        )
    }

    /// The row indices of the wrap band just west of the antimeridian,
    /// queried for the leftmost tile column.
    pub open spec fn tile_left_ids(self, z: int, y: int) -> Seq<usize> {
        let rows = self.store_at(self.limit_zoom_spec(z));
        let e = self.options.extent as int;
        let rad = self.options.radius as int;
        let z2 = two_pow(z as nat);
        box_row_ids(
            rows,
            COORD_ONE - zoom_radius_spec(self.options, z),
            tile_lo(e, rad, z2, y),
            COORD_ONE as int,
            tile_hi(e, rad, z2, y),
        )
    }

    /// The row indices of the wrap band just east of the antimeridian,
    /// queried for the rightmost tile column.
    pub open spec fn tile_right_ids(self, z: int, y: int) -> Seq<usize> {
        let rows = self.store_at(self.limit_zoom_spec(z));
        let e = self.options.extent as int;
        let rad = self.options.radius as int;
        let z2 = two_pow(z as nat);
        box_row_ids(
            rows,
            0,
            tile_lo(e, rad, z2, y),
            zoom_radius_spec(self.options, z),
            tile_hi(e, rad, z2, y),
        )
    }

    /// Populate a tile with features for the given row indices, placing
    /// each at its pixel position relative to tile column `tx` and row
    /// `ty`.
    #[verifier::loop_isolation(false)]
    pub fn add_tile_features(
        &self,
        ids: &Vec<usize>,
        rows: &Vec<StoreRow>,
        tx: i64,
        ty: i64,
        z2: u64,
        tile: &mut Tile,
    )
        requires
            self.options.wf(),
            1 <= z2 <= 0x8000_0000,
            -1 <= tx <= z2,
            0 <= ty < z2,
            forall|a: int| 0 <= a < ids@.len() ==> (#[trigger] ids@[a]) < rows@.len(),
            forall|t: int| 0 <= t < rows@.len() ==> (#[trigger] rows@[t]).in_unit(),
        ensures
            final(tile).features@.len() == old(tile).features@.len() + ids@.len(),
            forall|i: int|
                0 <= i < old(tile).features@.len() ==> final(tile).features@[i] == old(
                    tile,
                ).features@[i],
            forall|i: int|
                0 <= i < ids@.len() ==> tile_feature_ok(
                    #[trigger] final(tile).features@[old(tile).features@.len() + i],
                    rows@[ids@[i] as int],
                    self.options.extent as int,
                    z2 as int,
                    tx as int,
                    ty as int,
                ),
    {
        let ghost base = tile.features@;
        let mut j: usize = 0;
        while j < ids.len()
            invariant
                j <= ids@.len(),
                tile.features@.len() == base.len() + j,
                forall|i: int| 0 <= i < base.len() ==> tile.features@[i] == base[i],
                forall|i: int|
                    0 <= i < j ==> tile_feature_ok(
                        #[trigger] tile.features@[base.len() + i],
                        rows@[ids@[i] as int],
                        self.options.extent as int,
                        z2 as int,
                        tx as int,
                        ty as int,
                    ),
            decreases ids@.len() - j,
        {
            let k = ids[j];
            let row = &rows[k];
            let px = tile_pixel(self.options.extent, z2, tx, row.x);
            let py = tile_pixel(self.options.extent, z2, ty, row.y);
            let data = if row.weight > 1 {
                TileContent::Cluster(get_cluster_metadata(row))
            } else {
                TileContent::Point(row.id_or_index)
            };
            tile.features.push(TileFeature { x: px, y: py, data });
            j = j + 1;
        }
    }

    /// Retrieve the features of the tile at the given zoom and tile
    /// coordinates: everything in the padded tile square, in pixel units,
    /// with the wrap bands across the antimeridian folded into the two
    /// edge columns.  Fails with `TileNotFound` when nothing is there.
    #[verifier::loop_isolation(false)]
    pub fn get_tile(&self, z: u8, x: u32, y: u32) -> (r: Result<
        Tile,
        crate::error::SuperclusterError,
    >)
        requires
            self.trees@.len() == 0 || self.loaded(),
            z <= 30,
            x < two_pow(z as nat),
            y < two_pow(z as nat),
        ensures
            self.trees@.len() == 0 ==> (r matches Result::Err(e) && e
                == crate::error::SuperclusterError::TreeNotFound),
            self.loaded() ==> ({
                let rows = self.store_at(self.limit_zoom_spec(z as int));
                let e = self.options.extent as int;
                let z2 = two_pow(z as nat);
                let main = self.tile_main_ids(z as int, x as int, y as int);
                let lefts = if x == 0 {
                    self.tile_left_ids(z as int, y as int)
                } else {
                    Seq::<usize>::empty()
                };
                let rights = if x == z2 - 1 {
                    self.tile_right_ids(z as int, y as int)
                } else {
                    Seq::<usize>::empty()
                };
                if main.len() + lefts.len() + rights.len() == 0 {
                    r matches Result::Err(err) && err
                        == crate::error::SuperclusterError::TileNotFound
                } else {
                    r matches Result::Ok(t) && {
                        &&& t.features@.len() == main.len() + lefts.len() + rights.len()
                        &&& forall|i: int|
                            0 <= i < main.len() ==> tile_feature_ok(
                                #[trigger] t.features@[i],
                                rows[main[i] as int],
                                e,
                                z2,
                                x as int,
                                y as int,
                            )
                        &&& forall|i: int|
                            0 <= i < lefts.len() ==> tile_feature_ok(
                                #[trigger] t.features@[main.len() + i],
                                rows[lefts[i] as int],
                                e,
                                z2,
                                z2,
                                y as int,
                            )
                        &&& forall|i: int|
                            0 <= i < rights.len() ==> tile_feature_ok(
                                #[trigger] t.features@[main.len() + lefts.len() + i],
                                rows[rights[i] as int],
                                e,
                                z2,
                                -1,
                                y as int,
                            )
                    }
                }
            }),
    {
        if self.trees.len() == 0 {
            return Result::Err(crate::error::SuperclusterError::TreeNotFound);
        }
        let zl = self.limit_zoom(z);
        let idx = (self.options.max_zoom as usize) + 1 - zl;
        let tree = &self.trees[idx];
        let ghost rows = tree.rows@;
        let nrows = tree.rows.len();
        proof {
            assert(self.trees@[idx as int].rows@ == self.store_at(zl as int));
            lemma_loaded_store_rows(self.options, self.points@, zl as int);
        }
        let z2 = crate::fixed::pow2_u64(z);
        let e = self.options.extent;
        let rad = self.options.radius;
        proof {
            assert(1 <= (e as int) * (z2 as int) <= 0x10000 * 0x8000_0000) by (nonlinear_arith)
                requires
                    1 <= e <= 0x10000,
                    1 <= z2 <= 0x8000_0000,
            ;
            assert(0 <= (x as int) * (e as int) < (e as int) * (z2 as int)) by (nonlinear_arith)
                requires
                    0 <= x < z2,
                    1 <= e,
            ;
            assert(0 <= (y as int) * (e as int) < (e as int) * (z2 as int)) by (nonlinear_arith)
                requires
                    0 <= y < z2,
                    1 <= e,
            ;
            assert(((x as int) + 1) * (e as int) <= (e as int) * (z2 as int)) by (nonlinear_arith)
                requires
                    x + 1 <= z2,
                    1 <= e,
            ;
            assert(((y as int) + 1) * (e as int) <= (e as int) * (z2 as int)) by (nonlinear_arith)
                requires
                    y + 1 <= z2,
                    1 <= e,
            ;
        }
        let den: i64 = (e as i64) * (z2 as i64);
        let min_x = scale_div((x as i64) * (e as i64) - (rad as i64), den);
        let max_x = scale_div(((x as i64) + 1) * (e as i64) + (rad as i64), den);
        let min_y = scale_div((y as i64) * (e as i64) - (rad as i64), den);
        let max_y = scale_div(((y as i64) + 1) * (e as i64) + (rad as i64), den);
        let mut tile = Tile { features: Vec::new() };
        let ids = tree.range(min_x, min_y, max_x, max_y);
        proof {
            crate::kdbush::lemma_box_row_ids_props(
                rows,
                min_x as int,
                min_y as int,
                max_x as int,
                max_y as int,
            );
        }
        self.add_tile_features(&ids, &tree.rows, x as i64, y as i64, z2, &mut tile);
        let ghost s1 = tile.features@;
        let ghost main = self.tile_main_ids(z as int, x as int, y as int);
        let ghost lefts = if x == 0 {
            self.tile_left_ids(z as int, y as int)
        } else {
            Seq::<usize>::empty()
        };
        let ghost rights = if x == z2 as u32 - 1 {
            self.tile_right_ids(z as int, y as int)
        } else {
            Seq::<usize>::empty()
        };
        assert(ids@ == main);
        if x == 0 {
            let rr = self.zoom_radius(z);
            let band = tree.range(COORD_ONE - rr, min_y, COORD_ONE, max_y);
            proof {
                crate::kdbush::lemma_box_row_ids_props(
                    rows,
                    COORD_ONE - rr,
                    min_y as int,
                    COORD_ONE as int,
                    max_y as int,
                );
            }
            self.add_tile_features(&band, &tree.rows, z2 as i64, y as i64, z2, &mut tile);
            assert(band@ == lefts);
        }
        let ghost s2 = tile.features@;
        if x == (z2 as u32) - 1 {
            let rr = self.zoom_radius(z);
            let band = tree.range(0, min_y, rr, max_y);
            proof {
                crate::kdbush::lemma_box_row_ids_props(
                    rows,
                    0,
                    min_y as int,
                    rr as int,
                    max_y as int,
                );
            }
            self.add_tile_features(&band, &tree.rows, -1, y as i64, z2, &mut tile);
            assert(band@ == rights);
        }
        let ghost s3 = tile.features@;
        proof {
            let ee = self.options.extent as int;
            assert forall|i: int|
                0 <= i < main.len() implies tile_feature_ok(
                #[trigger] s3[i],
                rows[main[i] as int],
                ee,
                z2 as int,
                x as int,
                y as int,
            ) by {
                assert(tile_feature_ok(
                    s1[0 + i],
                    rows[ids@[i] as int],
                    ee,
                    z2 as int,
                    (x as i64) as int,
                    (y as i64) as int,
                ));
                assert(s2[i] == s1[i]);
                assert(s3[i] == s2[i]);
            }
            if x == 0 {
                assert forall|i: int|
                    0 <= i < lefts.len() implies tile_feature_ok(
                    #[trigger] s3[main.len() + i],
                    rows[lefts[i] as int],
                    ee,
                    z2 as int,
                    z2 as int,
                    y as int,
                ) by {
                    assert(tile_feature_ok(
                        s2[s1.len() + i],
                        rows[lefts[i] as int],
                        ee,
                        z2 as int,
                        (z2 as i64) as int,
                        (y as i64) as int,
                    ));
                    assert(s3[main.len() + i] == s2[main.len() + i]);
                }
            }
            if x == (z2 as u32) - 1 {
                assert forall|i: int|
                    0 <= i < rights.len() implies tile_feature_ok(
                    #[trigger] s3[main.len() + lefts.len() + i],
                    rows[rights[i] as int],
                    ee,
                    z2 as int,
                    -1,
                    y as int,
                ) by {
                    assert(tile_feature_ok(
                        s3[s2.len() + i],
                        rows[rights[i] as int],
                        ee,
                        z2 as int,
                        (-1int),
                        (y as i64) as int,
                    ));
                    assert(s2.len() == main.len() + lefts.len());
                }
            }
        }
        proof {
            assert(tile.features@.len() == main.len() + lefts.len() + rights.len());
        }
        if tile.features.len() == 0 {
            return Result::Err(crate::error::SuperclusterError::TileNotFound);
        }
        Result::Ok(tile)
    }

    /// What walking down the cluster tree from `c` with candidate zoom `ez`
    /// returns: the walk stops past `max_zoom`, at a failed child lookup,
    /// as soon as a cluster has other than one child, or at a sole child
    /// that is a single point.
    pub open spec fn expansion_zoom_model(self, c: usize, ez: int, fuel: nat) -> int
        decreases fuel,
    {
        if fuel == 0 || ez > self.options.max_zoom {
            ez
        } else {
            let n = self.n_feat();
            if c < n {
                ez
            } else {
                let oz = origin_zoom_of(c as int, n);
                if oz < self.options.min_zoom || oz > self.options.max_zoom + 1 {
                    ez
                } else if origin_row_of(c as int, n) >= self.store_at(oz).len() {
                    ez
                } else {
                    let kids = parent_row_ids(self.store_at(oz), c);
                    if kids.len() == 0 {
                        ez
                    } else if kids.len() != 1 {
                        ez + 1
                    } else {
                        let row = self.store_at(oz)[kids[0] as int];
                        if row.weight > 1 {
                            self.expansion_zoom_model(row.id_or_index, ez + 1, (fuel - 1) as nat)
                        } else {
                            ez + 1
                        }
                    }
                }
            }
        }
    }

    /// Determine the zoom level at which the cluster expands into more than
    /// one child (or stops being expandable).
    pub fn get_cluster_expansion_zoom(&self, cluster_id: usize) -> (r: usize)
        requires
            self.trees@.len() == 0 || self.loaded(),
            cluster_id >= self.points@.len(),
            origin_zoom_of(cluster_id as int, self.points@.len() as int) >= 1,
        ensures
            self.loaded() ==> r == self.expansion_zoom_model(
                cluster_id,
                origin_zoom_of(cluster_id as int, self.n_feat()) - 1,
                33,
            ),
    {
        let mut c = cluster_id;
        let mut ez: usize = self.get_origin_zoom(cluster_id) - 1;
        let ghost ez0 = ez as int;
        let ghost target = self.expansion_zoom_model(cluster_id, ez as int, 33);
        let ghost mut fuel: nat = 33;
        while ez <= self.options.max_zoom as usize
            invariant_except_break
                self.trees@.len() == 0 || self.loaded(),
                0 <= ez0 <= ez,
                self.loaded() ==> ez - ez0 <= 31 && fuel == 33 - (ez - ez0) && target
                    == self.expansion_zoom_model(c, ez as int, fuel),
            ensures
                self.loaded() ==> ez as int == target,
            decreases self.options.max_zoom + 1 - ez,
        {
            let children = self.get_children(c);
            match children {
                Result::Err(_) => {
                    proof {
                        if self.loaded() {
                            assert(self.expansion_zoom_model(c, ez as int, fuel) == ez);
                        }
                    }
                    break ;
                },
                Result::Ok(v) => {
                    proof {
                        assert(self.loaded());
                    }
                    let ghost pre_ez = ez as int;
                    let ghost pre_fuel = fuel;
                    let ghost pre_c = c;
                    ez = ez + 1;
                    proof {
                        fuel = (fuel - 1) as nat;
                    }
                    if v.len() != 1 {
                        proof {
                            if self.loaded() {
                                assert(self.expansion_zoom_model(pre_c, pre_ez, pre_fuel)
                                    == pre_ez + 1);
                            }
                        }
                        break ;
                    }
                    let next_c = match &v[0] {
                        FeatureData::Cluster(cf) => Option::Some(cf.metadata.cluster_id),
                        FeatureData::Point(_) => Option::None,
                    };
                    match next_c {
                        Option::Some(nc) => {
                            proof {
                                if self.loaded() {
                                    let n = self.n_feat();
                                    let oz = origin_zoom_of(pre_c as int, n);
                                    let kids = parent_row_ids(self.store_at(oz), pre_c);
                                    assert(feature_data_ok(v@[0], self.store_at(oz)[kids[0] as int]));
                                    assert(self.expansion_zoom_model(pre_c, pre_ez, pre_fuel)
                                        == self.expansion_zoom_model(nc, pre_ez + 1, fuel));
                                }
                            }
                            c = nc;
                        },
                        Option::None => {
                            proof {
                                if self.loaded() {
                                    let n = self.n_feat();
                                    let oz = origin_zoom_of(pre_c as int, n);
                                    let kids = parent_row_ids(self.store_at(oz), pre_c);
                                    assert(feature_data_ok(v@[0], self.store_at(oz)[kids[0] as int]));
                                    assert(self.expansion_zoom_model(pre_c, pre_ez, pre_fuel)
                                        == pre_ez + 1);
                                }
                            }
                            break ;
                        },
                    }
                },
            }
        }
        ez
    }

    /// One step of the leaf walk over a cluster's children `kids[j..]`:
    /// whole clusters that fit inside the remaining offset are skipped by
    /// their weight; other clusters are descended into; single points are
    /// skipped while short of the offset and collected afterwards; the walk
    /// stops as soon as `limit` leaves are collected.
    pub open spec fn leaves_kids_model(
        self,
        rowsz: Seq<StoreRow>,
        kids: Seq<usize>,
        j: int,
        limit: int,
        offset: int,
        skipped: int,
        acc: Seq<usize>,
        fuel: nat,
    ) -> (int, Seq<usize>)
        decreases fuel, kids.len() - j,
    {
        if j < 0 || j >= kids.len() || fuel == 0 {
            (skipped, acc)
        } else {
            let row = rowsz[kids[j] as int];
            let step = if row.weight > 1 {
                if skipped + row.weight <= offset {
                    (skipped + row.weight, acc)
                } else {
                    self.append_leaves_model(
                        row.id_or_index,
                        limit,
                        offset,
                        skipped,
                        acc,
                        (fuel - 1) as nat,
                    )
                }
            } else if skipped < offset {
                (skipped + 1, acc)
            } else {
                (skipped, acc.push(row.id_or_index))
            };
            if step.1.len() == limit {
                step
            } else {
                self.leaves_kids_model(rowsz, kids, j + 1, limit, offset, step.0, step.1, fuel)
            }
        }
    }

    /// The leaf walk from cluster `c`: resolve its children as
    /// [`Self::get_children`] would, then walk them.  A failed lookup
    /// leaves the state unchanged.
    pub open spec fn append_leaves_model(
        self,
        c: usize,
        limit: int,
        offset: int,
        skipped: int,
        acc: Seq<usize>,
        fuel: nat,
    ) -> (int, Seq<usize>)
        decreases fuel, parent_row_ids(
            self.store_at(origin_zoom_of(c as int, self.n_feat())),
            c,
        ).len() + 1,
    {
        if fuel == 0 {
            (skipped, acc)
        } else {
            let n = self.n_feat();
            if c < n {
                (skipped, acc)
            } else {
                let oz = origin_zoom_of(c as int, n);
                if oz < self.options.min_zoom || oz > self.options.max_zoom + 1 {
                    (skipped, acc)
                } else if origin_row_of(c as int, n) >= self.store_at(oz).len() {
                    (skipped, acc)
                } else {
                    let kids = parent_row_ids(self.store_at(oz), c);
                    if kids.len() == 0 {
                        (skipped, acc)
                    } else {
                        self.leaves_kids_model(
                            self.store_at(oz),
                            kids,
                            0,
                            limit,
                            offset,
                            skipped,
                            acc,
                            fuel,
                        )
                    }
                }
            }
        }
    }

    /// Append the leaves of the cluster to `result`, honoring `limit` and
    /// `offset`, exactly as [`Self::append_leaves_model`] describes.
    /// Returns the updated skip count.
    pub fn append_leaves(
        &self,
        result: &mut Vec<usize>,
        cluster_id: usize,
        limit: usize,
        offset: usize,
        skipped: usize,
        Ghost(fuel): Ghost<nat>,
    ) -> (r: usize)
        requires
            self.loaded(),
            1 <= fuel,
            offset < 0x4000_0000,
            skipped <= offset,
            cluster_id >= self.points@.len() && self.options.min_zoom <= origin_zoom_of(
                cluster_id as int,
                self.points@.len() as int,
            ) <= self.options.max_zoom + 1 ==> fuel >= self.options.max_zoom + 3 - origin_zoom_of(
                cluster_id as int,
                self.points@.len() as int,
            ),
        ensures
            r <= offset,
            (r as int, final(result)@) == self.append_leaves_model(
                cluster_id,
                limit as int,
                offset as int,
                skipped as int,
                old(result)@,
                fuel,
            ),
        decreases self.options.max_zoom + 3 - origin_zoom_of(
            cluster_id as int,
            self.points@.len() as int,
        ),
    {
        let ghost target = self.append_leaves_model(
            cluster_id,
            limit as int,
            offset as int,
            skipped as int,
            result@,
            fuel,
        );
        let children = self.get_children(cluster_id);
        let v = match children {
            Result::Err(_) => {
                proof {
                    assert(target == (skipped as int, result@));
                }
                return skipped;
            },
            Result::Ok(v) => v,
        };
        let ghost n = self.n_feat();
        let ghost oz = origin_zoom_of(cluster_id as int, n);
        let ghost rowsz = self.store_at(oz);
        let ghost kids = parent_row_ids(rowsz, cluster_id);
        proof {
            assert(target == self.leaves_kids_model(
                rowsz,
                kids,
                0,
                limit as int,
                offset as int,
                skipped as int,
                result@,
                fuel,
            ));
            lemma_loaded_store_rows(self.options, self.points@, oz);
            lemma_fresh_store_ids(self.options, self.points@, oz);
            let j9 = self.options.max_zoom + 1 - oz;
            assert(self.trees@[j9].rows@ == final_store_model(self.options, self.points@, oz));
            crate::kdbush::lemma_sel_ids_props(
                rowsz,
                |row: StoreRow| row.parent_id == Option::Some(cluster_id),
                rowsz.len() as int,
            );
            assert forall|p: int| 0 <= p < kids.len() implies (#[trigger] kids[p])
                < rowsz.len() by {
                let f = |row: StoreRow| row.parent_id == Option::Some(cluster_id);
                let g = |row: StoreRow| row.parent_id == Option::Some(cluster_id);
                assert(f =~= g) by {
                    assert(forall|row: StoreRow| #[trigger] f(row) == g(row));
                }
            }
            lemma_weight_conservation(*self, oz);
            lemma_fresh_store_invariants(self.options, self.points@, oz);
            assert forall|t: int|
                0 <= t < rowsz.len() implies (#[trigger] rowsz[t]).weight <= MAX_POINTS by {
                lemma_row_weight_le_total(rowsz, t);
            }
        }
        let mut sk = skipped;
        let mut j: usize = 0;
        while j < v.len()
            invariant_except_break
                self.loaded(),
                j <= v@.len(),
                v@.len() == kids.len(),
                sk <= offset,
                offset < 0x4000_0000,
                oz == origin_zoom_of(cluster_id as int, self.n_feat()),
                self.options.min_zoom <= oz <= self.options.max_zoom + 1,
                fuel >= self.options.max_zoom + 3 - oz,
                rowsz == self.store_at(oz),
                kids == parent_row_ids(rowsz, cluster_id),
                forall|p: int| 0 <= p < kids.len() ==> (#[trigger] kids[p]) < rowsz.len(),
                forall|p: int|
                    0 <= p < kids.len() ==> feature_data_ok(
                        #[trigger] v@[p],
                        rowsz[kids[p] as int],
                    ),
                forall|t: int|
                    0 <= t < rowsz.len() ==> (#[trigger] rowsz[t]).weight
                        <= MAX_POINTS,
                target == self.leaves_kids_model(
                    rowsz,
                    kids,
                    j as int,
                    limit as int,
                    offset as int,
                    sk as int,
                    result@,
                    fuel,
                ),
                store_rows_ok(self.options, self.points@, oz, fresh_store_model(self.options, self.points@, oz)),
                rowsz.len() == fresh_store_model(self.options, self.points@, oz).len(),
                forall|t: int|
                    0 <= t < rowsz.len() ==> (#[trigger] rowsz[t]).weight == fresh_store_model(
                        self.options,
                        self.points@,
                        oz,
                    )[t].weight && rowsz[t].id_or_index == fresh_store_model(
                        self.options,
                        self.points@,
                        oz,
                    )[t].id_or_index,
            ensures
                sk <= offset,
                target == (sk as int, result@),
            decreases v@.len() - j,
        {
            let ghost row = rowsz[kids[j as int] as int];
            let ghost pre_sk = sk as int;
            let ghost pre_acc = result@;
            match &v[j] {
                FeatureData::Cluster(cf) => {
                    let w = cf.metadata.point_count;
                    proof {
                        assert(w == row.weight && cf.metadata.cluster_id == row.id_or_index);
                        assert(row.weight <= MAX_POINTS);
                    }
                    if sk + (w as usize) <= offset {
                        sk = sk + (w as usize);
                    } else {
                        proof {
                            let kk = kids[j as int] as int;
                            let freshz = fresh_store_model(self.options, self.points@, oz);
                            assert(freshz[kk].weight > 1);
                            assert(freshz[kk].id_or_index == row.id_or_index);
                            assert(freshz[kk].weight >= 1 && (freshz[kk].weight > 1
                                ==> freshz[kk].id_or_index >= self.points@.len() && oz + 1
                                <= origin_zoom_of(
                                freshz[kk].id_or_index as int,
                                self.points@.len() as int,
                            ) <= self.options.max_zoom + 1));
                            assert(origin_zoom_of(row.id_or_index as int, self.n_feat()) >= oz
                                + 1);
                        }
                        sk = self.append_leaves(
                            result,
                            cf.metadata.cluster_id,
                            limit,
                            offset,
                            sk,
                            Ghost((fuel - 1) as nat),
                        );
                    }
                },
                FeatureData::Point(idx) => {
                    if sk < offset {
                        sk = sk + 1;
                    } else {
                        result.push(*idx);
                    }
                },
            }
            proof {
                let step = if row.weight > 1 {
                    if pre_sk + row.weight <= offset {
                        (pre_sk + row.weight, pre_acc)
                    } else {
                        self.append_leaves_model(
                            row.id_or_index,
                            limit as int,
                            offset as int,
                            pre_sk,
                            pre_acc,
                            (fuel - 1) as nat,
                        )
                    }
                } else if pre_sk < offset {
                    (pre_sk + 1, pre_acc)
                } else {
                    (pre_sk, pre_acc.push(row.id_or_index))
                };
                assert((sk as int, result@) == step);
            }
            if result.len() == limit {
                proof {
                    assert(target == (sk as int, result@));
                }
                break ;
            }
            j = j + 1;
        }
        sk
    }

    /// Retrieve the leaves of a cluster: the indices of its original input
    /// points, depth first, honoring `limit` and `offset`.
    pub fn get_leaves(&self, cluster_id: usize, limit: usize, offset: usize) -> (leaves: Vec<
        usize,
    >)
        requires
            self.loaded(),
            offset < 0x4000_0000,
        ensures
            leaves@ == self.append_leaves_model(
                cluster_id,
                limit as int,
                offset as int,
                0,
                Seq::empty(),
                33,
            ).1,
    {
        let mut leaves: Vec<usize> = Vec::new();
        let _skipped = self.append_leaves(&mut leaves, cluster_id, limit, offset, 0, Ghost(33nat));
        leaves
    }

    /// The radius for a children lookup around a cluster with origin zoom
    /// `oz`.
    fn child_radius(&self, oz: usize) -> (r: i64)
        requires
            self.options.wf(),
            oz <= 31,
        ensures
            r == child_radius_spec(self.options, oz as int),
            0 <= r <= 0x4_0000_0000_0000,
    {
        if oz == 0 {
            let num: u64 = 2 * (self.options.radius as u64) * 0x1_0000_0000u64;
            let q = num / (self.options.extent as u64);
            proof {
                crate::fixed::lemma_div_floor_bounds(num as int, self.options.extent as int);
            }
            q as i64
        } else {
            self.zoom_radius((oz - 1) as u8)
        }
    }

    /// What a children lookup must return for `cluster_id`: an error naming
    /// why the id resolves to no populated cluster, or one record per row
    /// whose parent is the cluster, in row order.
    pub open spec fn children_result_ok(
        self,
        c: usize,
        r: Result<Vec<FeatureData>, crate::error::SuperclusterError>,
    ) -> bool {
        let n = self.n_feat();
        if c < n {
            r matches Result::Err(e) && e == crate::error::SuperclusterError::ClusterNotFound
        } else {
            let oz = origin_zoom_of(c as int, n);
            if oz < self.options.min_zoom || oz > self.options.max_zoom + 1 {
                r matches Result::Err(e) && e == crate::error::SuperclusterError::TreeNotFound
            } else if origin_row_of(c as int, n) >= self.store_at(oz).len() {
                r matches Result::Err(e) && e == crate::error::SuperclusterError::ClusterNotFound
            } else {
                let kids = parent_row_ids(self.store_at(oz), c);
                if kids.len() == 0 {
                    r matches Result::Err(e) && e
                        == crate::error::SuperclusterError::ClusterNotFound
                } else {
                    r matches Result::Ok(v) && v@.len() == kids.len() && (forall|i: int|
                        0 <= i < kids.len() ==> feature_data_ok(
                            #[trigger] v@[i],
                            self.store_at(oz)[kids[i] as int],
                        ))
                }
            }
        }
    }

    /// Retrieve the children of a cluster: every row of the store at the
    /// cluster's origin zoom whose parent is this cluster, materialized in
    /// row order.
    #[verifier::loop_isolation(false)]
    pub fn get_children(&self, cluster_id: usize) -> (r: Result<
        Vec<FeatureData>,
        crate::error::SuperclusterError,
    >)
        requires
            self.trees@.len() == 0 || self.loaded(),
        ensures
            self.trees@.len() == 0 && cluster_id >= self.points@.len() ==> (r matches Result::Err(
                e,
            ) && e == crate::error::SuperclusterError::TreeNotFound),
            self.trees@.len() == 0 ==> r is Err,
            self.loaded() ==> self.children_result_ok(cluster_id, r),
    {
        if cluster_id < self.points.len() {
            return Result::Err(crate::error::SuperclusterError::ClusterNotFound);
        }
        let oz = self.get_origin_zoom(cluster_id);
        if self.trees.len() == 0 {
            return Result::Err(crate::error::SuperclusterError::TreeNotFound);
        }
        if oz < self.options.min_zoom as usize || oz > self.options.max_zoom as usize + 1 {
            return Result::Err(crate::error::SuperclusterError::TreeNotFound);
        }
        let or = self.get_origin_id(cluster_id);
        let idx = (self.options.max_zoom as usize) + 1 - oz;
        let tree = &self.trees[idx];
        let ghost rows = tree.rows@;
        let nrows = tree.rows.len();
        proof {
            assert(self.trees@[idx as int].rows@ == self.store_at(oz as int));
        }
        if or >= nrows {
            return Result::Err(crate::error::SuperclusterError::ClusterNotFound);
        }
        proof {
            lemma_fresh_store_invariants(self.options, self.points@, oz as int);
            let fresh = fresh_store_model(self.options, self.points@, oz as int);
            if oz > self.options.min_zoom as usize {
                let z = (oz - 1) as u8;
                let mp = self.options.min_points as int;
                let rr0 = zoom_radius_spec(self.options, oz - 1);
                lemma_cluster_upto_frame(fresh, z, self.n_feat(), mp, rr0, fresh.len() as int);
                assert forall|t: int|
                    0 <= t < fresh.len() implies (#[trigger] rows[t]).x == fresh[t].x && rows[t].y
                    == fresh[t].y by {
                    assert(cluster_upto(fresh, z, self.n_feat(), mp, rr0, fresh.len() as int).0[t]
                        == rows[t]);
                }
            }
            assert(0 <= rows[or as int].x <= COORD_ONE && 0 <= rows[or as int].y <= COORD_ONE) by {
                assert(fresh[or as int].in_unit());
            }
        }
        let rr = self.child_radius(oz);
        let seed_row = tree.rows[or];
        let nbrs = tree.within(seed_row.x, seed_row.y, rr);
        let ghost dids = nbrs@;
        proof {
            crate::kdbush::lemma_disk_row_ids_props(
                rows,
                seed_row.x as int,
                seed_row.y as int,
                rr as int,
            );
        }
        let mut out: Vec<FeatureData> = Vec::new();
        let ghost mut kept: Seq<usize> = Seq::empty();
        let mut j: usize = 0;
        while j < nbrs.len()
            invariant
                j <= dids.len(),
                nbrs@ == dids,
                tree.rows@ == rows,
                forall|a: int| 0 <= a < dids.len() ==> (#[trigger] dids[a]) < rows.len(),
                kept == parent_filter(rows, dids, cluster_id, j as int),
                out@.len() == kept.len(),
                forall|i: int| 0 <= i < kept.len() ==> (#[trigger] kept[i]) < rows.len(),
                forall|i: int|
                    0 <= i < kept.len() ==> feature_data_ok(
                        #[trigger] out@[i],
                        rows[kept[i] as int],
                    ),
            decreases dids.len() - j,
        {
            let k = nbrs[j];
            let keep = match tree.rows[k].parent_id {
                Option::Some(p) => p == cluster_id,
                Option::None => false,
            };
            if keep {
                let ghost pre_out = out@;
                let ghost pre_kept = kept;
                let fd = materialize_row(&tree.rows[k]);
                out.push(fd);
                proof {
                    kept = kept.push(k);
                    assert(kept =~= parent_filter(rows, dids, cluster_id, j + 1));
                    assert forall|i: int| 0 <= i < kept.len() implies (#[trigger] kept[i])
                        < rows.len() by {
                        if i < kept.len() - 1 {
                            assert(kept[i] == pre_kept[i]);
                        } else {
                            assert(kept[i] == k);
                        }
                    }
                    assert forall|i: int|
                        0 <= i < kept.len() implies feature_data_ok(
                        #[trigger] out@[i],
                        rows[kept[i] as int],
                    ) by {
                        if i < kept.len() - 1 {
                            assert(out@[i] == pre_out[i]);
                            assert(kept[i] == pre_kept[i]);
                            assert(feature_data_ok(pre_out[i], rows[pre_kept[i] as int]));
                        } else {
                            assert(out@[i] == fd && kept[i] == k);
                        }
                    }
                }
            } else {
                proof {
                    assert(kept =~= parent_filter(rows, dids, cluster_id, j + 1));
                }
            }
            j = j + 1;
        }
        proof {
            lemma_children_complete(self.options, self.points@, oz as int, cluster_id);
            assert(kept == parent_row_ids(rows, cluster_id));
        }
        if out.len() == 0 {
            proof {
                assert(parent_row_ids(rows, cluster_id).len() == 0);
            }
            return Result::Err(crate::error::SuperclusterError::ClusterNotFound);
        }
        Result::Ok(out)
    }

    /// The pass radius at zoom `z`, in fixed-point normalized units.
    fn zoom_radius(&self, z: u8) -> (r: i64)
        requires
            self.options.wf(),
            z <= 31,
        ensures
            r == zoom_radius_spec(self.options, z as int),
            0 <= r <= 0x1_0000_0000_0000,
    {
        let p2 = crate::fixed::pow2_u64(z);
        proof {
            assert((self.options.extent as int) * (p2 as int) <= 0x10000 * 0x8000_0000)
                by (nonlinear_arith)
                requires
                    1 <= self.options.extent <= 0x10000,
                    1 <= p2 <= 0x8000_0000,
            ;
            assert((self.options.extent as int) * (p2 as int) >= 1) by (nonlinear_arith)
                requires
                    1 <= self.options.extent,
                    1 <= p2,
            ;
        }
        let num: u64 = (self.options.radius as u64) * 0x1_0000_0000u64;
        let den: u64 = (self.options.extent as u64) * p2;
        let q = num / den;
        proof {
            crate::fixed::lemma_div_floor_bounds(num as int, den as int);
        }
        q as i64
    }

    /// One clustering pass: consume the store indexed by `tree` at zoom
    /// `zoom + 1` and produce the stamped version of that store together
    /// with the next (lower-zoom) store, exactly as [`cluster_model`]
    /// describes.
    #[verifier::loop_isolation(false)]
    #[verifier::rlimit(100)]
    pub fn cluster(&self, tree: &KDBush, zoom: u8) -> (out: (Vec<StoreRow>, Vec<StoreRow>))
        requires
            self.options.wf(),
            tree.wf(),
            zoom <= self.options.max_zoom,
            self.points@.len() <= MAX_POINTS,
            tree.rows@.len() <= MAX_POINTS,
            store_ready(tree.rows@, zoom as int),
            total_weight(tree.rows@) <= MAX_POINTS,
        ensures
            (out.0@, out.1@) == cluster_model(
                tree.rows@,
                zoom,
                self.points@.len() as int,
                self.options.min_points as int,
                zoom_radius_spec(self.options, zoom as int),
            ),
    {
        let rr = self.zoom_radius(zoom);
        let ghost rows0 = tree.rows@;
        let ghost nf = self.points@.len() as int;
        let ghost mp = self.options.min_points as int;
        let ghost rri = rr as int;
        let mut data = tree.rows.clone();
        let mut next_data: Vec<StoreRow> = Vec::new();
        let n = data.len();
        assert(data@ == rows0);
        let mut i: usize = 0;
        while i < n
            invariant
                i <= n,
                (data@, next_data@) == cluster_upto(rows0, zoom, nf, mp, rri, i as int),
            decreases n - i,
        {
            let ghost data_pre = data@;
            let ghost next_pre = next_data@;
            proof {
                lemma_cluster_upto_frame(rows0, zoom, nf, mp, rri, i as int);
                assert(data@.len() == n);
                assert forall|t: int|
                    0 <= t < n implies (#[trigger] data_pre[t]).weight == rows0[t].weight
                    && data_pre[t].x == rows0[t].x && data_pre[t].y == rows0[t].y by {
                    assert(cluster_upto(rows0, zoom, nf, mp, rri, i as int).0[t] == data_pre[t]);
                }
            }
            if data[i].zoom_processed > zoom as u32 {
                let row_i = data[i];
                data.set(
                    i,
                    StoreRow { zoom_processed: zoom as u32, ..row_i },
                );
                let ghost d1 = data@;
                proof {
                    assert(d1 == data_pre.update(i as int, stamp_row(row_i, zoom)));
                }
                let nbrs = tree.within(row_i.x, row_i.y, rr);
                proof {
                    assert forall|t: int|
                        0 <= t < rows0.len() implies (#[trigger] rows0[t]).x == d1[t].x
                        && rows0[t].y == d1[t].y by {}
                    crate::kdbush::lemma_disk_ids_coords_only(
                        rows0,
                        d1,
                        row_i.x as int,
                        row_i.y as int,
                        rri,
                    );
                    crate::kdbush::lemma_disk_row_ids_props(
                        d1,
                        row_i.x as int,
                        row_i.y as int,
                        rri,
                    );
                    crate::kdbush::lemma_ascending_len_bound(nbrs@, d1.len() as int);
                    assert forall|t: int|
                        0 <= t < d1.len() implies (#[trigger] d1[t]).in_unit() by {
                        assert(rows0[t].in_unit());
                    }
                }
                let ghost nbv = nbrs@;
                let w0 = row_i.weight;
                proof {
                    lemma_row_weight_le_total(rows0, i as int);
                }
                let mut num_points: u64 = w0;
                let mut j: usize = 0;
                while j < nbrs.len()
                    invariant
                        j <= nbv.len(),
                        data@ == d1,
                        num_points == w0 + nbr_weight_sum(d1, nbv, zoom, j as int),
                        num_points <= MAX_POINTS + j * MAX_POINTS,
                    decreases nbv.len() - j,
                {
                    let k = nbrs[j];
                    if data[k].zoom_processed > zoom as u32 {
                        proof {
                            lemma_row_weight_le_total(rows0, k as int);
                            assert(d1[k as int].weight == data_pre[k as int].weight);
                            assert(data_pre[k as int].weight == rows0[k as int].weight);
                            assert(data@[k as int].weight <= MAX_POINTS);
                        }
                        num_points = num_points + data[k].weight;
                    }
                    j = j + 1;
                }
                let ghost wsum = w0 + nbr_weight_sum(d1, nbv, zoom, nbv.len() as int);
                proof {
                    lemma_nbr_sums_bounds(d1, nbv, zoom, nbv.len() as int);
                }
                if num_points > w0 && num_points >= self.options.min_points as u64 {
                    let id = i * 32 + (zoom as usize) + 1 + self.points.len();
                    proof {
                        assert(id == encode_cluster_id(i as int, zoom as int, nf));
                    }
                    proof {
                        assert((w0 as int) * (row_i.x as int) <= (w0 as int) * (COORD_ONE as int)
                            && 0 <= (w0 as int) * (row_i.x as int) && (w0 as int) * (
                        row_i.y as int) <= (w0 as int) * (COORD_ONE as int) && 0 <= (w0 as int) * (
                        row_i.y as int)) by (nonlinear_arith)
                            requires
                                0 <= w0,
                                0 <= row_i.x <= COORD_ONE,
                                0 <= row_i.y <= COORD_ONE,
                        ;
                        assert((w0 as int) * (COORD_ONE as int) <= MAX_POINTS * (COORD_ONE as int))
                            by (nonlinear_arith)
                            requires
                                w0 <= MAX_POINTS,
                        ;
                    }
                    let mut wx: u128 = (w0 as u128) * (row_i.x as u128);
                    let mut wy: u128 = (w0 as u128) * (row_i.y as u128);
                    let mut j: usize = 0;
                    while j < nbrs.len()
                        invariant
                            j <= nbv.len(),
                            data@ == absorb_nbrs(d1, nbv, zoom, id, j as int),
                            wx == (w0 as int) * (row_i.x as int) + nbr_wx_sum(
                                d1,
                                nbv,
                                zoom,
                                j as int,
                            ),
                            wy == (w0 as int) * (row_i.y as int) + nbr_wy_sum(
                                d1,
                                nbv,
                                zoom,
                                j as int,
                            ),
                            nbr_weight_sum(d1, nbv, zoom, j as int) <= j * MAX_POINTS,
                        decreases nbv.len() - j,
                    {
                        let k = nbrs[j];
                        proof {
                            lemma_absorb_nbrs_props(d1, nbv, zoom, id, j as int);
                            assert forall|u: int|
                                0 <= u < j implies (#[trigger] nbv[u]) as int != k as int by {
                                assert(nbv[u] < nbv[j as int]);
                            }
                            assert(data@[k as int] == d1[k as int]);
                        }
                        if data[k].zoom_processed > zoom as u32 {
                            let rk = data[k];
                            proof {
                                lemma_row_weight_le_total(rows0, k as int);
                                assert(rk.weight == rows0[k as int].weight);
                                assert(rows0[k as int].in_unit());
                                assert(0 <= (rk.weight as int) * (rk.x as int) <= MAX_POINTS * (
                                COORD_ONE as int) && 0 <= (rk.weight as int) * (rk.y as int)
                                    <= MAX_POINTS * (COORD_ONE as int)) by (nonlinear_arith)
                                    requires
                                        0 <= rk.weight <= MAX_POINTS,
                                        0 <= rk.x <= COORD_ONE,
                                        0 <= rk.y <= COORD_ONE,
                                ;
                                lemma_nbr_sums_bounds(d1, nbv, zoom, j as int);
                                assert(nbr_weight_sum(d1, nbv, zoom, j as int) * (COORD_ONE as int)
                                    <= (j * MAX_POINTS) * (COORD_ONE as int)) by (nonlinear_arith)
                                    requires
                                        0 <= nbr_weight_sum(d1, nbv, zoom, j as int) <= j
                                            * MAX_POINTS,
                                ;
                            }
                            data.set(
                                k,
                                StoreRow {
                                    zoom_processed: zoom as u32,
                                    parent_id: Option::Some(id),
                                    ..rk
                                },
                            );
                            wx = wx + (rk.weight as u128) * (rk.x as u128);
                            wy = wy + (rk.weight as u128) * (rk.y as u128);
                            proof {
                                assert(data@ == absorb_nbrs(d1, nbv, zoom, id, j + 1));
                            }
                        } else {
                            proof {
                                assert(data@ == absorb_nbrs(d1, nbv, zoom, id, j + 1));
                            }
                        }
                        j = j + 1;
                    }
                    proof {
                        lemma_absorb_nbrs_props(d1, nbv, zoom, id, nbv.len() as int);
                    }
                    let seed = data[i];
                    data.set(i, StoreRow { parent_id: Option::Some(id), ..seed });
                    let wsum128 = num_points as u128;
                    proof {
                        assert(wx <= wsum * (COORD_ONE as int) && wy <= wsum * (COORD_ONE as int))
                            by (nonlinear_arith)
                            requires
                                wx == (w0 as int) * (row_i.x as int) + nbr_wx_sum(
                                    d1,
                                    nbv,
                                    zoom,
                                    nbv.len() as int,
                                ),
                                wy == (w0 as int) * (row_i.y as int) + nbr_wy_sum(
                                    d1,
                                    nbv,
                                    zoom,
                                    nbv.len() as int,
                                ),
                                nbr_wx_sum(d1, nbv, zoom, nbv.len() as int) <= nbr_weight_sum(
                                    d1,
                                    nbv,
                                    zoom,
                                    nbv.len() as int,
                                ) * (COORD_ONE as int),
                                nbr_wy_sum(d1, nbv, zoom, nbv.len() as int) <= nbr_weight_sum(
                                    d1,
                                    nbv,
                                    zoom,
                                    nbv.len() as int,
                                ) * (COORD_ONE as int),
                                (w0 as int) * (row_i.x as int) <= (w0 as int) * (COORD_ONE as int),
                                (w0 as int) * (row_i.y as int) <= (w0 as int) * (COORD_ONE as int),
                                wsum == w0 + nbr_weight_sum(d1, nbv, zoom, nbv.len() as int),
                        ;
                        lemma_div_is_ordered(wx as int, wsum * (COORD_ONE as int), wsum);
                        lemma_div_is_ordered(wy as int, wsum * (COORD_ONE as int), wsum);
                        vstd::arithmetic::div_mod::lemma_div_by_multiple(COORD_ONE as int, wsum);
                        assert((COORD_ONE as int) * wsum == wsum * (COORD_ONE as int))
                            by (nonlinear_arith);
                        lemma_fundamental_div_mod(wx as int, wsum);
                        lemma_fundamental_div_mod(wy as int, wsum);
                        vstd::arithmetic::div_mod::lemma_div_pos_is_pos(wx as int, wsum);
                        vstd::arithmetic::div_mod::lemma_div_pos_is_pos(wy as int, wsum);
                    }
                    let mx = (wx / wsum128) as i64;
                    let my = (wy / wsum128) as i64;
                    next_data.push(
                        StoreRow {
                            x: mx,
                            y: my,
                            zoom_processed: ZOOM_UNVISITED,
                            id_or_index: id,
                            parent_id: Option::None,
                            weight: num_points,
                        },
                    );
                    proof {
                        assert((data@, next_data@) == cluster_step(
                            data_pre,
                            next_pre,
                            i as int,
                            zoom,
                            nf,
                            mp,
                            rri,
                        ));
                    }
                } else {
                    next_data.push(data[i]);
                    if num_points > 1 {
                        let ghost next1 = next_data@;
                        let mut j: usize = 0;
                        while j < nbrs.len()
                            invariant
                                j <= nbv.len(),
                                data@ == stamp_nbrs(d1, nbv, zoom, j as int),
                                next_data@ == next1 + copied_rows(d1, nbv, zoom, j as int),
                            decreases nbv.len() - j,
                        {
                            let k = nbrs[j];
                            proof {
                                lemma_stamp_nbrs_props(d1, nbv, zoom, j as int);
                                assert forall|u: int|
                                    0 <= u < j implies (#[trigger] nbv[u]) as int != k as int by {
                                    assert(nbv[u] < nbv[j as int]);
                                }
                                assert(data@[k as int] == d1[k as int]);
                            }
                            if data[k].zoom_processed > zoom as u32 {
                                let rk = data[k];
                                let stamped = StoreRow { zoom_processed: zoom as u32, ..rk };
                                data.set(k, stamped);
                                next_data.push(stamped);
                                proof {
                                    assert(data@ == stamp_nbrs(d1, nbv, zoom, j + 1));
                                    assert(next_data@ =~= next1 + copied_rows(
                                        d1,
                                        nbv,
                                        zoom,
                                        j + 1,
                                    ));
                                }
                            } else {
                                proof {
                                    assert(data@ == stamp_nbrs(d1, nbv, zoom, j + 1));
                                    assert(next_data@ =~= next1 + copied_rows(
                                        d1,
                                        nbv,
                                        zoom,
                                        j + 1,
                                    ));
                                }
                            }
                            j = j + 1;
                        }
                        proof {
                            assert((data@, next_data@) == cluster_step(
                                data_pre,
                                next_pre,
                                i as int,
                                zoom,
                                nf,
                                mp,
                                rri,
                            ));
                        }
                    } else {
                        proof {
                            assert((data@, next_data@) == cluster_step(
                                data_pre,
                                next_pre,
                                i as int,
                                zoom,
                                nf,
                                mp,
                                rri,
                            ));
                        }
                    }
                }
            } else {
                proof {
                    assert((data@, next_data@) == cluster_step(
                        data_pre,
                        next_pre,
                        i as int,
                        zoom,
                        nf,
                        mp,
                        rri,
                    ));
                }
            }
            i = i + 1;
            proof {
                assert(cluster_upto(rows0, zoom, nf, mp, rri, i as int) == cluster_step(
                    data_pre,
                    next_pre,
                    i - 1,
                    zoom,
                    nf,
                    mp,
                    rri,
                ));
            }
        }
        (data, next_data)
    }
}

// ---------------------------------------------------------------------------
// The laws the index obeys.
// ---------------------------------------------------------------------------

/// At every zoom level the store's weights sum to the number of loaded
/// points: each input contributes to exactly one row per level.
pub proof fn lemma_weight_conservation(s: Supercluster, zl: int)
    requires
        s.loaded(),
        s.options.min_zoom <= zl <= s.options.max_zoom + 1,
    ensures
        total_weight(s.store_at(zl)) == loaded_count(s.points@),
{
    let j = s.options.max_zoom + 1 - zl;
    assert(s.trees@[j].rows@ == final_store_model(s.options, s.points@, zl));
    lemma_loaded_store_rows(s.options, s.points@, zl);
    lemma_fresh_store_invariants(s.options, s.points@, zl);
    assert forall|t: int|
        0 <= t < s.store_at(zl).len() implies (#[trigger] s.store_at(zl)[t]).weight
        == fresh_store_model(s.options, s.points@, zl)[t].weight by {
        assert(final_store_model(s.options, s.points@, zl)[t].weight == fresh_store_model(
            s.options,
            s.points@,
            zl,
        )[t].weight);
    }
    lemma_total_weight_pointwise(s.store_at(zl), fresh_store_model(s.options, s.points@, zl));
}

/// Every cluster row's id decodes to a strictly higher zoom level whose
/// store contains the origin row, and never collides with an input index.
pub proof fn lemma_cluster_id_decodes(s: Supercluster, zl: int, t: int)
    requires
        s.loaded(),
        s.options.min_zoom <= zl <= s.options.max_zoom + 1,
        0 <= t < s.store_at(zl).len(),
        s.store_at(zl)[t].weight > 1,
    ensures
        ({
            let c = s.store_at(zl)[t].id_or_index as int;
            let n = s.n_feat();
            &&& c >= n
            &&& zl + 1 <= origin_zoom_of(c, n) <= s.options.max_zoom + 1
            &&& origin_row_of(c, n) < s.store_at(origin_zoom_of(c, n)).len()
        }),
{
    let j = s.options.max_zoom + 1 - zl;
    assert(s.trees@[j].rows@ == final_store_model(s.options, s.points@, zl));
    lemma_loaded_store_rows(s.options, s.points@, zl);
    lemma_fresh_store_ids(s.options, s.points@, zl);
    let fresh = fresh_store_model(s.options, s.points@, zl);
    assert(fresh[t].weight > 1 && fresh[t].id_or_index == s.store_at(zl)[t].id_or_index);
    let c = s.store_at(zl)[t].id_or_index as int;
    let n = s.n_feat();
    let oz = origin_zoom_of(c, n);
    let j2 = s.options.max_zoom + 1 - oz;
    assert(s.trees@[j2].rows@ == final_store_model(s.options, s.points@, oz));
    lemma_loaded_store_rows(s.options, s.points@, oz);
}

/// Dateline symmetry: a bbox that crosses the antimeridian selects exactly
/// what its two halves select, the east-of-seam half first.
pub proof fn lemma_dateline_split(
    s: Supercluster,
    min_x: int,
    min_y: int,
    max_x: int,
    max_y: int,
    zoom: int,
)
    requires
        s.options.coordinate_system == CoordinateSystem::LatLng,
        0 <= max_x < min_x < COORD_ONE,
    ensures
        s.clusters_query_ids(min_x, min_y, max_x, max_y, zoom) == s.clusters_query_ids(
            min_x,
            min_y,
            COORD_ONE as int,
            max_y,
            zoom,
        ) + s.clusters_query_ids(0, min_y, max_x, max_y, zoom),
{
    vstd::arithmetic::div_mod::lemma_small_mod(min_x as nat, COORD_ONE as nat);
    vstd::arithmetic::div_mod::lemma_small_mod(max_x as nat, COORD_ONE as nat);
    vstd::arithmetic::div_mod::lemma_small_mod(0nat, COORD_ONE as nat);
}

/// Idempotent load: two indexes loaded with the same options and the same
/// points hold identical stores at every zoom level.
pub proof fn lemma_load_deterministic(a: Supercluster, b: Supercluster, zl: int)
    requires
        a.loaded(),
        b.loaded(),
        a.options == b.options,
        a.points@ == b.points@,
        a.options.min_zoom <= zl <= a.options.max_zoom + 1,
    ensures
        a.store_at(zl) == b.store_at(zl),
{
    let j = a.options.max_zoom + 1 - zl;
    assert(a.trees@[j].rows@ == final_store_model(a.options, a.points@, zl));
    assert(b.trees@[j].rows@ == final_store_model(b.options, b.points@, zl));
}

/// A box spanning the whole unit square selects every row of a store that
/// lies in the unit square.
proof fn lemma_world_box_all(rows: Seq<StoreRow>)
    requires
        rows.len() <= MAX_POINTS,
        forall|t: int| 0 <= t < rows.len() ==> (#[trigger] rows[t]).in_unit(),
    ensures
        box_row_ids(rows, 0, 0, COORD_ONE as int, COORD_ONE as int).len() == rows.len(),
{
    let ids = box_row_ids(rows, 0, 0, COORD_ONE as int, COORD_ONE as int);
    crate::kdbush::lemma_box_row_ids_props(rows, 0, 0, COORD_ONE as int, COORD_ONE as int);
    let ident = Seq::new(rows.len(), |i: int| i as usize);
    assert forall|u: usize| ids.contains(u) <==> ident.contains(u) by {
        if ids.contains(u) {
            let p = choose|p: int| 0 <= p < ids.len() && ids[p] == u;
            assert(ids[p] < rows.len());
            assert(ident[u as int] == u);
        }
        if ident.contains(u) {
            let p = choose|p: int| 0 <= p < ident.len() && ident[p] == u;
            assert(u < rows.len());
            assert(row_in_box(rows[u as int], 0, 0, COORD_ONE as int, COORD_ONE as int));
            assert(ids.contains(u));
        }
    }
    crate::kdbush::lemma_ascending_same_membership(ids, ident);
}

/// Monotone zoom: the worldwide query returns no more rows at a zoom level
/// than at the level above it.
pub proof fn lemma_monotone_zoom(s: Supercluster, zoom: int)
    requires
        s.loaded(),
        s.options.min_zoom <= zoom <= s.options.max_zoom,
    ensures
        s.clusters_query_ids(0, 0, COORD_ONE as int, COORD_ONE as int, zoom).len()
            <= s.clusters_query_ids(0, 0, COORD_ONE as int, COORD_ONE as int, zoom + 1).len(),
{
    let lo = s.store_at(zoom);
    let hi = s.store_at(zoom + 1);
    let j1 = s.options.max_zoom + 1 - zoom;
    let j2 = s.options.max_zoom - zoom;
    assert(s.trees@[j1].rows@ == final_store_model(s.options, s.points@, zoom));
    assert(s.trees@[j2].rows@ == final_store_model(s.options, s.points@, zoom + 1));
    lemma_loaded_store_rows(s.options, s.points@, zoom);
    lemma_loaded_store_rows(s.options, s.points@, zoom + 1);
    lemma_world_box_all(lo);
    lemma_world_box_all(hi);
    // one pass below: the store at `zoom` is the pass output over the store
    // at `zoom + 1`, and a pass never emits more rows than it consumes
    let rows0 = fresh_store_model(s.options, s.points@, zoom + 1);
    let z = zoom as u8;
    let nf = s.n_feat();
    let mp = s.options.min_points as int;
    let rr = zoom_radius_spec(s.options, zoom);
    lemma_fresh_store_invariants(s.options, s.points@, zoom + 1);
    lemma_cluster_upto_accounting(rows0, z, nf, mp, rr, rows0.len() as int);
    lemma_unvisited_bounds(cluster_upto(rows0, z, nf, mp, rr, rows0.len() as int).0, zoom);
    assert(fresh_store_model(s.options, s.points@, zoom) == cluster_upto(
        rows0,
        z,
        nf,
        mp,
        rr,
        rows0.len() as int,
    ).1);
}

} // verus!

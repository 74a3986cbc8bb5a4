//! The flat point store: one row per entity (input point or synthesized
//! cluster), with fixed per-row fields.

use crate::fixed::COORD_ONE;
use vstd::prelude::*;

verus! {

/// The sentinel for "not yet visited at any zoom": larger than every real
/// zoom level.
pub const ZOOM_UNVISITED: u32 = 0xFFFF_FFFF;

/// The largest number of input features an index accepts: it keeps the
/// packed cluster ids inside `usize` on every platform and every weighted
/// coordinate sum inside `i64`.
pub const MAX_POINTS: usize = 0x100_0000;

/// One row of a point store.
///
/// A row with `weight == 1` is a leaf backed by the input point at index
/// `id_or_index`; a row with `weight > 1` is a cluster whose packed id is
/// `id_or_index`.
#[derive(Clone, Copy, Debug, PartialEq, Eq)]
pub struct StoreRow {
    /// Normalized x in the unit square, fixed point.
    pub x: i64,

    /// Normalized y in the unit square, fixed point.
    pub y: i64,

    /// Lowest zoom at which this row has been visited; starts at
    /// [`ZOOM_UNVISITED`].
    pub zoom_processed: u32,

    /// If a leaf: index into the input-point vector; if a cluster: the
    /// packed cluster id.
    pub id_or_index: usize,

    /// Cluster id of the row's parent in the next-lower zoom, if any.
    pub parent_id: Option<usize>,

    /// Number of original input points aggregated (1 for leaves).
    pub weight: u64,
}

impl StoreRow {
    /// The row's coordinates lie in the normalized unit square.
    pub open spec fn in_unit(self) -> bool {
        0 <= self.x <= COORD_ONE && 0 <= self.y <= COORD_ONE
    }
}

/// The sum of the weights of all rows.
pub open spec fn total_weight(rows: Seq<StoreRow>) -> int
    decreases rows.len(),
{
    if rows.len() == 0 {
        0
    } else {
        total_weight(rows.drop_last()) + rows.last().weight
    }
}

/// Adding one row adds its weight.
pub proof fn lemma_total_weight_push(rows: Seq<StoreRow>, row: StoreRow)
    ensures
        total_weight(rows.push(row)) == total_weight(rows) + row.weight,
{
    assert(rows.push(row).drop_last() =~= rows);
    assert(rows.push(row).last() == row);
}

/// Weights are unsigned, so the sum is never negative.
pub proof fn lemma_total_weight_nonneg(rows: Seq<StoreRow>)
    ensures
        total_weight(rows) >= 0,
    decreases rows.len(),
{
    if rows.len() > 0 {
        lemma_total_weight_nonneg(rows.drop_last());
    }
}

} // verus!

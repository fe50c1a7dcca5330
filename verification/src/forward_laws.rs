//! What holds of every result of the forward bookkeeping.

use vstd::prelude::*;
use crate::compaction::lemma_none_visible;
use crate::composite::PixelCursor;
use crate::forward::visibility_of;
use crate::forward::Binning;
use crate::forward::ProjectedSplat;
use crate::intersect::record_valid;
use crate::prefix_sum::lemma_scan_is_monotone;
use crate::intersect::tiles_hit_of;
use crate::records::lemma_key_order_parts;
use crate::records::tile_of;
use crate::tile_bins::covered;
use crate::tile_bins::lemma_bins_partition;
use crate::tiles::TileGrid;

verus! {

/// The offsets of the splats' records start at zero, never decrease from one
/// splat to the next, and end at the number of intersections.
pub proof fn lemma_cum_tiles_hit_monotone(
    binning: Binning,
    projected: Seq<ProjectedSplat>,
    grid: TileGrid,
)
    requires
        binning.is_binning_for(projected, grid),
    ensures
        binning.cum_tiles_hit@.len() == binning.num_visible() + 1,
        binning.cum_tiles_hit@[0] == 0,
        binning.cum_tiles_hit@.last() == binning.num_intersects,
        forall|i: int, j: int|
            0 <= i <= j < binning.cum_tiles_hit@.len() ==> binning.cum_tiles_hit@[i]
                <= binning.cum_tiles_hit@[j],
{
    lemma_scan_is_monotone(binning.cum_tiles_hit@, tiles_hit_of(binning.footprints@));
}

/// Where every splat is culled there is no visible splat, no intersection
/// and no record, the range of every tile is empty, and a pixel of any tile
/// has no record to visit: nothing is blended over the background.
pub proof fn lemma_all_culled(binning: Binning, projected: Seq<ProjectedSplat>, grid: TileGrid)
    requires
        binning.is_binning_for(projected, grid),
        forall|g: int| 0 <= g < projected.len() ==> !(#[trigger] projected[g]).visible,
    ensures
        binning.num_visible() == 0,
        binning.num_intersects == 0,
        binning.records@.len() == 0,
        binning.depthsort_gid_from_isect@.len() == 0,
        binning.tile_bins@.len() == grid.count(),
        forall|t: int|
            0 <= t < grid.count() ==> (#[trigger] binning.tile_bins@[t]).start
                == binning.tile_bins@[t].end && PixelCursor::start_of(
                binning.tile_bins@[t],
            ).remaining() == 0,
{
    let visible = visibility_of(projected);
    lemma_none_visible(visible, projected.len() as int);
}

/// The tile ranges partition the places of the sorted records: each lies
/// within `num_intersects`, they follow one another in tile order without
/// overlap, every place lies in the range of a tile, and a range holds only
/// records of its tile.
pub proof fn lemma_tile_bins_partition(
    binning: Binning,
    projected: Seq<ProjectedSplat>,
    grid: TileGrid,
)
    requires
        binning.is_binning_for(projected, grid),
    ensures
        forall|t: int|
            0 <= t < grid.count() ==> 0 <= (#[trigger] binning.tile_bins@[t]).start
                <= binning.tile_bins@[t].end <= binning.num_intersects,
        forall|s: int, t: int|
            0 <= s < t < grid.count() ==> (#[trigger] binning.tile_bins@[s]).end <= (
            #[trigger] binning.tile_bins@[t]).start,
        forall|k: int| 0 <= k < binning.num_intersects ==> #[trigger] covered(binning.tile_bins@, k),
        forall|t: int, k: int|
            0 <= t < grid.count() && #[trigger] binning.tile_bins@[t].holds(k) ==> tile_of(
                binning.records@[k].key,
            ) == t,
{
    lemma_bins_partition(binning.tile_bins@, binning.records@, grid.count());
}

/// Within the range of a tile the records run front to back: from one place
/// to a later one the depth of the splat never decreases.
pub proof fn lemma_tile_range_front_to_back(
    binning: Binning,
    projected: Seq<ProjectedSplat>,
    grid: TileGrid,
    tile: int,
    i: int,
    j: int,
)
    requires
        binning.is_binning_for(projected, grid),
        0 <= tile < grid.count(),
        binning.tile_bins@[tile].start <= i <= j < binning.tile_bins@[tile].end,
    ensures
        binning.records@[i].value < binning.num_visible(),
        binning.records@[j].value < binning.num_visible(),
        binning.footprints@[binning.records@[i].value as int].depth
            <= binning.footprints@[binning.records@[j].value as int].depth,
{
    let records = binning.records@;
    assert(binning.tile_bins@[tile].holds(i));
    assert(binning.tile_bins@[tile].holds(j));
    assert(tile_of(records[i].key) == tile);
    assert(tile_of(records[j].key) == tile);
    assert(record_valid(records[i], binning.footprints@, grid));
    assert(record_valid(records[j], binning.footprints@, grid));
    assert(records[i].key <= records[j].key);
    lemma_key_order_parts(records[i].key, records[j].key);
}

} // verus!

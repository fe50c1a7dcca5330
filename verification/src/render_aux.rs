//! What the forward pass keeps for the backward pass.

use vstd::prelude::*;
use crate::forward::depths_of;
use crate::forward::Binning;
use crate::intersect::record_valid;
use crate::prefix_sum::lemma_scan_is_monotone;
use crate::intersect::tiles_hit_of;
use crate::radix_sort::lex_before;
use crate::records::tile_of;
use crate::records::NO_CONTRIBUTOR;
use crate::tile_bins::TileRange;
use crate::tiles::tiles_across;
use crate::tiles::ImageSize;
use crate::tiles::TileGrid;
use crate::tiles::TILE_WIDTH;

verus! {

/// Words of a splat's screen position.
pub const XY_WORDS: usize = 2;

/// Words of a splat's conic.
pub const CONIC_WORDS: usize = 3;

/// Words of a splat's colour.
pub const COLOR_WORDS: usize = 3;

/// The place of pixel (`x`, `y`) in an image stored row by row.
pub open spec fn pixel_place(size: ImageSize, x: int, y: int) -> int {
    y * size.width + x
}

/// `final_index` holds one entry for each pixel, and each entry is
/// `NO_CONTRIBUTOR` or a place in the range of the pixel's tile.
pub open spec fn final_index_valid(
    final_index: Seq<u32>,
    bins: Seq<TileRange>,
    grid: TileGrid,
    size: ImageSize,
) -> bool {
    &&& final_index.len() == size.width * size.height
    &&& forall|x: int, y: int|
        0 <= x < size.width && 0 <= y < size.height ==> entry_valid(
            final_index[#[trigger] pixel_place(size, x, y)],
            bins,
            grid,
            x,
            y,
        )
}

/// `entry` is `NO_CONTRIBUTOR` or a place in the range of the tile of pixel
/// (`x`, `y`).
pub open spec fn entry_valid(entry: u32, bins: Seq<TileRange>, grid: TileGrid, x: int, y: int)
    -> bool {
    entry == NO_CONTRIBUTOR || bins[grid.id_at(x / (TILE_WIDTH as int), y / (TILE_WIDTH as int))].holds(
        entry as int,
    )
}

/// The grid is the one that covers an image of the given size.
pub open spec fn grid_covers(grid: TileGrid, size: ImageSize) -> bool {
    &&& grid.wf()
    &&& grid.tiles_x == tiles_across(size.width)
    &&& grid.tiles_y == tiles_across(size.height)
}

/// Tests whether `final_index` is valid for the tile ranges and the image.
pub fn check_final_index(
    final_index: &Vec<u32>,
    bins: &Vec<TileRange>,
    grid: &TileGrid,
    size: ImageSize,
) -> (ok: bool)
    requires
        grid_covers(*grid, size),
        bins.len() == grid.count(),
    ensures
        ok == final_index_valid(final_index@, bins@, *grid, size),
{
    let width: u64 = size.width as u64;
    let height: u64 = size.height as u64;
    assert(width * height <= 0xffff_ffff * 0xffff_ffff) by (nonlinear_arith)
        requires
            width <= 0xffff_ffff,
            height <= 0xffff_ffff,
    ;
    if final_index.len() as u64 != width * height {
        return false;
    }
    let mut y: u32 = 0;
    while y < size.height
        invariant
            grid_covers(*grid, size),
            bins.len() == grid.count(),
            width == size.width,
            height == size.height,
            final_index.len() == width * height,
            0 <= y <= size.height,
            forall|a: int, b: int|
                0 <= a < size.width && 0 <= b < y ==> entry_valid(
                    final_index[#[trigger] pixel_place(size, a, b)],
                    bins@,
                    *grid,
                    a,
                    b,
                ),
        decreases size.height - y,
    {
        let mut x: u32 = 0;
        while x < size.width
            invariant
                grid_covers(*grid, size),
                bins.len() == grid.count(),
                width == size.width,
                height == size.height,
                final_index.len() == width * height,
                0 <= y < size.height,
                0 <= x <= size.width,
                forall|a: int, b: int|
                    0 <= a < size.width && 0 <= b < y ==> entry_valid(
                        final_index[#[trigger] pixel_place(size, a, b)],
                        bins@,
                        *grid,
                        a,
                        b,
                    ),
                forall|a: int|
                    0 <= a < x ==> entry_valid(
                        final_index[#[trigger] pixel_place(size, a, y as int)],
                        bins@,
                        *grid,
                        a,
                        y as int,
                    ),
            decreases size.width - x,
        {
            assert(y * width + x < width * height) by (nonlinear_arith)
                requires
                    0 <= x < width,
                    0 <= y,
                    y + 1 <= height,
            ;
            let place = (y as u64 * width + x as u64) as usize;
            assert(place == pixel_place(size, x as int, y as int));
            let entry = final_index[place];
            let tile = grid.tile_of_pixel(x, y);
            let range = bins[tile as usize];
            let ok = entry == NO_CONTRIBUTOR || (range.start <= entry && entry < range.end);
            assert(ok == entry_valid(entry, bins@, *grid, x as int, y as int));
            if !ok {
                return false;
            }
            x += 1;
        }
        y += 1;
    }
    true
}

/// The arrays that the backward pass reads. Arrays of per-splat rows are in
/// compact order; words of floating-point arrays are bit patterns.
#[derive(Debug)]
pub struct RenderAux {
    pub num_visible: u32,
    pub num_intersects: u32,
    pub tile_bins: Vec<TileRange>,
    pub radii_compact: Vec<u32>,
    pub depthsort_gid_from_isect: Vec<u32>,
    pub compact_from_depthsort_gid: Vec<u32>,
    pub depths: Vec<u32>,
    pub cum_tiles_hit: Vec<u32>,
    pub conic_comps: Vec<u32>,
    pub colors: Vec<u32>,
    pub final_index: Vec<u32>,
    pub global_from_compact_gid: Vec<u32>,
    pub xys: Vec<u32>,
}

/// The arrays of per-splat rows hold one row for each of `count` splats.
pub open spec fn rows_fit(
    count: int,
    radii: Seq<u32>,
    conics: Seq<u32>,
    colors: Seq<u32>,
    xys: Seq<u32>,
) -> bool {
    &&& radii.len() == count
    &&& conics.len() == CONIC_WORDS * count
    &&& colors.len() == COLOR_WORDS * count
    &&& xys.len() == XY_WORDS * count
}

/// Each entry is greater than the one before it.
pub open spec fn strictly_increasing(ids: Seq<u32>) -> bool {
    forall|c: int, d: int| 0 <= c < d < ids.len() ==> #[trigger] ids[c] < #[trigger] ids[d]
}

/// Each entry is below `bound`.
pub open spec fn all_below(ids: Seq<u32>, bound: int) -> bool {
    forall|k: int| 0 <= k < ids.len() ==> #[trigger] ids[k] < bound
}

/// Along `order` the depths never decrease, and splats of equal depth come
/// by ascending id.
pub open spec fn depth_sorted(order: Seq<u32>, depths: Seq<u32>) -> bool {
    forall|d: int, e: int|
        0 <= d < e < order.len() ==> lex_before(
            depths[#[trigger] order[d] as int] as nat,
            order[d] as int,
            depths[#[trigger] order[e] as int] as nat,
            order[e] as int,
        )
}

/// `offsets` has one entry more than there are splats, starts at zero,
/// never decreases and ends at `last`.
pub open spec fn is_offsets(offsets: Seq<u32>, count: int, last: u32) -> bool {
    &&& offsets.len() == count + 1
    &&& offsets[0] == 0
    &&& offsets.last() == last
    &&& forall|i: int, j: int|
        0 <= i <= j < offsets.len() ==> #[trigger] offsets[i] <= #[trigger] offsets[j]
}

/// The ranges follow one another from zero to `last`, one for each tile.
pub open spec fn is_chain(bins: Seq<TileRange>, num_tiles: int, last: u32) -> bool {
    &&& bins.len() == num_tiles
    &&& forall|t: int| 0 <= t < bins.len() ==> (#[trigger] bins[t]).start <= bins[t].end <= last
    &&& forall|t: int| 0 <= t < bins.len() - 1 ==> (#[trigger] bins[t]).end == bins[t + 1].start
    &&& bins.len() > 0 ==> bins[0].start == 0 && bins.last().end == last
    &&& bins.len() == 0 ==> last == 0
}

impl RenderAux {
    /// The arrays fit together: what the backward pass relies on.
    pub open spec fn wf(self, grid: TileGrid, size: ImageSize) -> bool {
        let count = self.num_visible as int;
        &&& self.global_from_compact_gid@.len() == count
        &&& strictly_increasing(self.global_from_compact_gid@)
        &&& self.compact_from_depthsort_gid@.len() == count
        &&& self.depths@.len() == count
        &&& all_below(self.compact_from_depthsort_gid@, count)
        &&& depth_sorted(self.compact_from_depthsort_gid@, self.depths@)
        &&& rows_fit(count, self.radii_compact@, self.conic_comps@, self.colors@, self.xys@)
        &&& is_offsets(self.cum_tiles_hit@, count, self.num_intersects)
        &&& self.depthsort_gid_from_isect@.len() == self.num_intersects
        &&& all_below(self.depthsort_gid_from_isect@, count)
        &&& is_chain(self.tile_bins@, grid.count(), self.num_intersects)
        &&& final_index_valid(self.final_index@, self.tile_bins@, grid, size)
    }

    /// Puts together what the backward pass reads: the results of the
    /// binning, the per-splat rows in compact order, and the last
    /// contributor of each pixel. The result is `None` where the rows do not
    /// hold one row for each visible splat or `final_index` is not valid.
    pub fn assemble(
        binning: Binning,
        grid: &TileGrid,
        size: ImageSize,
        radii_compact: Vec<u32>,
        conic_comps: Vec<u32>,
        colors: Vec<u32>,
        xys: Vec<u32>,
        final_index: Vec<u32>,
    ) -> (aux: Option<RenderAux>)
        requires
            binning.wf(*grid),
            grid_covers(*grid, size),
        ensures
            aux.is_some() <==> rows_fit(
                binning.num_visible(),
                radii_compact@,
                conic_comps@,
                colors@,
                xys@,
            ) && final_index_valid(final_index@, binning.tile_bins@, *grid, size),
            aux.is_some() ==> aux.unwrap().wf(*grid, size),
            aux.is_some() ==> aux.unwrap().depths@ == depths_of(binning.footprints@),
            aux.is_some() ==> aux.unwrap() == (RenderAux {
                num_visible: binning.num_visible() as u32,
                num_intersects: binning.num_intersects,
                tile_bins: binning.tile_bins,
                radii_compact,
                depthsort_gid_from_isect: binning.depthsort_gid_from_isect,
                compact_from_depthsort_gid: binning.order.compact_from_depthsort,
                depths: aux.unwrap().depths,
                cum_tiles_hit: binning.cum_tiles_hit,
                conic_comps,
                colors,
                final_index,
                global_from_compact_gid: binning.index.global_from_compact,
                xys,
            }),
    {
        let count = binning.index.global_from_compact.len();
        let rows_ok = radii_compact.len() == count && conic_comps.len() as u64 == CONIC_WORDS as u64
            * count as u64 && colors.len() as u64 == COLOR_WORDS as u64 * count as u64
            && xys.len() as u64 == XY_WORDS as u64 * count as u64;
        if !rows_ok {
            return None;
        }
        if !check_final_index(&final_index, &binning.tile_bins, grid, size) {
            return None;
        }
        let depths = crate::forward::footprint_depths(&binning.footprints);
        proof {
            lemma_scan_is_monotone(binning.cum_tiles_hit@, tiles_hit_of(binning.footprints@));
            if binning.tile_bins@.len() == 0 && binning.records@.len() > 0 {
                assert(tile_of(binning.records@[0].key) < grid.count());
            }
            assert forall|k: int| 0 <= k < binning.num_intersects implies
                #[trigger] binning.depthsort_gid_from_isect@[k] < count by {
                assert(record_valid(binning.records@[k], binning.footprints@, *grid));
            }
        }
        Some(
            RenderAux {
                num_visible: count as u32,
                num_intersects: binning.num_intersects,
                tile_bins: binning.tile_bins,
                radii_compact,
                depthsort_gid_from_isect: binning.depthsort_gid_from_isect,
                compact_from_depthsort_gid: binning.order.compact_from_depthsort,
                depths,
                cum_tiles_hit: binning.cum_tiles_hit,
                conic_comps,
                colors,
                final_index,
                global_from_compact_gid: binning.index.global_from_compact,
                xys,
            },
        )
    }
}

} // verus!

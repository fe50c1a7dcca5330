//! Counting the tiles that each visible splat overlaps, and writing one
//! intersection record for each such pair.

use vstd::prelude::*;
use crate::prefix_sum::is_scan_of;
use crate::prefix_sum::sum_to;
use crate::records::depth_of;
use crate::records::key_of;
use crate::records::sort_key;
use crate::records::tile_of;
use crate::records::IntersectionRecord;
use crate::tile_bins::tiles_below;
use crate::tiles::TileGrid;
use crate::tiles::TileRect;

verus! {

/// What the binning needs of a visible splat: the tiles that its bounding box
/// overlaps and its depth.
#[derive(Clone, Copy, Debug, PartialEq, Eq, Structural)]
pub struct Footprint {
    pub rect: TileRect,
    pub depth: u32,
}

/// Every footprint's rectangle lies inside the grid.
pub open spec fn footprints_in(footprints: Seq<Footprint>, grid: TileGrid) -> bool {
    forall|c: int| 0 <= c < footprints.len() ==> (#[trigger] footprints[c]).rect.wf_in(grid)
}

/// For each footprint, the number of tiles of its rectangle.
pub open spec fn tiles_hit_of(footprints: Seq<Footprint>) -> Seq<u32> {
    Seq::new(footprints.len(), |c: int| footprints[c].rect.area() as u32)
}

/// The record of splat `c` and the `k`-th tile of its rectangle.
pub open spec fn record_of(footprints: Seq<Footprint>, grid: TileGrid, c: int, k: int)
    -> IntersectionRecord {
    IntersectionRecord {
        key: key_of(footprints[c].rect.tile_at(grid, k) as u32, footprints[c].depth),
        value: c as u32,
    }
}

/// `records` holds the records of all footprints, those of splat `c` from
/// place `offsets[c]` on, its tiles row by row.
pub open spec fn is_records_of(
    records: Seq<IntersectionRecord>,
    footprints: Seq<Footprint>,
    grid: TileGrid,
    offsets: Seq<u32>,
) -> bool {
    &&& records.len() == offsets[footprints.len() as int]
    &&& forall|c: int, k: int|
        0 <= c < footprints.len() && 0 <= k < footprints[c].rect.area() ==> records[offsets[c] + k]
            == #[trigger] record_of(footprints, grid, c, k)
}

/// The record names one of the footprints, carries that footprint's depth,
/// and lies in a tile of the grid.
pub open spec fn record_valid(
    record: IntersectionRecord,
    footprints: Seq<Footprint>,
    grid: TileGrid,
) -> bool {
    &&& record.value < footprints.len()
    &&& depth_of(record.key) == footprints[record.value as int].depth
    &&& tile_of(record.key) < grid.count()
}

/// Every record is valid for the footprints and the grid.
pub open spec fn records_valid(
    records: Seq<IntersectionRecord>,
    footprints: Seq<Footprint>,
    grid: TileGrid,
) -> bool {
    forall|p: int| 0 <= p < records.len() ==> record_valid(#[trigger] records[p], footprints, grid)
}

/// Counts the tiles that each footprint overlaps.
pub fn count_tiles_hit(footprints: &Vec<Footprint>, grid: &TileGrid) -> (counts: Vec<u32>)
    requires
        grid.wf(),
        footprints_in(footprints@, *grid),
    ensures
        counts@ == tiles_hit_of(footprints@),
{
    let n = footprints.len();
    let mut counts: Vec<u32> = Vec::with_capacity(n);
    let mut c: usize = 0;
    while c < n
        invariant
            n == footprints.len(),
            grid.wf(),
            footprints_in(footprints@, *grid),
            0 <= c <= n,
            counts.len() == c,
            forall|b: int| 0 <= b < c ==> #[trigger] counts[b] == footprints[b].rect.area(),
        decreases n - c,
    {
        let hit = footprints[c].rect.tiles_hit(grid);
        counts.push(hit);
        c += 1;
    }
    assert(counts@ =~= tiles_hit_of(footprints@));
    counts
}

/// Writes the intersection records of all footprints, splat by splat, at the
/// offsets that the scan of the tile counts gives.
pub fn build_records(footprints: &Vec<Footprint>, grid: &TileGrid, offsets: &Vec<u32>) -> (records:
    Vec<IntersectionRecord>)
    requires
        grid.wf(),
        footprints_in(footprints@, *grid),
        footprints.len() <= u32::MAX,
        is_scan_of(offsets@, tiles_hit_of(footprints@)),
    ensures
        is_records_of(records@, footprints@, *grid, offsets@),
        records_valid(records@, footprints@, *grid),
        tiles_below(records@, grid.count()),
{
    let n = footprints.len();
    let ghost counts = tiles_hit_of(footprints@);
    let mut records: Vec<IntersectionRecord> = Vec::new();
    let mut c: usize = 0;
    while c < n
        invariant
            n == footprints.len(),
            n <= u32::MAX,
            grid.wf(),
            footprints_in(footprints@, *grid),
            counts == tiles_hit_of(footprints@),
            is_scan_of(offsets@, counts),
            0 <= c <= n,
            records.len() == offsets[c as int],
            records_valid(records@, footprints@, *grid),
            forall|b: int, k: int|
                0 <= b < c && 0 <= k < footprints[b].rect.area() ==> records[offsets[b] + k]
                    == #[trigger] record_of(footprints@, *grid, b, k),
        decreases n - c,
    {
        let footprint = footprints[c];
        let hit = footprint.rect.tiles_hit(grid);
        proof {
            assert forall|b: int| 0 <= b < n implies footprints[b].rect.area() == #[trigger] counts[b] by {
                crate::tiles::lemma_area_in_grid(footprints[b].rect, *grid);
            }
            assert(sum_to(counts, c + 1) == sum_to(counts, c as int) + counts[c as int]);
            assert(offsets[c + 1] == offsets[c as int] + hit);
            assert forall|b: int| 0 <= b < c implies offsets[b] + footprints[b].rect.area()
                <= offsets[c as int] by {
                assert(sum_to(counts, b + 1) == sum_to(counts, b) + counts[b]);
                crate::prefix_sum::lemma_sum_to_monotone(counts, b + 1, c as int);
                assert(offsets[b + 1] == sum_to(counts, b + 1));
            }
        }
        let mut k: u32 = 0;
        while k < hit
            invariant
                n == footprints.len(),
                n <= u32::MAX,
                grid.wf(),
                0 <= c < n,
                footprint == footprints[c as int],
                footprint.rect.wf_in(*grid),
                hit == footprint.rect.area(),
                offsets.len() == n + 1,
                offsets[c + 1] == offsets[c as int] + hit,
                0 <= k <= hit,
                records.len() == offsets[c as int] + k,
                records_valid(records@, footprints@, *grid),
                forall|b: int|
                    0 <= b < c ==> offsets[b] + footprints[b].rect.area() <= offsets[c as int],
                forall|b: int, j: int|
                    0 <= b < c && 0 <= j < footprints[b].rect.area() ==> records[offsets[b] + j]
                        == #[trigger] record_of(footprints@, *grid, b, j),
                forall|j: int|
                    0 <= j < k ==> records[offsets[c as int] + j] == #[trigger] record_of(
                        footprints@,
                        *grid,
                        c as int,
                        j,
                    ),
            decreases hit - k,
        {
            let tile = footprint.rect.nth_tile(grid, k);
            let record = IntersectionRecord { key: sort_key(tile, footprint.depth), value: c as u32 };
            assert(record == record_of(footprints@, *grid, c as int, k as int));
            assert(record_valid(record, footprints@, *grid));
            let ghost before = records@;
            records.push(record);
            proof {
                assert forall|p: int| 0 <= p < records.len() implies record_valid(
                    #[trigger] records[p],
                    footprints@,
                    *grid,
                ) by {
                    if p < before.len() {
                        assert(records[p] == before[p]);
                    }
                }
                assert forall|b: int, j: int|
                    0 <= b < c && 0 <= j < footprints[b].rect.area() implies records[offsets[b]
                    + j] == #[trigger] record_of(footprints@, *grid, b, j) by {
                    assert(before[offsets[b] + j] == record_of(footprints@, *grid, b, j));
                }
                assert forall|j: int| 0 <= j < k + 1 implies records[offsets[c as int] + j]
                    == #[trigger] record_of(footprints@, *grid, c as int, j) by {
                    if j < k {
                        assert(before[offsets[c as int] + j] == record_of(
                            footprints@,
                            *grid,
                            c as int,
                            j,
                        ));
                    }
                }
            }
            k += 1;
        }
        c += 1;
    }
    records
}

} // verus!

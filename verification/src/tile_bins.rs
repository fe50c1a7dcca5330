//! Per-tile ranges into the sorted intersection records.

use vstd::prelude::*;
use crate::records::key_tile;
use crate::records::tile_of;
use crate::records::IntersectionRecord;

verus! {

/// The records of one tile: places `start` up to but not including `end` of
/// the sorted records. A tile that nothing overlaps has `start == end`.
#[derive(Clone, Copy, Debug, PartialEq, Eq, Structural)]
pub struct TileRange {
    pub start: u32,
    pub end: u32,
}

impl TileRange {
    /// Place `k` lies in the range.
    pub open spec fn holds(self, k: int) -> bool {
        self.start <= k < self.end
    }
}

/// Keys never decrease along `records`.
pub open spec fn sorted_by_key(records: Seq<IntersectionRecord>) -> bool {
    forall|i: int, j: int| 0 <= i <= j < records.len() ==> records[i].key <= records[j].key
}

/// Every record lies in one of the first `num_tiles` tiles.
pub open spec fn tiles_below(records: Seq<IntersectionRecord>, num_tiles: int) -> bool {
    forall|k: int| 0 <= k < records.len() ==> tile_of(#[trigger] records[k].key) < num_tiles
}

/// `bins` gives, for each of the tiles, the places of exactly its records,
/// and the ranges follow one another from the first record to the last.
pub open spec fn is_binning_of(
    bins: Seq<TileRange>,
    records: Seq<IntersectionRecord>,
    num_tiles: int,
) -> bool {
    &&& bins.len() == num_tiles
    &&& forall|t: int|
        0 <= t < num_tiles ==> (#[trigger] bins[t]).start <= bins[t].end <= records.len()
    &&& forall|t: int, k: int|
        0 <= t < num_tiles && (#[trigger] bins[t]).start <= k < bins[t].end ==> tile_of(
            #[trigger] records[k].key,
        ) == t
    &&& forall|k: int|
        0 <= k < records.len() ==> tile_of(#[trigger] records[k].key) < num_tiles && bins[tile_of(
            records[k].key,
        ) as int].start <= k < bins[tile_of(records[k].key) as int].end
    &&& num_tiles > 0 ==> bins[0].start == 0 && bins[num_tiles - 1].end == records.len()
    &&& forall|t: int| 0 <= t < num_tiles - 1 ==> (#[trigger] bins[t]).end == bins[t + 1].start
}

/// Place `k` lies in the range of one of the tiles.
pub open spec fn covered(bins: Seq<TileRange>, k: int) -> bool {
    exists|t: int| 0 <= t < bins.len() && #[trigger] bins[t].holds(k)
}

/// Finds each tile's range in records sorted by key, in one pass over them.
pub fn bin_tiles(records: &Vec<IntersectionRecord>, num_tiles: u32) -> (bins: Vec<TileRange>)
    requires
        records.len() <= u32::MAX,
        sorted_by_key(records@),
        tiles_below(records@, num_tiles as int),
    ensures
        is_binning_of(bins@, records@, num_tiles as int),
{
    let n = records.len();
    let mut bins: Vec<TileRange> = Vec::new();
    let mut pos: usize = 0;
    let mut tile: u32 = 0;
    while tile < num_tiles
        invariant
            n == records.len(),
            n <= u32::MAX,
            sorted_by_key(records@),
            tiles_below(records@, num_tiles as int),
            0 <= tile <= num_tiles,
            0 <= pos <= n,
            bins.len() == tile,
            forall|k: int| 0 <= k < pos ==> tile_of(#[trigger] records[k].key) < tile,
            forall|k: int| pos <= k < n ==> tile_of(#[trigger] records[k].key) >= tile,
            forall|t: int| 0 <= t < tile ==> (#[trigger] bins[t]).start <= bins[t].end <= pos,
            forall|t: int, k: int|
                0 <= t < tile && (#[trigger] bins[t]).start <= k < bins[t].end ==> tile_of(
                    #[trigger] records[k].key,
                ) == t,
            forall|k: int|
                0 <= k < pos ==> bins[tile_of(#[trigger] records[k].key) as int].start <= k
                    < bins[tile_of(records[k].key) as int].end,
            tile > 0 ==> bins[0].start == 0 && bins[tile - 1].end == pos,
            tile == 0 ==> pos == 0,
            forall|t: int| 0 <= t < tile - 1 ==> (#[trigger] bins[t]).end == bins[t + 1].start,
        decreases num_tiles - tile,
    {
        let start = pos;
        while pos < n && key_tile(records[pos].key) == tile
            invariant
                n == records.len(),
                start <= pos <= n,
                forall|k: int| start <= k < pos ==> tile_of(#[trigger] records[k].key) == tile,
            decreases n - pos,
        {
            pos += 1;
        }
        proof {
            assert forall|k: int| pos <= k < n implies tile_of(#[trigger] records[k].key)
                > tile by {
                assert(records[pos as int].key <= records[k].key);
                assert(tile_of(records[pos as int].key) >= tile);
            }
        }
        bins.push(TileRange { start: start as u32, end: pos as u32 });
        tile += 1;
    }
    proof {
        if pos < n {
            assert(tile_of(records[pos as int].key) >= num_tiles);
        }
    }
    bins
}

/// The ranges of a binning are in tile order without overlap.
pub proof fn lemma_bins_ordered(
    bins: Seq<TileRange>,
    records: Seq<IntersectionRecord>,
    num_tiles: int,
    s: int,
    t: int,
)
    requires
        is_binning_of(bins, records, num_tiles),
        0 <= s < t < num_tiles,
    ensures
        bins[s].end <= bins[t].start,
    decreases t - s,
{
    if s + 1 < t {
        lemma_bins_ordered(bins, records, num_tiles, s, t - 1);
        assert(bins[t - 1].end == bins[t].start);
    }
}

/// The ranges of a binning partition the places of the records: they lie
/// within the records, they follow one another in tile order, so that no two
/// of them share a place, and every place lies in the range of a tile.
pub proof fn lemma_bins_partition(
    bins: Seq<TileRange>,
    records: Seq<IntersectionRecord>,
    num_tiles: int,
)
    requires
        is_binning_of(bins, records, num_tiles),
    ensures
        forall|t: int|
            0 <= t < num_tiles ==> 0 <= (#[trigger] bins[t]).start <= bins[t].end
                <= records.len(),
        forall|s: int, t: int|
            0 <= s < t < num_tiles ==> (#[trigger] bins[s]).end <= (#[trigger] bins[t]).start,
        forall|k: int| 0 <= k < records.len() ==> #[trigger] covered(bins, k),
        forall|t: int, k: int|
            0 <= t < num_tiles && #[trigger] bins[t].holds(k) ==> 0 <= k < records.len()
                && tile_of(records[k].key) == t,
{
    assert forall|s: int, t: int| 0 <= s < t < num_tiles implies (#[trigger] bins[s]).end <= (
    #[trigger] bins[t]).start by {
        lemma_bins_ordered(bins, records, num_tiles, s, t);
    }
    assert forall|k: int| 0 <= k < records.len() implies #[trigger] covered(bins, k) by {
        let t = tile_of(records[k].key) as int;
        assert(bins[t].holds(k));
    }
}

proof fn lemma_binnings_agree(
    a: Seq<TileRange>,
    b: Seq<TileRange>,
    records: Seq<IntersectionRecord>,
    num_tiles: int,
    t: int,
)
    requires
        is_binning_of(a, records, num_tiles),
        is_binning_of(b, records, num_tiles),
        0 <= t < num_tiles,
    ensures
        a[t] == b[t],
    decreases t,
{
    if t > 0 {
        lemma_binnings_agree(a, b, records, num_tiles, t - 1);
        assert(a[t - 1].end == a[t].start);
        assert(b[t - 1].end == b[t].start);
    }
    assert(a[t].start == b[t].start);
    if a[t].end < b[t].end {
        let k = if a[t].end < b[t].start { b[t].start as int } else { a[t].end as int };
        assert(b[t].start <= k < b[t].end);
        assert(tile_of(records[k].key) == t);
    } else if b[t].end < a[t].end {
        let k = if b[t].end < a[t].start { a[t].start as int } else { b[t].end as int };
        assert(a[t].start <= k < a[t].end);
        assert(tile_of(records[k].key) == t);
    }
}

/// Sorted records have exactly one binning.
pub proof fn lemma_binning_unique(
    a: Seq<TileRange>,
    b: Seq<TileRange>,
    records: Seq<IntersectionRecord>,
    num_tiles: int,
)
    requires
        is_binning_of(a, records, num_tiles),
        is_binning_of(b, records, num_tiles),
    ensures
        a == b,
{
    assert forall|t: int| 0 <= t < a.len() implies a[t] == b[t] by {
        lemma_binnings_agree(a, b, records, num_tiles, t);
    }
    assert(a =~= b);
}

} // verus!

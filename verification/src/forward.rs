//! The bookkeeping of the forward pass between projection and compositing:
//! compaction, tile counting, scan, record building, sort and binning.

use vstd::prelude::*;
use crate::compaction::count_visible;
use crate::compaction::CompactIndex;
use crate::depth_order::DepthOrder;
use crate::intersect::build_records;
use crate::intersect::count_tiles_hit;
use crate::intersect::footprints_in;
use crate::intersect::is_records_of;
use crate::intersect::record_valid;
use crate::intersect::records_valid;
use crate::intersect::tiles_hit_of;
use crate::intersect::Footprint;
use crate::prefix_sum::checked_exclusive_scan;
use crate::prefix_sum::is_scan_of;
use crate::prefix_sum::sum_to;
use crate::radix_sort::is_stable_sort_of;
use crate::radix_sort::radix_sort;
use crate::radix_sort::stable_sort_witness;
use crate::records::IntersectionRecord;
use crate::tile_bins::bin_tiles;
use crate::tile_bins::is_binning_of;
use crate::tile_bins::sorted_by_key;
use crate::tile_bins::TileRange;
use crate::tiles::lemma_area_in_grid;
use crate::tiles::TileGrid;
use crate::tiles::TileRect;

verus! {

/// What the projector hands on of one splat: whether it survived culling,
/// the tiles that its bounding box overlaps, and its depth. Rectangle and
/// depth of a culled splat are not read.
#[derive(Clone, Copy, Debug, PartialEq, Eq, Structural)]
pub struct ProjectedSplat {
    pub visible: bool,
    pub rect: TileRect,
    pub depth: u32,
}

impl ProjectedSplat {
    /// The footprint of the splat.
    pub open spec fn footprint(self) -> Footprint {
        Footprint { rect: self.rect, depth: self.depth }
    }
}

/// The visibility flags of the splats.
pub open spec fn visibility_of(projected: Seq<ProjectedSplat>) -> Seq<bool> {
    Seq::new(projected.len(), |g: int| projected[g].visible)
}

/// The depths of the footprints.
pub open spec fn depths_of(footprints: Seq<Footprint>) -> Seq<u32> {
    Seq::new(footprints.len(), |c: int| footprints[c].depth)
}

/// The rectangle of every visible splat lies inside the grid.
pub open spec fn projected_in(projected: Seq<ProjectedSplat>, grid: TileGrid) -> bool {
    forall|g: int|
        0 <= g < projected.len() && (#[trigger] projected[g]).visible ==> projected[g].rect.wf_in(
            grid,
        )
}

/// Number of pairs of a visible splat and a tile that it overlaps, among the
/// first `upto` splats.
pub open spec fn tiles_hit_total(projected: Seq<ProjectedSplat>, upto: int) -> nat
    decreases upto,
{
    if upto <= 0 {
        0
    } else {
        tiles_hit_total(projected, upto - 1) + (if projected[upto - 1].visible {
            projected[upto - 1].rect.area() as nat
        } else {
            0nat
        })
    }
}

/// `sorted` holds the records of the footprints, written at `offsets` and
/// then sorted by key, records of equal key in the order written.
pub open spec fn is_sorted_records_of(
    sorted: Seq<IntersectionRecord>,
    footprints: Seq<Footprint>,
    grid: TileGrid,
    offsets: Seq<u32>,
) -> bool {
    exists|written: Seq<IntersectionRecord>|
        is_records_of(written, footprints, grid, offsets) && #[trigger] is_stable_sort_of(
            sorted,
            written,
        )
}

/// Everything that the stages between projection and compositing produce.
#[derive(Debug)]
pub struct Binning {
    /// Compact ids and global ids.
    pub index: CompactIndex,
    /// Compact ids and depth-sort ids.
    pub order: DepthOrder,
    /// The footprints of the visible splats, by compact id.
    pub footprints: Vec<Footprint>,
    /// Scan of the tile counts: entry `c` is where the records of splat `c`
    /// were written, the last entry is `num_intersects`.
    pub cum_tiles_hit: Vec<u32>,
    pub num_intersects: u32,
    /// The intersection records, sorted by tile and depth; the value of each
    /// is a compact id.
    pub records: Vec<IntersectionRecord>,
    /// For each sorted record, the depth-sort id of its splat.
    pub depthsort_gid_from_isect: Vec<u32>,
    /// For each tile, its range of the sorted records.
    pub tile_bins: Vec<TileRange>,
}

impl Binning {
    /// Number of visible splats.
    pub open spec fn num_visible(self) -> int {
        self.index.num_visible()
    }

    /// The parts fit together on `grid`.
    pub open spec fn wf(self, grid: TileGrid) -> bool {
        let footprints = self.footprints@;
        let gfc = self.index.global_from_compact@;
        &&& footprints.len() == self.num_visible()
        &&& self.num_visible() < u32::MAX
        &&& forall|c: int, d: int| 0 <= c < d < gfc.len() ==> #[trigger] gfc[c] < #[trigger] gfc[d]
        &&& footprints_in(footprints, grid)
        &&& self.order.is_depth_order_of(depths_of(footprints))
        &&& is_scan_of(self.cum_tiles_hit@, tiles_hit_of(footprints))
        &&& self.num_intersects == self.cum_tiles_hit@.last()
        &&& self.records@.len() == self.num_intersects
        &&& is_sorted_records_of(self.records@, footprints, grid, self.cum_tiles_hit@)
        &&& records_valid(self.records@, footprints, grid)
        &&& sorted_by_key(self.records@)
        &&& is_binning_of(self.tile_bins@, self.records@, grid.count())
        &&& self.depthsort_gid_from_isect@.len() == self.records@.len()
        &&& forall|k: int|
            0 <= k < self.records@.len() ==> #[trigger] self.depthsort_gid_from_isect@[k]
                == self.order.depthsort_from_compact@[self.records@[k].value as int]
    }

    /// The parts fit together, and are what the stages produce for
    /// `projected` on `grid`.
    pub open spec fn is_binning_for(self, projected: Seq<ProjectedSplat>, grid: TileGrid) -> bool {
        &&& self.wf(grid)
        &&& self.index.is_compaction_of(visibility_of(projected))
        &&& forall|c: int|
            0 <= c < self.footprints@.len() ==> #[trigger] self.footprints@[c]
                == projected[self.index.global_from_compact@[c] as int].footprint()
        &&& self.num_intersects == tiles_hit_total(projected, projected.len() as int)
    }
}

/// The scan over the compact tile counts sums what the visible splats hit.
proof fn lemma_total_matches(
    projected: Seq<ProjectedSplat>,
    grid: TileGrid,
    index: CompactIndex,
    footprints: Seq<Footprint>,
    upto: int,
)
    requires
        index.is_compaction_of(visibility_of(projected)),
        projected_in(projected, grid),
        grid.wf(),
        footprints.len() == index.num_visible(),
        forall|c: int|
            0 <= c < footprints.len() ==> #[trigger] footprints[c]
                == projected[index.global_from_compact@[c] as int].footprint(),
        0 <= upto <= projected.len(),
    ensures
        sum_to(tiles_hit_of(footprints), count_visible(visibility_of(projected), upto) as int)
            == tiles_hit_total(projected, upto),
    decreases upto,
{
    if upto > 0 {
        lemma_total_matches(projected, grid, index, footprints, upto - 1);
        let g = upto - 1;
        let visible = visibility_of(projected);
        if projected[g].visible {
            assert(visible[g]);
            let c = index.compact_from_global@[g] as int;
            assert(c == count_visible(visible, g));
            assert(footprints[c] == projected[g].footprint());
            lemma_area_in_grid(projected[g].rect, grid);
            assert(tiles_hit_of(footprints)[c] == projected[g].rect.area());
        } else {
            assert(!visible[g]);
        }
    }
}

/// The records of a stable sort are those of its input, so they stay valid.
proof fn lemma_sort_keeps_valid(
    sorted: Seq<IntersectionRecord>,
    written: Seq<IntersectionRecord>,
    footprints: Seq<Footprint>,
    grid: TileGrid,
)
    requires
        is_stable_sort_of(sorted, written),
        records_valid(written, footprints, grid),
    ensures
        records_valid(sorted, footprints, grid),
        sorted.len() == written.len(),
{
    let from = choose|from: Seq<int>| stable_sort_witness(sorted, written, from);
    assert forall|p: int| 0 <= p < sorted.len() implies record_valid(
        #[trigger] sorted[p],
        footprints,
        grid,
    ) by {
        assert(sorted[p] == written[from[p]]);
    }
}

fn visibility_flags(projected: &Vec<ProjectedSplat>) -> (flags: Vec<bool>)
    ensures
        flags@ == visibility_of(projected@),
{
    let n = projected.len();
    let mut flags: Vec<bool> = Vec::with_capacity(n);
    let mut g: usize = 0;
    while g < n
        invariant
            n == projected.len(),
            0 <= g <= n,
            flags.len() == g,
            forall|h: int| 0 <= h < g ==> flags[h] == projected[h].visible,
        decreases n - g,
    {
        flags.push(projected[g].visible);
        g += 1;
    }
    assert(flags@ =~= visibility_of(projected@));
    flags
}

fn gather_footprints(projected: &Vec<ProjectedSplat>, index: &CompactIndex) -> (footprints: Vec<
    Footprint,
>)
    requires
        index.is_compaction_of(visibility_of(projected@)),
    ensures
        footprints.len() == index.num_visible(),
        forall|c: int|
            0 <= c < footprints.len() ==> #[trigger] footprints[c]
                == projected[index.global_from_compact@[c] as int].footprint(),
{
    let m = index.global_from_compact.len();
    let mut footprints: Vec<Footprint> = Vec::with_capacity(m);
    let mut c: usize = 0;
    while c < m
        invariant
            index.is_compaction_of(visibility_of(projected@)),
            m == index.global_from_compact.len(),
            0 <= c <= m,
            footprints.len() == c,
            forall|b: int|
                0 <= b < c ==> #[trigger] footprints[b]
                    == projected[index.global_from_compact@[b] as int].footprint(),
        decreases m - c,
    {
        let g = index.global_from_compact[c] as usize;
        let splat = projected[g];
        footprints.push(Footprint { rect: splat.rect, depth: splat.depth });
        c += 1;
    }
    footprints
}

pub(crate) fn footprint_depths(footprints: &Vec<Footprint>) -> (depths: Vec<u32>)
    ensures
        depths@ == depths_of(footprints@),
{
    let n = footprints.len();
    let mut depths: Vec<u32> = Vec::with_capacity(n);
    let mut c: usize = 0;
    while c < n
        invariant
            n == footprints.len(),
            0 <= c <= n,
            depths.len() == c,
            forall|b: int| 0 <= b < c ==> depths[b] == footprints[b].depth,
        decreases n - c,
    {
        depths.push(footprints[c].depth);
        c += 1;
    }
    assert(depths@ =~= depths_of(footprints@));
    depths
}

/// Runs the stages between projection and compositing. The result is `None`
/// where the splats overlap more tiles in all than a 32-bit count can hold.
/// Where no record is written there is nothing to sort.
pub fn bin_splats(projected: &Vec<ProjectedSplat>, grid: &TileGrid) -> (result: Option<Binning>)
    requires
        grid.wf(),
        projected.len() < u32::MAX,
        projected_in(projected@, *grid),
    ensures
        result.is_some() <==> tiles_hit_total(projected@, projected.len() as int) <= u32::MAX,
        result.is_some() ==> result.unwrap().is_binning_for(projected@, *grid),
{
    let flags = visibility_flags(projected);
    let index = CompactIndex::build(&flags);
    let footprints = gather_footprints(projected, &index);
    proof {
        crate::compaction::lemma_count_visible_bound(flags@, flags.len() as int);
        assert forall|c: int| 0 <= c < footprints.len() implies (#[trigger] footprints[c]).rect.wf_in(
            *grid,
        ) by {
            let g = index.global_from_compact@[c] as int;
            assert(visibility_of(projected@)[g]);
            assert(projected[g].visible);
        }
        lemma_total_matches(projected@, *grid, index, footprints@, projected.len() as int);
    }
    let counts = count_tiles_hit(&footprints, grid);
    let cum_tiles_hit = match checked_exclusive_scan(&counts) {
        Some(offsets) => offsets,
        None => {
            return None;
        },
    };
    let num_intersects = cum_tiles_hit[counts.len()];
    let written = build_records(&footprints, grid, &cum_tiles_hit);
    let ghost unsorted = written@;
    let records = if written.len() == 0 {
        proof {
            assert(stable_sort_witness(written@, unsorted, Seq::<int>::empty()));
            assert(is_stable_sort_of(written@, unsorted));
        }
        written
    } else {
        radix_sort(written)
    };
    proof {
        lemma_sort_keeps_valid(records@, unsorted, footprints@, *grid);
        assert(is_records_of(unsorted, footprints@, *grid, cum_tiles_hit@));
        assert(is_stable_sort_of(records@, unsorted));
        assert(is_sorted_records_of(records@, footprints@, *grid, cum_tiles_hit@));
    }
    let tile_bins = bin_tiles(&records, grid.tile_count());
    let depths = footprint_depths(&footprints);
    let order = DepthOrder::build(&depths);
    let n = records.len();
    let mut depthsort_gid_from_isect: Vec<u32> = Vec::with_capacity(n);
    let mut k: usize = 0;
    while k < n
        invariant
            n == records.len(),
            0 <= k <= n,
            records_valid(records@, footprints@, *grid),
            order.is_depth_order_of(depths_of(footprints@)),
            depthsort_gid_from_isect.len() == k,
            forall|j: int|
                0 <= j < k ==> #[trigger] depthsort_gid_from_isect[j]
                    == order.depthsort_from_compact@[records[j].value as int],
        decreases n - k,
    {
        let compact = records[k].value as usize;
        assert(record_valid(records[k as int], footprints@, *grid));
        depthsort_gid_from_isect.push(order.depthsort_from_compact[compact]);
        k += 1;
    }
    Some(
        Binning {
            index,
            order,
            footprints,
            cum_tiles_hit,
            num_intersects,
            records,
            depthsort_gid_from_isect,
            tile_bins,
        },
    )
}

} // verus!

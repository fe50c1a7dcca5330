//! Testing, at run time, whether what a backend kept for the backward pass
//! fits together.

use vstd::prelude::*;
use crate::radix_sort::lex_before;
use crate::render_aux::all_below;
use crate::render_aux::check_final_index;
use crate::render_aux::depth_sorted;
use crate::render_aux::grid_covers;
use crate::render_aux::is_chain;
use crate::render_aux::is_offsets;
use crate::render_aux::rows_fit;
use crate::render_aux::strictly_increasing;
use crate::render_aux::RenderAux;
use crate::render_aux::COLOR_WORDS;
use crate::render_aux::CONIC_WORDS;
use crate::render_aux::XY_WORDS;
use crate::tile_bins::TileRange;
use crate::tiles::ImageSize;
use crate::tiles::TileGrid;
use crate::words::holds_rows;

verus! {

fn check_strictly_increasing(ids: &Vec<u32>) -> (ok: bool)
    ensures
        ok == strictly_increasing(ids@),
{
    let n = ids.len();
    let mut i: usize = 1;
    while i < n
        invariant
            n == ids.len(),
            1 <= i,
            forall|c: int, d: int| 0 <= c < d < i && d < n ==> #[trigger] ids[c] < #[trigger] ids[d],
        decreases n - i,
    {
        if ids[i - 1] >= ids[i] {
            return false;
        }
        i += 1;
    }
    true
}

fn check_all_below(ids: &Vec<u32>, bound: usize) -> (ok: bool)
    ensures
        ok == all_below(ids@, bound as int),
{
    let n = ids.len();
    let mut k: usize = 0;
    while k < n
        invariant
            n == ids.len(),
            0 <= k <= n,
            forall|j: int| 0 <= j < k ==> #[trigger] ids[j] < bound,
        decreases n - k,
    {
        if ids[k] as usize >= bound {
            return false;
        }
        k += 1;
    }
    true
}

fn check_depth_sorted(order: &Vec<u32>, depths: &Vec<u32>) -> (ok: bool)
    requires
        all_below(order@, depths.len() as int),
    ensures
        ok == depth_sorted(order@, depths@),
{
    let n = order.len();
    let mut i: usize = 1;
    while i < n
        invariant
            n == order.len(),
            1 <= i,
            all_below(order@, depths.len() as int),
            forall|d: int, e: int|
                0 <= d < e < i && e < n ==> lex_before(
                    depths[#[trigger] order[d] as int] as nat,
                    order[d] as int,
                    depths[#[trigger] order[e] as int] as nat,
                    order[e] as int,
                ),
        decreases n - i,
    {
        let before = order[i - 1];
        let here = order[i];
        let near = depths[before as usize];
        let far = depths[here as usize];
        if !(near < far || (near == far && before < here)) {
            assert(!lex_before(
                depths[order[i - 1] as int] as nat,
                order[i - 1] as int,
                depths[order[i as int] as int] as nat,
                order[i as int] as int,
            ));
            return false;
        }
        i += 1;
    }
    true
}

fn check_offsets(offsets: &Vec<u32>, count: usize, last: u32) -> (ok: bool)
    ensures
        ok == is_offsets(offsets@, count as int, last),
{
    let n = offsets.len();
    if n == 0 || n - 1 != count || offsets[0] != 0 || offsets[n - 1] != last {
        return false;
    }
    let mut i: usize = 1;
    while i < n
        invariant
            n == offsets.len(),
            1 <= i,
            forall|a: int, b: int|
                0 <= a <= b < i && b < n ==> #[trigger] offsets[a] <= #[trigger] offsets[b],
        decreases n - i,
    {
        if offsets[i - 1] > offsets[i] {
            return false;
        }
        i += 1;
    }
    true
}

fn check_chain(bins: &Vec<TileRange>, num_tiles: u32, last: u32) -> (ok: bool)
    ensures
        ok == is_chain(bins@, num_tiles as int, last),
{
    let n = bins.len();
    if n != num_tiles as usize {
        return false;
    }
    if n == 0 {
        return last == 0;
    }
    if bins[0].start != 0 || bins[n - 1].end != last {
        return false;
    }
    let mut t: usize = 0;
    while t < n
        invariant
            n == bins.len(),
            0 <= t <= n,
            forall|s: int| 0 <= s < t ==> (#[trigger] bins[s]).start <= bins[s].end <= last,
            forall|s: int| 0 <= s < t && s < n - 1 ==> (#[trigger] bins[s]).end == bins[s + 1].start,
        decreases n - t,
    {
        let range = bins[t];
        if range.start > range.end || range.end > last {
            return false;
        }
        if t + 1 < n && range.end != bins[t + 1].start {
            return false;
        }
        t += 1;
    }
    true
}

impl RenderAux {
    /// Tests whether the arrays fit together on the grid that covers an
    /// image of the given size.
    pub fn check(&self, grid: &TileGrid, size: ImageSize) -> (ok: bool)
        requires
            grid_covers(*grid, size),
        ensures
            ok == self.wf(*grid, size),
    {
        let count = self.num_visible as usize;
        let lengths = self.global_from_compact_gid.len() == count
            && self.compact_from_depthsort_gid.len() == count && self.depths.len() == count
            && self.radii_compact.len() == count && holds_rows(
            count,
            CONIC_WORDS,
            self.conic_comps.len(),
        ) && holds_rows(count, COLOR_WORDS, self.colors.len()) && holds_rows(
            count,
            XY_WORDS,
            self.xys.len(),
        ) && self.depthsort_gid_from_isect.len() == self.num_intersects as usize;
        assert(lengths == (self.global_from_compact_gid@.len() == count
            && self.compact_from_depthsort_gid@.len() == count && self.depths@.len() == count
            && rows_fit(
            count as int,
            self.radii_compact@,
            self.conic_comps@,
            self.colors@,
            self.xys@,
        ) && self.depthsort_gid_from_isect@.len() == self.num_intersects));
        if !lengths {
            return false;
        }
        if !check_strictly_increasing(&self.global_from_compact_gid) {
            return false;
        }
        if !check_all_below(&self.compact_from_depthsort_gid, count) {
            return false;
        }
        if !check_depth_sorted(&self.compact_from_depthsort_gid, &self.depths) {
            return false;
        }
        if !check_offsets(&self.cum_tiles_hit, count, self.num_intersects) {
            return false;
        }
        if !check_all_below(&self.depthsort_gid_from_isect, count) {
            return false;
        }
        if !check_chain(&self.tile_bins, grid.tile_count(), self.num_intersects) {
            return false;
        }
        check_final_index(&self.final_index, &self.tile_bins, grid, size)
    }
}

} // verus!

//! The order of the visible splats by depth, with the index arrays that link
//! a splat's compact id and its place in that order.

use vstd::prelude::*;
use crate::radix_sort::lex_before;
use crate::radix_sort::radix_sort;
use crate::radix_sort::stable_sort_witness;
use crate::radix_sort::zeros;
use crate::records::IntersectionRecord;
use crate::sort_laws::lemma_witness_injective;
use crate::sort_laws::lemma_witness_onto;

verus! {

/// The two index arrays between compact ids and depth-sort ids, which number
/// the visible splats front to back.
#[derive(Debug)]
pub struct DepthOrder {
    pub compact_from_depthsort: Vec<u32>,
    pub depthsort_from_compact: Vec<u32>,
}

impl DepthOrder {
    /// The arrays order the splats by `depths`, splats of equal depth by
    /// compact id, and each array undoes the other.
    pub open spec fn is_depth_order_of(self, depths: Seq<u32>) -> bool {
        let cfd = self.compact_from_depthsort@;
        let dfc = self.depthsort_from_compact@;
        &&& cfd.len() == depths.len()
        &&& dfc.len() == depths.len()
        &&& forall|d: int|
            0 <= d < cfd.len() ==> #[trigger] cfd[d] < depths.len() && dfc[cfd[d] as int] == d
        &&& forall|c: int|
            0 <= c < dfc.len() ==> #[trigger] dfc[c] < depths.len() && cfd[dfc[c] as int] == c
        &&& forall|d: int, e: int|
            0 <= d < e < cfd.len() ==> lex_before(
                depths[#[trigger] cfd[d] as int] as nat,
                cfd[d] as int,
                depths[#[trigger] cfd[e] as int] as nat,
                cfd[e] as int,
            )
    }

    /// Orders the splats by depth with the radix sort.
    pub fn build(depths: &Vec<u32>) -> (order: DepthOrder)
        requires
            depths.len() <= u32::MAX,
        ensures
            order.is_depth_order_of(depths@),
    {
        let n = depths.len();
        let mut records: Vec<IntersectionRecord> = Vec::with_capacity(n);
        let mut c: usize = 0;
        while c < n
            invariant
                n == depths.len(),
                n <= u32::MAX,
                0 <= c <= n,
                records.len() == c,
                forall|k: int|
                    0 <= k < c ==> (#[trigger] records[k]).key == depths[k] && records[k].value
                        == k,
            decreases n - c,
        {
            records.push(IntersectionRecord { key: depths[c] as u64, value: c as u32 });
            c += 1;
        }
        let ghost input = records@;
        let sorted = radix_sort(records);
        let ghost from = choose|from: Seq<int>| stable_sort_witness(sorted@, input, from);
        proof {
            lemma_witness_injective(sorted@, input, from);
        }
        let mut cfd: Vec<u32> = Vec::with_capacity(n);
        let mut dfc: Vec<u32> = zeros(n);
        let mut d: usize = 0;
        while d < n
            invariant
                n == depths.len(),
                n <= u32::MAX,
                sorted.len() == n,
                from.len() == n,
                input.len() == n,
                stable_sort_witness(sorted@, input, from),
                from.no_duplicates(),
                forall|k: int|
                    0 <= k < n ==> (#[trigger] input[k]).key == depths[k] && input[k].value == k,
                0 <= d <= n,
                cfd.len() == d,
                dfc.len() == n,
                forall|e: int| 0 <= e < d ==> #[trigger] cfd[e] == from[e],
                forall|e: int| 0 <= e < d ==> dfc[#[trigger] from[e]] == e,
            decreases n - d,
        {
            let compact = sorted[d].value;
            assert(compact == from[d as int]);
            cfd.push(compact);
            dfc.set(compact as usize, d as u32);
            d += 1;
        }
        proof {
            assert forall|c: int| 0 <= c < n implies #[trigger] dfc[c] < n && cfd[dfc[c] as int]
                == c by {
                lemma_witness_onto(sorted@, input, from, c);
                let e = choose|e: int| 0 <= e < from.len() && from[e] == c;
                assert(dfc[from[e]] == e);
            }
            assert forall|d: int, e: int| 0 <= d < e < n implies lex_before(
                depths[#[trigger] cfd[d] as int] as nat,
                cfd[d] as int,
                depths[#[trigger] cfd[e] as int] as nat,
                cfd[e] as int,
            ) by {
                assert(lex_before(sorted[d].key as nat, from[d], sorted[e].key as nat, from[e]));
            }
        }
        DepthOrder { compact_from_depthsort: cfd, depthsort_from_compact: dfc }
    }
}

/// Going from a compact id to its depth-sort id and back gives the compact id
/// again, and so does the other way round; along the depth-sort ids the
/// depths never decrease.
pub proof fn lemma_depth_order_round_trip(order: DepthOrder, depths: Seq<u32>)
    requires
        order.is_depth_order_of(depths),
    ensures
        forall|c: int|
            0 <= c < depths.len() ==> order.compact_from_depthsort@[
                #[trigger] order.depthsort_from_compact@[c] as int] == c,
        forall|d: int|
            0 <= d < depths.len() ==> order.depthsort_from_compact@[
                #[trigger] order.compact_from_depthsort@[d] as int] == d,
        forall|d: int, e: int|
            0 <= d <= e < depths.len() ==> depths[#[trigger] order.compact_from_depthsort@[d] as int]
                <= depths[#[trigger] order.compact_from_depthsort@[e] as int],
{
    let cfd = order.compact_from_depthsort@;
    assert forall|d: int, e: int| 0 <= d <= e < depths.len() implies depths[
        #[trigger] cfd[d] as int] <= depths[#[trigger] cfd[e] as int] by {
        if d < e {
            assert(lex_before(
                depths[cfd[d] as int] as nat,
                cfd[d] as int,
                depths[cfd[e] as int] as nat,
                cfd[e] as int,
            ));
        }
    }
}

} // verus!

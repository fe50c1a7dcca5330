//! Compaction of the visible splats, with the index arrays that link a
//! splat's compact id and its global id.

use vstd::prelude::*;

verus! {

/// Compact id of a splat that is not visible.
pub const NOT_VISIBLE: u32 = 0xffff_ffff;

/// How many of the first `upto` splats are visible.
pub open spec fn count_visible(visible: Seq<bool>, upto: int) -> nat
    decreases upto,
{
    if upto <= 0 {
        0
    } else {
        count_visible(visible, upto - 1) + (if visible[upto - 1] {
            1nat
        } else {
            0nat
        })
    }
}

/// The two index arrays between global ids, which number all splats, and
/// compact ids, which number the visible ones in the same order.
#[derive(Debug)]
pub struct CompactIndex {
    pub global_from_compact: Vec<u32>,
    pub compact_from_global: Vec<u32>,
}

impl CompactIndex {
    /// Number of visible splats.
    pub open spec fn num_visible(self) -> int {
        self.global_from_compact@.len() as int
    }

    /// The arrays are the compaction of `visible`: a visible splat's compact
    /// id is the number of visible splats before it, and each array undoes
    /// the other.
    pub open spec fn is_compaction_of(self, visible: Seq<bool>) -> bool {
        let gfc = self.global_from_compact@;
        let cfg = self.compact_from_global@;
        &&& cfg.len() == visible.len()
        &&& gfc.len() == count_visible(visible, visible.len() as int)
        &&& forall|g: int|
            0 <= g < visible.len() && visible[g] ==> #[trigger] cfg[g] == count_visible(visible, g)
                && cfg[g] < gfc.len() && gfc[cfg[g] as int] == g
        &&& forall|g: int| 0 <= g < visible.len() && !visible[g] ==> #[trigger] cfg[g] == NOT_VISIBLE
        &&& forall|c: int|
            0 <= c < gfc.len() ==> #[trigger] gfc[c] < visible.len() && visible[gfc[c] as int]
                && cfg[gfc[c] as int] == c
        &&& forall|c: int, d: int| 0 <= c < d < gfc.len() ==> #[trigger] gfc[c] < #[trigger] gfc[d]
    }

    /// Numbers the visible splats in order.
    pub fn build(visible: &Vec<bool>) -> (index: CompactIndex)
        requires
            visible.len() < u32::MAX,
        ensures
            index.is_compaction_of(visible@),
    {
        let n = visible.len();
        let mut gfc: Vec<u32> = Vec::new();
        let mut cfg: Vec<u32> = Vec::with_capacity(n);
        let mut g: usize = 0;
        while g < n
            invariant
                n == visible.len(),
                n < u32::MAX,
                0 <= g <= n,
                cfg.len() == g,
                gfc.len() == count_visible(visible@, g as int),
                gfc.len() <= g,
                forall|h: int|
                    0 <= h < g && visible[h] ==> #[trigger] cfg[h] == count_visible(visible@, h)
                        && cfg[h] < gfc.len() && gfc[cfg[h] as int] == h,
                forall|h: int| 0 <= h < g && !visible[h] ==> #[trigger] cfg[h] == NOT_VISIBLE,
                forall|c: int|
                    0 <= c < gfc.len() ==> #[trigger] gfc[c] < g && visible[gfc[c] as int]
                        && cfg[gfc[c] as int] == c,
                forall|c: int, d: int|
                    0 <= c < d < gfc.len() ==> #[trigger] gfc[c] < #[trigger] gfc[d],
            decreases n - g,
        {
            if visible[g] {
                cfg.push(gfc.len() as u32);
                gfc.push(g as u32);
            } else {
                cfg.push(NOT_VISIBLE);
            }
            g += 1;
        }
        CompactIndex { global_from_compact: gfc, compact_from_global: cfg }
    }

    /// The global id of the splat with compact id `compact`.
    pub fn global_of(&self, compact: u32) -> (global: u32)
        requires
            compact < self.num_visible(),
        ensures
            global == self.global_from_compact@[compact as int],
    {
        self.global_from_compact[compact as usize]
    }

    /// The compact id of the splat with global id `global`, if it is visible.
    pub fn compact_of(&self, global: u32) -> (compact: Option<u32>)
        requires
            global < self.compact_from_global@.len(),
        ensures
            compact == if self.compact_from_global@[global as int] == NOT_VISIBLE {
                None
            } else {
                Some(self.compact_from_global@[global as int])
            },
    {
        let c = self.compact_from_global[global as usize];
        if c == NOT_VISIBLE {
            None
        } else {
            Some(c)
        }
    }
}

/// Going from a visible splat's global id to its compact id and back gives
/// the global id again, and so does the other way round from a compact id.
pub proof fn lemma_compaction_round_trip(index: CompactIndex, visible: Seq<bool>)
    requires
        index.is_compaction_of(visible),
    ensures
        forall|g: int|
            0 <= g < visible.len() && visible[g] ==> 0 <= #[trigger] index.compact_from_global@[g]
                < index.num_visible() && index.global_from_compact@[index.compact_from_global@[g] as int]
                == g,
        forall|c: int|
            0 <= c < index.num_visible() ==> 0 <= #[trigger] index.global_from_compact@[c]
                < visible.len() && index.compact_from_global@[index.global_from_compact@[c] as int]
                == c,
{
}

/// No more splats are visible than there are splats.
pub proof fn lemma_count_visible_bound(visible: Seq<bool>, upto: int)
    requires
        0 <= upto,
    ensures
        count_visible(visible, upto) <= upto,
    decreases upto,
{
    if upto > 0 {
        lemma_count_visible_bound(visible, upto - 1);
    }
}

/// Where no splat is visible, none is counted.
pub proof fn lemma_none_visible(visible: Seq<bool>, upto: int)
    requires
        0 <= upto <= visible.len(),
        forall|g: int| 0 <= g < visible.len() ==> !visible[g],
    ensures
        count_visible(visible, upto) == 0,
    decreases upto,
{
    if upto > 0 {
        lemma_none_visible(visible, upto - 1);
    }
}

} // verus!

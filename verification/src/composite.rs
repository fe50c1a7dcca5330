//! The order in which a pixel visits the records of its tile, and where it
//! stops. The blending itself is floating-point work of the caller: after
//! each record it reports what it found, and the cursor decides what comes
//! next.

use vstd::prelude::*;
use crate::records::NO_CONTRIBUTOR;
use crate::tile_bins::TileRange;

verus! {

/// What the blending found of one record at one pixel.
#[derive(Clone, Copy, Debug, PartialEq, Eq, Structural)]
pub enum Contribution {
    /// The splat's alpha at the pixel is below the negligible threshold: the
    /// record changes nothing.
    Negligible,
    /// The splat was blended in, and light still passes.
    Blended,
    /// The splat was blended in, and the transmittance left is below the
    /// saturation threshold.
    Saturated,
}

/// Where a pixel is on its way through the records of its tile.
#[derive(Clone, Copy, Debug, PartialEq, Eq, Structural)]
pub struct PixelCursor {
    /// The record to visit next.
    pub next: u32,
    /// One past the last record of the tile.
    pub end: u32,
    /// The last record that contributed, or `NO_CONTRIBUTOR`.
    pub final_index: u32,
    /// The pixel is saturated.
    pub saturated: bool,
}

impl PixelCursor {
    /// The cursor lies within its range, and the last contributor, where
    /// there is one, is a record already visited.
    pub open spec fn wf(self) -> bool {
        &&& self.next <= self.end
        &&& self.final_index == NO_CONTRIBUTOR || self.final_index < self.next
    }

    /// Number of records that the pixel may still visit.
    pub open spec fn remaining(self) -> int {
        if self.saturated {
            0
        } else {
            self.end - self.next
        }
    }

    /// The cursor after the record at `next` was found to be `found`.
    pub open spec fn step(self, found: Contribution) -> PixelCursor {
        PixelCursor {
            next: (self.next + 1) as u32,
            end: self.end,
            final_index: if found == Contribution::Negligible {
                self.final_index
            } else {
                self.next
            },
            saturated: found == Contribution::Saturated,
        }
    }

    /// The cursor in front of the first record of a range.
    pub open spec fn start_of(range: TileRange) -> PixelCursor {
        PixelCursor {
            next: range.start,
            end: range.end,
            final_index: NO_CONTRIBUTOR,
            saturated: false,
        }
    }

    /// A pixel in front of the first record of its tile's range.
    pub fn begin(range: TileRange) -> (cursor: PixelCursor)
        requires
            range.start <= range.end,
        ensures
            cursor == Self::start_of(range),
            cursor.wf(),
            cursor.remaining() == range.end - range.start,
    {
        PixelCursor {
            next: range.start,
            end: range.end,
            final_index: NO_CONTRIBUTOR,
            saturated: false,
        }
    }

    /// The place of the record to blend next, or `None` where the pixel is
    /// finished: its range is used up or it is saturated.
    pub fn current(&self) -> (place: Option<u32>)
        requires
            self.wf(),
        ensures
            place.is_some() <==> self.remaining() > 0,
            place.is_some() ==> place.unwrap() == self.next,
    {
        if self.saturated || self.next >= self.end {
            None
        } else {
            Some(self.next)
        }
    }

    /// Moves past the current record, of which the blending found `found`.
    pub fn advance(&mut self, found: Contribution)
        requires
            old(self).wf(),
            old(self).remaining() > 0,
        ensures
            *final(self) == old(self).step(found),
            final(self).wf(),
            final(self).remaining() < old(self).remaining(),
            found == Contribution::Saturated ==> final(self).remaining() == 0,
    {
        if found != Contribution::Negligible {
            self.final_index = self.next;
        }
        self.saturated = found == Contribution::Saturated;
        self.next = self.next + 1;
    }

    /// The place of the last record that contributed to the pixel, or
    /// `NO_CONTRIBUTOR` where none did.
    pub fn last_contributor(&self) -> (place: u32)
        ensures
            place == self.final_index,
    {
        self.final_index
    }
}

/// The cursor after a run of findings, one for each record visited.
pub open spec fn after(cursor: PixelCursor, found: Seq<Contribution>) -> PixelCursor
    decreases found.len(),
{
    if found.len() == 0 {
        cursor
    } else {
        after(cursor, found.drop_last()).step(found.last())
    }
}

/// A run of findings is one that the cursor allows: a record is visited only
/// while records remain and the pixel is not saturated.
pub open spec fn allowed(cursor: PixelCursor, found: Seq<Contribution>) -> bool {
    forall|k: int| 0 <= k < found.len() ==> #[trigger] after(cursor, found.take(k)).remaining() > 0
}

/// A pixel visits no more records than its range holds, none after the one
/// that saturated it, and the last contributor it ends with is a record of
/// the range that it visited, or none.
pub proof fn lemma_run_bounded(range: TileRange, found: Seq<Contribution>)
    requires
        range.start <= range.end,
        allowed(PixelCursor::start_of(range), found),
    ensures
        found.len() <= range.end - range.start,
        forall|k: int|
            0 <= k < found.len() - 1 ==> #[trigger] found[k] != Contribution::Saturated,
        ({
            let cursor = after(PixelCursor::start_of(range), found);
            &&& cursor.wf()
            &&& cursor.end == range.end
            &&& cursor.next == range.start + found.len()
            &&& cursor.saturated <==> found.len() > 0 && found.last() == Contribution::Saturated
            &&& cursor.final_index == NO_CONTRIBUTOR || range.start <= cursor.final_index
                < cursor.next
        }),
    decreases found.len(),
{
    let first = PixelCursor::start_of(range);
    if found.len() > 0 {
        let before = found.drop_last();
        assert forall|k: int| 0 <= k < before.len() implies #[trigger] after(
            first,
            before.take(k),
        ).remaining() > 0 by {
            assert(before.take(k) =~= found.take(k));
        }
        lemma_run_bounded(range, before);
        assert(found.take(found.len() - 1) =~= before);
        assert(after(first, before).remaining() > 0);
        assert(!after(first, before).saturated);
        assert forall|k: int| 0 <= k < found.len() - 1 implies #[trigger] found[k]
            != Contribution::Saturated by {
            assert(found[k] == before[k]);
        }
    }
}

} // verus!

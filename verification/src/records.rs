//! Intersection records: one per pair of a splat and a tile that it overlaps.

use vstd::prelude::*;

verus! {

/// Number of low bits of a sort key that hold the depth. The depth is any
/// 32-bit quantity whose unsigned order is front to back; the bit pattern of a
/// non-negative IEEE single-precision number is one.
pub const DEPTH_BITS: u32 = 32;

/// Value of `final_index` for a pixel to which no record contributed.
pub const NO_CONTRIBUTOR: u32 = 0xffff_ffff;

/// A splat overlapping a tile: the sort key combines tile id and depth, the
/// value is the splat's compact id.
#[derive(Clone, Copy, Debug, PartialEq, Eq, Structural)]
pub struct IntersectionRecord {
    pub key: u64,
    pub value: u32,
}

/// The sort key of a tile id and a depth: the tile id above the depth.
pub open spec fn key_of(tile: u32, depth: u32) -> u64 {
    (tile * 0x1_0000_0000 + depth) as u64
}

/// The tile id held in a sort key.
pub open spec fn tile_of(key: u64) -> u32 {
    (key / 0x1_0000_0000) as u32
}

/// The depth held in a sort key.
pub open spec fn depth_of(key: u64) -> u32 {
    (key % 0x1_0000_0000) as u32
}

/// Keys are ordered by tile id first and by depth within a tile.
pub proof fn lemma_key_order(tile_a: u32, depth_a: u32, tile_b: u32, depth_b: u32)
    ensures
        key_of(tile_a, depth_a) < key_of(tile_b, depth_b) <==> tile_a < tile_b || (tile_a
            == tile_b && depth_a < depth_b),
        key_of(tile_a, depth_a) == key_of(tile_b, depth_b) <==> tile_a == tile_b && depth_a
            == depth_b,
{
}

/// A key is made of exactly its tile id and its depth.
pub proof fn lemma_key_parts(key: u64)
    ensures
        key_of(tile_of(key), depth_of(key)) == key,
{
}

/// Of two keys in order, the tile ids are in order, and within one tile the
/// depths are.
pub proof fn lemma_key_order_parts(a: u64, b: u64)
    requires
        a <= b,
    ensures
        tile_of(a) <= tile_of(b),
        tile_of(a) == tile_of(b) ==> depth_of(a) <= depth_of(b),
{
}

/// Combines a tile id and a depth into a sort key.
pub fn sort_key(tile_id: u32, depth: u32) -> (key: u64)
    ensures
        key == key_of(tile_id, depth),
        tile_of(key) == tile_id,
        depth_of(key) == depth,
{
    let high: u64 = tile_id as u64;
    let low: u64 = depth as u64;
    assert((high << 32) | low == high * 0x1_0000_0000 + low) by (bit_vector)
        requires
            high <= 0xffff_ffff,
            low <= 0xffff_ffff,
    ;
    (high << DEPTH_BITS) | low
}

/// The tile id of a sort key.
pub fn key_tile(key: u64) -> (tile: u32)
    ensures
        tile == tile_of(key),
{
    assert(key >> 32 == key / 0x1_0000_0000) by (bit_vector);
    (key >> DEPTH_BITS) as u32
}

/// The depth of a sort key.
pub fn key_depth(key: u64) -> (depth: u32)
    ensures
        depth == depth_of(key),
{
    assert(key & 0xffff_ffff == key % 0x1_0000_0000) by (bit_vector);
    (key & 0xffff_ffff) as u32
}

} // verus!

use splat_render::prefix_sum::{checked_exclusive_scan, exclusive_scan};
use splat_render::radix_sort::{radix_sort, radix_sort_with};
use splat_render::records::{key_depth, key_tile, sort_key, IntersectionRecord};
use splat_render::tile_bins::{bin_tiles, TileRange};
use splat_render::tiles::{ImageSize, TileGrid, TileRect, TILE_WIDTH};

fn rec(key: u64, value: u32) -> IntersectionRecord {
    IntersectionRecord { key, value }
}

#[test]
fn scan_of_nothing_is_a_single_zero() {
    assert_eq!(exclusive_scan(&vec![]), vec![0]);
    assert_eq!(checked_exclusive_scan(&vec![]), Some(vec![0]));
}

#[test]
fn scan_gives_offsets_and_total() {
    let counts = vec![3, 0, 2, 5, 1];
    let offsets = exclusive_scan(&counts);
    assert_eq!(offsets, vec![0, 3, 3, 5, 10, 11]);
    assert_eq!(*offsets.last().unwrap(), 11);
}

#[test]
fn scan_never_decreases() {
    let counts = vec![7, 0, 0, 1, 4_000_000_000, 0, 9];
    let offsets = exclusive_scan(&counts);
    assert_eq!(offsets.len(), counts.len() + 1);
    for pair in offsets.windows(2) {
        assert!(pair[0] <= pair[1]);
    }
    assert_eq!(*offsets.last().unwrap(), 4_000_000_017);
}

#[test]
fn scan_reports_a_total_beyond_32_bits() {
    assert_eq!(checked_exclusive_scan(&vec![u32::MAX, 1]), None);
    assert_eq!(
        checked_exclusive_scan(&vec![u32::MAX - 1, 1]),
        Some(vec![0, u32::MAX - 1, u32::MAX])
    );
    assert_eq!(checked_exclusive_scan(&vec![1, u32::MAX, 0]), None);
}

#[test]
fn sort_key_holds_tile_above_depth() {
    let key = sort_key(3, 7);
    assert_eq!(key, (3u64 << 32) | 7);
    assert_eq!(key_tile(key), 3);
    assert_eq!(key_depth(key), 7);
    let top = sort_key(u32::MAX, u32::MAX);
    assert_eq!(top, u64::MAX);
    assert_eq!(key_tile(top), u32::MAX);
    assert_eq!(key_depth(top), u32::MAX);
    assert_eq!(sort_key(0, 0), 0);
}

#[test]
fn sort_key_orders_by_tile_then_depth() {
    assert!(sort_key(1, u32::MAX) < sort_key(2, 0));
    assert!(sort_key(2, 5) < sort_key(2, 6));
    assert!(sort_key(0, 1.5f32.to_bits()) < sort_key(0, 2.5f32.to_bits()));
}

#[test]
fn sort_orders_by_key() {
    let input = vec![rec(5, 0), rec(1, 1), rec(u64::MAX, 2), rec(0, 3), rec(1 << 40, 4), rec(3, 5)];
    let sorted = radix_sort(input);
    assert_eq!(
        sorted,
        vec![rec(0, 3), rec(1, 1), rec(3, 5), rec(5, 0), rec(1 << 40, 4), rec(u64::MAX, 2)]
    );
}

#[test]
fn sort_keeps_equal_keys_in_input_order() {
    let input = vec![rec(9, 0), rec(4, 1), rec(9, 2), rec(4, 3), rec(9, 4), rec(4, 5), rec(1, 6)];
    let sorted = radix_sort(input);
    assert_eq!(
        sorted,
        vec![rec(1, 6), rec(4, 1), rec(4, 3), rec(4, 5), rec(9, 0), rec(9, 2), rec(9, 4)]
    );
}

#[test]
fn sort_of_nothing_and_of_one() {
    assert_eq!(radix_sort(vec![]), vec![]);
    assert_eq!(radix_sort(vec![rec(42, 7)]), vec![rec(42, 7)]);
}

#[test]
fn sort_agrees_for_every_digit_width() {
    let mut input = Vec::new();
    let mut state: u64 = 0x9e37_79b9_7f4a_7c15;
    for value in 0..300u32 {
        state = state.wrapping_mul(6364136223846793005).wrapping_add(1442695040888963407);
        let key = if value % 3 == 0 { state } else { state >> 48 };
        input.push(rec(key, value));
    }
    let mut expected = input.clone();
    expected.sort_by_key(|r| r.key);
    for bits in 1..=16u32 {
        assert_eq!(radix_sort_with(input.clone(), bits), expected);
    }
    assert_eq!(radix_sort(input), expected);
}

#[test]
fn sort_within_a_tile_runs_front_to_back() {
    let input = vec![
        rec(sort_key(1, 3.0f32.to_bits()), 0),
        rec(sort_key(0, 9.0f32.to_bits()), 1),
        rec(sort_key(1, 0.5f32.to_bits()), 2),
        rec(sort_key(0, 2.0f32.to_bits()), 3),
        rec(sort_key(1, 1.0f32.to_bits()), 4),
    ];
    let sorted = radix_sort(input);
    let values: Vec<u32> = sorted.iter().map(|r| r.value).collect();
    assert_eq!(values, vec![3, 1, 2, 4, 0]);
    for pair in sorted.windows(2) {
        if key_tile(pair[0].key) == key_tile(pair[1].key) {
            assert!(f32::from_bits(key_depth(pair[0].key)) <= f32::from_bits(key_depth(pair[1].key)));
        }
    }
}

#[test]
fn bins_partition_the_records() {
    let records = vec![
        rec(sort_key(1, 10), 0),
        rec(sort_key(1, 20), 1),
        rec(sort_key(3, 5), 2),
        rec(sort_key(4, 1), 3),
        rec(sort_key(4, 2), 4),
        rec(sort_key(4, 3), 5),
    ];
    let bins = bin_tiles(&records, 6);
    assert_eq!(
        bins,
        vec![
            TileRange { start: 0, end: 0 },
            TileRange { start: 0, end: 2 },
            TileRange { start: 2, end: 2 },
            TileRange { start: 2, end: 3 },
            TileRange { start: 3, end: 6 },
            TileRange { start: 6, end: 6 },
        ]
    );
    assert_eq!(bins[0].start, 0);
    for pair in bins.windows(2) {
        assert_eq!(pair[0].end, pair[1].start);
    }
    assert_eq!(bins.last().unwrap().end as usize, records.len());
}

#[test]
fn bins_of_no_records_are_empty() {
    let bins = bin_tiles(&vec![], 4);
    assert_eq!(bins, vec![TileRange { start: 0, end: 0 }; 4]);
    assert_eq!(bin_tiles(&vec![], 0), vec![]);
}

#[test]
fn grid_covers_the_image() {
    let grid = TileGrid::for_image(ImageSize { width: 33, height: 16 }).unwrap();
    assert_eq!(grid, TileGrid { tiles_x: 3, tiles_y: 1 });
    assert_eq!(grid.tile_count(), 3);
    let empty = TileGrid::for_image(ImageSize { width: 0, height: 100 }).unwrap();
    assert_eq!(empty, TileGrid { tiles_x: 0, tiles_y: 7 });
    assert_eq!(empty.tile_count(), 0);
    assert_eq!(TILE_WIDTH, 16);
}

#[test]
fn grid_with_too_many_tiles_is_refused() {
    assert_eq!(TileGrid::for_image(ImageSize { width: u32::MAX, height: u32::MAX }), None);
    let wide = TileGrid::for_image(ImageSize { width: u32::MAX, height: 16 }).unwrap();
    assert_eq!(wide, TileGrid { tiles_x: 0x1000_0000, tiles_y: 1 });
    assert_eq!(TileGrid::for_image(ImageSize { width: 1 << 20, height: 1 << 20 }), None);
    assert!(TileGrid::for_image(ImageSize { width: 1 << 20, height: (1 << 20) - 16 }).is_some());
}

#[test]
fn tile_of_pixel_counts_row_by_row() {
    let grid = TileGrid::for_image(ImageSize { width: 64, height: 48 }).unwrap();
    assert_eq!(grid.tile_of_pixel(0, 0), 0);
    assert_eq!(grid.tile_of_pixel(15, 15), 0);
    assert_eq!(grid.tile_of_pixel(16, 0), 1);
    assert_eq!(grid.tile_of_pixel(63, 0), 3);
    assert_eq!(grid.tile_of_pixel(0, 16), 4);
    assert_eq!(grid.tile_of_pixel(63, 47), 11);
}

#[test]
fn covering_clips_to_the_grid() {
    let grid = TileGrid { tiles_x: 4, tiles_y: 3 };
    let inside = TileRect::covering(&grid, 17, 1, 40, 16);
    assert_eq!(inside, TileRect { min_x: 1, min_y: 0, max_x: 3, max_y: 1 });
    assert_eq!(inside.tiles_hit(&grid), 2);
    let outside = TileRect::covering(&grid, -100, -5, 1000, 17);
    assert_eq!(outside, TileRect { min_x: 0, min_y: 0, max_x: 4, max_y: 2 });
    assert_eq!(outside.tiles_hit(&grid), 8);
    let edge = TileRect::covering(&grid, 16, 16, 32, 32);
    assert_eq!(edge, TileRect { min_x: 1, min_y: 1, max_x: 2, max_y: 2 });
    let single = TileRect::covering(&grid, 5, 5, 6, 6);
    assert_eq!(single, TileRect { min_x: 0, min_y: 0, max_x: 1, max_y: 1 });
}

#[test]
fn covering_of_a_box_off_the_image_is_empty() {
    let grid = TileGrid { tiles_x: 4, tiles_y: 3 };
    assert_eq!(TileRect::covering(&grid, -50, 0, -10, 10).tiles_hit(&grid), 0);
    assert_eq!(TileRect::covering(&grid, 64, 0, 80, 10).tiles_hit(&grid), 0);
    assert_eq!(TileRect::covering(&grid, 10, 10, 10, 20).tiles_hit(&grid), 0);
    assert_eq!(TileRect::covering(&grid, 20, 10, 5, 20).tiles_hit(&grid), 0);
    assert_eq!(
        TileRect::covering(&grid, 10, 10, 10, 20),
        TileRect { min_x: 0, min_y: 0, max_x: 0, max_y: 0 }
    );
    assert_eq!(
        TileRect::covering(&grid, i64::MIN, i64::MIN, i64::MAX, i64::MAX),
        TileRect { min_x: 0, min_y: 0, max_x: 4, max_y: 3 }
    );
}

#[test]
fn nth_tile_walks_the_rectangle_row_by_row() {
    let grid = TileGrid { tiles_x: 5, tiles_y: 4 };
    let rect = TileRect { min_x: 1, min_y: 2, max_x: 4, max_y: 4 };
    assert_eq!(rect.tiles_hit(&grid), 6);
    let ids: Vec<u32> = (0..6).map(|k| rect.nth_tile(&grid, k)).collect();
    assert_eq!(ids, vec![11, 12, 13, 16, 17, 18]);
}

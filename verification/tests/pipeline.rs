use splat_render::compaction::{CompactIndex, NOT_VISIBLE};
use splat_render::composite::{Contribution, PixelCursor};
use splat_render::depth_order::DepthOrder;
use splat_render::forward::{bin_splats, Binning, ProjectedSplat};
use splat_render::intersect::{build_records, count_tiles_hit, Footprint};
use splat_render::prefix_sum::exclusive_scan;
use splat_render::records::{sort_key, IntersectionRecord, NO_CONTRIBUTOR};
use splat_render::render_aux::{check_final_index, RenderAux};
use splat_render::tile_bins::TileRange;
use splat_render::tiles::{ImageSize, TileGrid, TileRect};

const NEGLIGIBLE_ALPHA: f32 = 1.0 / 255.0;
const SATURATION: f32 = 1e-4;

struct ScreenSplat {
    x: f32,
    y: f32,
    radius: f32,
    conic: [f32; 3],
    opacity: f32,
    color: [f32; 3],
    depth: f32,
}

struct Rendered {
    image: Vec<[f32; 3]>,
    final_index: Vec<u32>,
    binning: Binning,
    visited: Vec<usize>,
}

fn project(splats: &[ScreenSplat], grid: &TileGrid) -> Vec<ProjectedSplat> {
    splats
        .iter()
        .map(|s| {
            let visible = s.radius > 0.0 && s.depth > 0.0;
            let rect = TileRect::covering(
                grid,
                (s.x - s.radius).floor() as i64,
                (s.y - s.radius).floor() as i64,
                (s.x + s.radius).ceil() as i64,
                (s.y + s.radius).ceil() as i64,
            );
            ProjectedSplat { visible, rect, depth: s.depth.to_bits() }
        })
        .collect()
}

fn render(size: ImageSize, splats: &[ScreenSplat], background: [f32; 3]) -> Rendered {
    let grid = TileGrid::for_image(size).unwrap();
    let projected = project(splats, &grid);
    let binning = bin_splats(&projected, &grid).unwrap();
    let mut image = Vec::new();
    let mut final_index = Vec::new();
    let mut visited = Vec::new();
    for y in 0..size.height {
        for x in 0..size.width {
            let range = binning.tile_bins[grid.tile_of_pixel(x, y) as usize];
            let mut cursor = PixelCursor::begin(range);
            let mut transmittance = 1.0f32;
            let mut color = [0.0f32; 3];
            let mut steps = 0;
            while let Some(place) = cursor.current() {
                steps += 1;
                let compact = binning.records[place as usize].value;
                let splat = &splats[binning.index.global_from_compact[compact as usize] as usize];
                let dx = splat.x - (x as f32 + 0.5);
                let dy = splat.y - (y as f32 + 0.5);
                let sigma = 0.5 * (splat.conic[0] * dx * dx + splat.conic[2] * dy * dy)
                    + splat.conic[1] * dx * dy;
                let alpha = (splat.opacity * (-sigma).exp()).min(0.999);
                if sigma < 0.0 || alpha < NEGLIGIBLE_ALPHA {
                    cursor.advance(Contribution::Negligible);
                    continue;
                }
                for c in 0..3 {
                    color[c] += alpha * transmittance * splat.color[c];
                }
                let before = transmittance;
                transmittance *= 1.0 - alpha;
                assert!(transmittance <= before);
                if transmittance < SATURATION {
                    cursor.advance(Contribution::Saturated);
                } else {
                    cursor.advance(Contribution::Blended);
                }
            }
            assert!(steps <= (range.end - range.start) as usize);
            for c in 0..3 {
                color[c] += transmittance * background[c];
            }
            image.push(color);
            final_index.push(cursor.last_contributor());
            visited.push(steps);
        }
    }
    Rendered { image, final_index, binning, visited }
}

fn visible(rect: TileRect, depth: u32) -> ProjectedSplat {
    ProjectedSplat { visible: true, rect, depth }
}

fn culled() -> ProjectedSplat {
    ProjectedSplat { visible: false, rect: TileRect { min_x: 9, min_y: 9, max_x: 1, max_y: 1 }, depth: 77 }
}

#[test]
fn compaction_numbers_the_visible_splats() {
    let index = CompactIndex::build(&vec![false, true, true, false, true]);
    assert_eq!(index.global_from_compact, vec![1, 2, 4]);
    assert_eq!(index.compact_from_global, vec![NOT_VISIBLE, 0, 1, NOT_VISIBLE, 2]);
    assert_eq!(index.global_of(2), 4);
    assert_eq!(index.compact_of(4), Some(2));
    assert_eq!(index.compact_of(0), None);
}

#[test]
fn compaction_round_trips() {
    let flags: Vec<bool> = (0..50).map(|g| g % 3 != 1 && g % 7 != 0).collect();
    let index = CompactIndex::build(&flags);
    assert_eq!(index.global_from_compact.len(), flags.iter().filter(|v| **v).count());
    for (g, seen) in flags.iter().enumerate() {
        if *seen {
            let c = index.compact_of(g as u32).unwrap();
            assert_eq!(index.global_of(c), g as u32);
        } else {
            assert_eq!(index.compact_of(g as u32), None);
        }
    }
    for c in 0..index.global_from_compact.len() as u32 {
        assert_eq!(index.compact_of(index.global_of(c)), Some(c));
    }
}

#[test]
fn compaction_of_nothing_visible_is_empty() {
    let index = CompactIndex::build(&vec![false; 4]);
    assert!(index.global_from_compact.is_empty());
    assert_eq!(index.compact_from_global, vec![NOT_VISIBLE; 4]);
    let none = CompactIndex::build(&vec![]);
    assert!(none.global_from_compact.is_empty() && none.compact_from_global.is_empty());
}

#[test]
fn depth_order_sorts_front_to_back() {
    let depths: Vec<u32> = [4.0f32, 1.0, 3.0, 1.0, 0.25].iter().map(|d| d.to_bits()).collect();
    let order = DepthOrder::build(&depths);
    assert_eq!(order.compact_from_depthsort, vec![4, 1, 3, 2, 0]);
    assert_eq!(order.depthsort_from_compact, vec![4, 1, 3, 2, 0]);
    for c in 0..depths.len() {
        assert_eq!(order.compact_from_depthsort[order.depthsort_from_compact[c] as usize], c as u32);
        assert_eq!(order.depthsort_from_compact[order.compact_from_depthsort[c] as usize], c as u32);
    }
}

#[test]
fn depth_order_is_not_its_own_inverse_in_general() {
    let order = DepthOrder::build(&vec![30, 10, 20]);
    assert_eq!(order.compact_from_depthsort, vec![1, 2, 0]);
    assert_eq!(order.depthsort_from_compact, vec![2, 0, 1]);
}

#[test]
fn records_are_written_at_the_scanned_offsets() {
    let grid = TileGrid { tiles_x: 4, tiles_y: 2 };
    let footprints = vec![
        Footprint { rect: TileRect { min_x: 1, min_y: 0, max_x: 3, max_y: 2 }, depth: 50 },
        Footprint { rect: TileRect { min_x: 0, min_y: 0, max_x: 0, max_y: 0 }, depth: 40 },
        Footprint { rect: TileRect { min_x: 3, min_y: 1, max_x: 4, max_y: 2 }, depth: 30 },
    ];
    let counts = count_tiles_hit(&footprints, &grid);
    assert_eq!(counts, vec![4, 0, 1]);
    let offsets = exclusive_scan(&counts);
    assert_eq!(offsets, vec![0, 4, 4, 5]);
    let records = build_records(&footprints, &grid, &offsets);
    let expected: Vec<IntersectionRecord> = [(1, 50, 0), (2, 50, 0), (5, 50, 0), (6, 50, 0), (7, 30, 2)]
        .iter()
        .map(|(tile, depth, value)| IntersectionRecord { key: sort_key(*tile, *depth), value: *value })
        .collect();
    assert_eq!(records, expected);
}

#[test]
fn binning_runs_all_stages() {
    let grid = TileGrid { tiles_x: 2, tiles_y: 2 };
    let projected = vec![
        visible(TileRect { min_x: 0, min_y: 0, max_x: 2, max_y: 1 }, 9),
        culled(),
        visible(TileRect { min_x: 1, min_y: 0, max_x: 2, max_y: 2 }, 3),
        visible(TileRect { min_x: 0, min_y: 0, max_x: 1, max_y: 1 }, 9),
    ];
    let b = bin_splats(&projected, &grid).unwrap();
    assert_eq!(b.index.global_from_compact, vec![0, 2, 3]);
    assert_eq!(b.index.compact_from_global, vec![0, NOT_VISIBLE, 1, 2]);
    assert_eq!(b.cum_tiles_hit, vec![0, 2, 4, 5]);
    assert_eq!(b.num_intersects, 5);
    let seen: Vec<(u64, u32)> = b.records.iter().map(|r| (r.key, r.value)).collect();
    assert_eq!(
        seen,
        vec![
            (sort_key(0, 9), 0),
            (sort_key(0, 9), 2),
            (sort_key(1, 3), 1),
            (sort_key(1, 9), 0),
            (sort_key(3, 3), 1),
        ]
    );
    assert_eq!(
        b.tile_bins,
        vec![
            TileRange { start: 0, end: 2 },
            TileRange { start: 2, end: 4 },
            TileRange { start: 4, end: 4 },
            TileRange { start: 4, end: 5 },
        ]
    );
    assert_eq!(b.order.compact_from_depthsort, vec![1, 0, 2]);
    assert_eq!(b.order.depthsort_from_compact, vec![1, 0, 2]);
    assert_eq!(b.depthsort_gid_from_isect, vec![1, 2, 0, 1, 0]);
}

#[test]
fn cum_tiles_hit_never_decreases_and_ends_at_num_intersects() {
    let grid = TileGrid { tiles_x: 8, tiles_y: 8 };
    let projected: Vec<ProjectedSplat> = (0..40u32)
        .map(|g| {
            if g % 5 == 0 {
                culled()
            } else {
                let x = g % 8;
                let y = (g / 3) % 8;
                visible(TileRect { min_x: x, min_y: y, max_x: (x + g % 4).min(8), max_y: (y + 2).min(8) }, 1000 - g)
            }
        })
        .collect();
    let b = bin_splats(&projected, &grid).unwrap();
    assert_eq!(b.cum_tiles_hit.len(), b.index.global_from_compact.len() + 1);
    assert_eq!(b.cum_tiles_hit[0], 0);
    for pair in b.cum_tiles_hit.windows(2) {
        assert!(pair[0] <= pair[1]);
    }
    assert_eq!(*b.cum_tiles_hit.last().unwrap(), b.num_intersects);
    assert_eq!(b.records.len() as u32, b.num_intersects);
    assert_eq!(b.tile_bins.len(), 64);
    assert_eq!(b.tile_bins[0].start, 0);
    for pair in b.tile_bins.windows(2) {
        assert!(pair[0].start <= pair[0].end);
        assert_eq!(pair[0].end, pair[1].start);
    }
    assert_eq!(b.tile_bins[63].end, b.num_intersects);
}

#[test]
fn binning_reports_more_intersections_than_32_bits_hold() {
    let grid = TileGrid { tiles_x: 0x1_0000, tiles_y: 0xffff };
    let all = TileRect { min_x: 0, min_y: 0, max_x: 0x1_0000, max_y: 0xffff };
    let projected = vec![visible(all, 1), culled(), visible(all, 2)];
    assert!(bin_splats(&projected, &grid).is_none());
    let small = TileGrid { tiles_x: 4, tiles_y: 4 };
    let some = TileRect { min_x: 0, min_y: 0, max_x: 3, max_y: 2 };
    let projected = vec![visible(some, 1), culled(), visible(some, 2)];
    assert_eq!(bin_splats(&projected, &small).unwrap().num_intersects, 12);
}

#[test]
fn every_splat_culled_gives_the_background() {
    let size = ImageSize { width: 20, height: 17 };
    let splats: Vec<ScreenSplat> = (0..5)
        .map(|i| ScreenSplat {
            x: 3.0 * i as f32,
            y: 4.0,
            radius: 0.0,
            conic: [1.0, 0.0, 1.0],
            opacity: 1.0,
            color: [1.0, 1.0, 1.0],
            depth: 1.0,
        })
        .collect();
    let background = [0.25, 0.5, 0.75];
    let r = render(size, &splats, background);
    assert_eq!(r.binning.index.global_from_compact.len(), 0);
    assert_eq!(r.binning.num_intersects, 0);
    assert!(r.binning.records.is_empty());
    assert_eq!(r.binning.cum_tiles_hit, vec![0]);
    assert_eq!(r.binning.tile_bins, vec![TileRange { start: 0, end: 0 }; 4]);
    assert_eq!(r.image.len(), 20 * 17);
    assert!(r.image.iter().all(|pixel| *pixel == background));
    assert!(r.final_index.iter().all(|f| *f == NO_CONTRIBUTOR));
}

#[test]
fn no_splats_at_all_gives_the_background() {
    let r = render(ImageSize { width: 4, height: 4 }, &[], [0.0, 1.0, 0.0]);
    assert_eq!(r.binning.num_intersects, 0);
    assert!(r.image.iter().all(|pixel| *pixel == [0.0, 1.0, 0.0]));
}

#[test]
fn one_tiny_opaque_splat_colours_one_pixel() {
    let size = ImageSize { width: 32, height: 32 };
    let color = [0.9, 0.4, 0.1];
    let splat = ScreenSplat {
        x: 5.5,
        y: 5.5,
        radius: 0.3,
        conic: [100.0, 0.0, 100.0],
        opacity: 1.0,
        color,
        depth: 2.0,
    };
    let r = render(size, &[splat], [0.0, 0.0, 0.0]);
    let filled: Vec<&TileRange> = r.binning.tile_bins.iter().filter(|b| b.start < b.end).collect();
    assert_eq!(filled, vec![&TileRange { start: 0, end: 1 }]);
    assert_eq!(r.binning.tile_bins.len(), 4);
    assert_eq!(r.binning.num_intersects, 1);
    for y in 0..32usize {
        for x in 0..32usize {
            let pixel = r.image[y * 32 + x];
            if (x, y) == (5, 5) {
                for c in 0..3 {
                    assert!((pixel[c] - color[c]).abs() < 2e-3);
                }
                assert_eq!(r.final_index[y * 32 + x], 0);
            } else {
                assert_eq!(pixel, [0.0, 0.0, 0.0]);
                assert_eq!(r.final_index[y * 32 + x], NO_CONTRIBUTOR);
            }
        }
    }
}

fn two_splats(depth_red: f32, depth_green: f32) -> Vec<ScreenSplat> {
    let at = |color: [f32; 3], depth: f32| ScreenSplat {
        x: 8.5,
        y: 8.5,
        radius: 6.0,
        conic: [0.1, 0.0, 0.1],
        opacity: 0.5,
        color,
        depth,
    };
    vec![at([1.0, 0.0, 0.0], depth_red), at([0.0, 1.0, 0.0], depth_green)]
}

#[test]
fn nearer_splat_occludes_the_farther() {
    let size = ImageSize { width: 16, height: 16 };
    let red_near = render(size, &two_splats(1.0, 2.0), [0.0, 0.0, 0.0]);
    let green_near = render(size, &two_splats(2.0, 1.0), [0.0, 0.0, 0.0]);
    let centre = 8 * 16 + 8;
    assert_eq!(red_near.image[centre], [0.5, 0.25, 0.0]);
    assert_eq!(green_near.image[centre], [0.25, 0.5, 0.0]);
    assert_ne!(red_near.image, green_near.image);
    let order = |r: &Rendered| r.binning.records.iter().map(|rec| rec.value).collect::<Vec<u32>>();
    assert_eq!(order(&red_near), vec![0, 1]);
    assert_eq!(order(&green_near), vec![1, 0]);
    assert_eq!(red_near.final_index[centre], 1);
}

#[test]
fn saturated_pixel_stops_visiting() {
    let size = ImageSize { width: 16, height: 16 };
    let splats: Vec<ScreenSplat> = (0..10)
        .map(|i| ScreenSplat {
            x: 8.5,
            y: 8.5,
            radius: 4.0,
            conic: [0.01, 0.0, 0.01],
            opacity: 1.0,
            color: [1.0, 1.0, 1.0],
            depth: 1.0 + i as f32,
        })
        .collect();
    let r = render(size, &splats, [0.0, 0.0, 0.0]);
    let centre = 8 * 16 + 8;
    assert_eq!(r.binning.tile_bins[0], TileRange { start: 0, end: 10 });
    assert_eq!(r.visited[centre], 2);
    assert_eq!(r.final_index[centre], 1);
}

#[test]
fn cursor_walks_its_range() {
    let mut cursor = PixelCursor::begin(TileRange { start: 4, end: 7 });
    assert_eq!(cursor.current(), Some(4));
    assert_eq!(cursor.last_contributor(), NO_CONTRIBUTOR);
    cursor.advance(Contribution::Negligible);
    assert_eq!((cursor.current(), cursor.last_contributor()), (Some(5), NO_CONTRIBUTOR));
    cursor.advance(Contribution::Blended);
    assert_eq!((cursor.current(), cursor.last_contributor()), (Some(6), 5));
    cursor.advance(Contribution::Negligible);
    assert_eq!((cursor.current(), cursor.last_contributor()), (None, 5));
}

#[test]
fn cursor_stops_at_saturation() {
    let mut cursor = PixelCursor::begin(TileRange { start: 0, end: 100 });
    cursor.advance(Contribution::Blended);
    cursor.advance(Contribution::Saturated);
    assert_eq!(cursor.current(), None);
    assert_eq!(cursor.last_contributor(), 1);
    assert_eq!(cursor, PixelCursor { next: 2, end: 100, final_index: 1, saturated: true });
    let empty = PixelCursor::begin(TileRange { start: 3, end: 3 });
    assert_eq!(empty.current(), None);
}

#[test]
fn aux_is_assembled_from_consistent_parts() {
    let size = ImageSize { width: 16, height: 16 };
    let grid = TileGrid::for_image(size).unwrap();
    let r = render(size, &two_splats(2.0, 1.0), [0.0, 0.0, 0.0]);
    let final_index = r.final_index.clone();
    let aux = RenderAux::assemble(
        r.binning,
        &grid,
        size,
        vec![6.0f32.to_bits(); 2],
        vec![0; 6],
        vec![0; 6],
        vec![0; 4],
        final_index.clone(),
    )
    .unwrap();
    assert_eq!(aux.num_visible, 2);
    assert_eq!(aux.num_intersects, 2);
    assert_eq!(aux.global_from_compact_gid, vec![0, 1]);
    assert_eq!(aux.compact_from_depthsort_gid, vec![1, 0]);
    assert_eq!(aux.depthsort_gid_from_isect, vec![0, 1]);
    assert_eq!(aux.depths, vec![2.0f32.to_bits(), 1.0f32.to_bits()]);
    assert_eq!(aux.cum_tiles_hit, vec![0, 1, 2]);
    assert_eq!(aux.tile_bins, vec![TileRange { start: 0, end: 2 }]);
    assert_eq!(aux.final_index, final_index);
    assert_eq!(aux.radii_compact.len(), 2);
}

#[test]
fn aux_is_refused_for_rows_of_the_wrong_length() {
    let size = ImageSize { width: 16, height: 16 };
    let grid = TileGrid::for_image(size).unwrap();
    let parts = || render(size, &two_splats(2.0, 1.0), [0.0, 0.0, 0.0]);
    let fi = parts().final_index;
    assert!(RenderAux::assemble(parts().binning, &grid, size, vec![0; 3], vec![0; 6], vec![0; 6], vec![0; 4], fi.clone()).is_none());
    assert!(RenderAux::assemble(parts().binning, &grid, size, vec![0; 2], vec![0; 5], vec![0; 6], vec![0; 4], fi.clone()).is_none());
    assert!(RenderAux::assemble(parts().binning, &grid, size, vec![0; 2], vec![0; 6], vec![0; 4], vec![0; 4], fi.clone()).is_none());
    assert!(RenderAux::assemble(parts().binning, &grid, size, vec![0; 2], vec![0; 6], vec![0; 6], vec![0; 2], fi.clone()).is_none());
    assert!(RenderAux::assemble(parts().binning, &grid, size, vec![0; 2], vec![0; 6], vec![0; 6], vec![0; 4], vec![0; 255]).is_none());
    assert!(RenderAux::assemble(parts().binning, &grid, size, vec![0; 2], vec![0; 6], vec![0; 6], vec![0; 4], vec![2; 256]).is_none());
    assert!(RenderAux::assemble(parts().binning, &grid, size, vec![0; 2], vec![0; 6], vec![0; 6], vec![0; 4], fi).is_some());
}

#[test]
fn final_index_must_lie_in_the_tile_of_its_pixel() {
    let size = ImageSize { width: 32, height: 16 };
    let grid = TileGrid::for_image(size).unwrap();
    let bins = vec![TileRange { start: 0, end: 2 }, TileRange { start: 2, end: 5 }];
    let mut final_index = vec![NO_CONTRIBUTOR; 32 * 16];
    assert!(check_final_index(&final_index, &bins, &grid, size));
    final_index[3] = 1;
    final_index[16] = 2;
    final_index[15 * 32 + 31] = 4;
    assert!(check_final_index(&final_index, &bins, &grid, size));
    final_index[15] = 2;
    assert!(!check_final_index(&final_index, &bins, &grid, size));
    final_index[15] = 0;
    final_index[17] = 5;
    assert!(!check_final_index(&final_index, &bins, &grid, size));
    final_index[17] = 1;
    assert!(!check_final_index(&final_index, &bins, &grid, size));
    assert!(!check_final_index(&vec![NO_CONTRIBUTOR; 32 * 16 - 1], &bins, &grid, size));
}

fn sample_aux() -> (RenderAux, TileGrid, ImageSize) {
    let size = ImageSize { width: 40, height: 20 };
    let grid = TileGrid::for_image(size).unwrap();
    let splats: Vec<ScreenSplat> = (0..6)
        .map(|i| ScreenSplat {
            x: 4.0 + 6.0 * i as f32,
            y: 10.0,
            radius: 5.0,
            conic: [0.2, 0.0, 0.2],
            opacity: 0.6,
            color: [0.1 * i as f32, 0.5, 0.5],
            depth: if i == 2 { -1.0 } else { 10.0 - i as f32 },
        })
        .collect();
    let r = render(size, &splats, [0.0, 0.0, 0.0]);
    let count = r.binning.index.global_from_compact.len();
    let aux = RenderAux::assemble(
        r.binning,
        &grid,
        size,
        vec![0; count],
        vec![0; 3 * count],
        vec![0; 3 * count],
        vec![0; 2 * count],
        r.final_index,
    )
    .unwrap();
    (aux, grid, size)
}

#[test]
fn assembled_aux_passes_the_check() {
    let (aux, grid, size) = sample_aux();
    assert_eq!(aux.num_visible, 5);
    assert_eq!(aux.global_from_compact_gid, vec![0, 1, 3, 4, 5]);
    assert_eq!(aux.compact_from_depthsort_gid, vec![4, 3, 2, 1, 0]);
    assert!(aux.num_intersects > 5);
    assert!(aux.final_index.iter().any(|f| *f != NO_CONTRIBUTOR));
    assert!(aux.check(&grid, size));
}

#[test]
fn check_finds_each_kind_of_damage() {
    let (good, grid, size) = sample_aux();
    assert!(good.check(&grid, size));
    let damaged = |change: &dyn Fn(&mut RenderAux)| {
        let (mut aux, grid, size) = sample_aux();
        change(&mut aux);
        aux.check(&grid, size)
    };
    assert!(!damaged(&|a| a.num_visible += 1));
    assert!(!damaged(&|a| a.num_intersects += 1));
    assert!(!damaged(&|a| a.global_from_compact_gid.swap(0, 1)));
    assert!(!damaged(&|a| a.global_from_compact_gid[1] = 0));
    assert!(!damaged(&|a| a.compact_from_depthsort_gid[0] = 5));
    assert!(!damaged(&|a| a.compact_from_depthsort_gid.swap(1, 2)));
    assert!(!damaged(&|a| a.compact_from_depthsort_gid[1] = 4));
    assert!(!damaged(&|a| a.depths[4] = u32::MAX));
    assert!(!damaged(&|a| a.depths.push(0)));
    assert!(!damaged(&|a| a.radii_compact.push(0)));
    assert!(!damaged(&|a| a.conic_comps.push(0)));
    assert!(!damaged(&|a| a.colors.truncate(3)));
    assert!(!damaged(&|a| a.xys.clear()));
    assert!(!damaged(&|a| a.cum_tiles_hit[0] = 1));
    assert!(!damaged(&|a| a.cum_tiles_hit.swap(1, 2)));
    assert!(!damaged(&|a| {
        a.cum_tiles_hit.pop();
    }));
    assert!(!damaged(&|a| a.depthsort_gid_from_isect[0] = 5));
    assert!(!damaged(&|a| a.depthsort_gid_from_isect.push(0)));
    assert!(!damaged(&|a| a.tile_bins[0].start = 1));
    assert!(!damaged(&|a| a.tile_bins[1].end += 1));
    assert!(!damaged(&|a| a.tile_bins.push(TileRange { start: 0, end: 0 })));
    assert!(!damaged(&|a| a.final_index[0] = a.num_intersects));
    assert!(!damaged(&|a| {
        a.final_index.pop();
    }));
    assert!(damaged(&|a| a.final_index[0] = NO_CONTRIBUTOR));
    assert!(damaged(&|a| a.radii_compact[0] = 7));
}

#[test]
fn check_accepts_the_aux_of_nothing_visible() {
    let size = ImageSize { width: 0, height: 0 };
    let grid = TileGrid::for_image(size).unwrap();
    let binning = bin_splats(&vec![culled(), culled()], &grid).unwrap();
    let aux = RenderAux::assemble(binning, &grid, size, vec![], vec![], vec![], vec![], vec![]).unwrap();
    assert!(aux.check(&grid, size));
    assert!(aux.tile_bins.is_empty());
    assert_eq!(aux.cum_tiles_hit, vec![0]);
}

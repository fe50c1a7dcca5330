//! The tile grid that partitions the image, and rectangles of tiles.

use vstd::prelude::*;

verus! {

/// Side of a tile in pixels.
pub const TILE_WIDTH: u32 = 16;

/// Width and height of the output image in pixels.
#[derive(Clone, Copy, Debug, PartialEq, Eq, Structural)]
pub struct ImageSize {
    pub width: u32,
    pub height: u32,
}

/// Number of tiles needed to cover `pixels` pixels along one axis.
pub open spec fn tiles_across(pixels: u32) -> int {
    (pixels + TILE_WIDTH - 1) / (TILE_WIDTH as int)
}

/// The grid of tiles over an image, tiles numbered row by row.
#[derive(Clone, Copy, Debug, PartialEq, Eq, Structural)]
pub struct TileGrid {
    pub tiles_x: u32,
    pub tiles_y: u32,
}

impl TileGrid {
    /// Number of tiles of the grid.
    pub open spec fn count(self) -> int {
        self.tiles_x * self.tiles_y
    }

    /// Tile ids fit in 32 bits.
    pub open spec fn wf(self) -> bool {
        self.count() <= u32::MAX
    }

    /// The id of the tile in column `col` and row `row`.
    pub open spec fn id_at(self, col: int, row: int) -> int {
        row * self.tiles_x + col
    }

    /// The grid that covers an image of the given size, or `None` where it
    /// would have more tiles than a 32-bit id can number.
    pub fn for_image(size: ImageSize) -> (grid: Option<TileGrid>)
        ensures
            grid.is_some() <==> tiles_across(size.width) * tiles_across(size.height) <= u32::MAX,
            grid.is_some() ==> grid.unwrap().wf() && grid.unwrap().tiles_x == tiles_across(
                size.width,
            ) && grid.unwrap().tiles_y == tiles_across(size.height),
    {
        let tiles_x: u64 = (size.width as u64 + (TILE_WIDTH as u64 - 1)) / (TILE_WIDTH as u64);
        let tiles_y: u64 = (size.height as u64 + (TILE_WIDTH as u64 - 1)) / (TILE_WIDTH as u64);
        assert(tiles_x * tiles_y <= 0x1000_0000 * 0x1000_0000) by (nonlinear_arith)
            requires
                tiles_x <= 0x1000_0000,
                tiles_y <= 0x1000_0000,
        ;
        if tiles_x * tiles_y <= u32::MAX as u64 {
            Some(TileGrid { tiles_x: tiles_x as u32, tiles_y: tiles_y as u32 })
        } else {
            None
        }
    }

    /// Number of tiles of the grid.
    pub fn tile_count(&self) -> (n: u32)
        requires
            self.wf(),
        ensures
            n == self.count(),
    {
        self.tiles_x * self.tiles_y
    }

    /// The id of the tile that holds pixel (`x`, `y`).
    pub fn tile_of_pixel(&self, x: u32, y: u32) -> (id: u32)
        requires
            self.wf(),
            x / TILE_WIDTH < self.tiles_x,
            y / TILE_WIDTH < self.tiles_y,
        ensures
            id == self.id_at((x / TILE_WIDTH) as int, (y / TILE_WIDTH) as int),
            id < self.count(),
    {
        let col = x / TILE_WIDTH;
        let row = y / TILE_WIDTH;
        proof {
            lemma_id_in_grid(*self, col as int, row as int);
        }
        row * self.tiles_x + col
    }
}

/// A tile inside the grid has an id below the number of tiles.
pub proof fn lemma_id_in_grid(grid: TileGrid, col: int, row: int)
    requires
        0 <= col < grid.tiles_x,
        0 <= row < grid.tiles_y,
    ensures
        0 <= row * grid.tiles_x <= grid.id_at(col, row) < grid.count(),
{
    let w = grid.tiles_x as int;
    let h = grid.tiles_y as int;
    assert(0 <= row * w && row * w + w <= w * h) by (nonlinear_arith)
        requires
            0 <= row,
            row + 1 <= h,
            0 <= w,
    ;
}

/// A tile id names exactly one column and row of the grid.
pub proof fn lemma_id_at_injective(grid: TileGrid, col_a: int, row_a: int, col_b: int, row_b: int)
    requires
        0 <= col_a < grid.tiles_x,
        0 <= col_b < grid.tiles_x,
        0 <= row_a,
        0 <= row_b,
        grid.id_at(col_a, row_a) == grid.id_at(col_b, row_b),
    ensures
        col_a == col_b,
        row_a == row_b,
{
    let w = grid.tiles_x as int;
    if row_a < row_b {
        assert(row_a * w + w <= row_b * w) by (nonlinear_arith)
            requires
                row_a + 1 <= row_b,
                0 <= w,
        ;
    } else if row_b < row_a {
        assert(row_b * w + w <= row_a * w) by (nonlinear_arith)
            requires
                row_b + 1 <= row_a,
                0 <= w,
        ;
    }
}

/// The first tile column (or row) that reaches past pixel coordinate `px`,
/// kept within `limit` tiles.
pub open spec fn first_tile(px: int, limit: int) -> int {
    if px <= 0 {
        0
    } else if px / (TILE_WIDTH as int) < limit {
        px / (TILE_WIDTH as int)
    } else {
        limit
    }
}

/// One past the last tile column (or row) that starts before pixel
/// coordinate `px`, kept within `limit` tiles.
pub open spec fn end_tile(px: int, limit: int) -> int {
    if px <= 0 {
        0
    } else if (px - 1) / (TILE_WIDTH as int) + 1 < limit {
        (px - 1) / (TILE_WIDTH as int) + 1
    } else {
        limit
    }
}

/// A rectangle of tiles: columns `min_x` up to but not including `max_x`,
/// rows `min_y` up to but not including `max_y`.
#[derive(Clone, Copy, Debug, PartialEq, Eq, Structural)]
pub struct TileRect {
    pub min_x: u32,
    pub min_y: u32,
    pub max_x: u32,
    pub max_y: u32,
}

impl TileRect {
    /// The rectangle is ordered and lies inside the grid.
    pub open spec fn wf_in(self, grid: TileGrid) -> bool {
        &&& self.min_x <= self.max_x <= grid.tiles_x
        &&& self.min_y <= self.max_y <= grid.tiles_y
    }

    /// Number of columns of the rectangle.
    pub open spec fn width(self) -> int {
        self.max_x - self.min_x
    }

    /// Number of rows of the rectangle.
    pub open spec fn height(self) -> int {
        self.max_y - self.min_y
    }

    /// Number of tiles of the rectangle.
    pub open spec fn area(self) -> int {
        self.width() * self.height()
    }

    /// The tile in column `col` and row `row` lies in the rectangle.
    pub open spec fn contains(self, col: int, row: int) -> bool {
        self.min_x <= col < self.max_x && self.min_y <= row < self.max_y
    }

    /// The id of the `k`-th tile of the rectangle, counted row by row.
    pub open spec fn tile_at(self, grid: TileGrid, k: int) -> int {
        grid.id_at(self.min_x + k % self.width(), self.min_y + k / self.width())
    }

    /// The tiles of `grid` that the pixel box from (`left`, `top`) up to but
    /// not including (`right`, `bottom`) overlaps.
    pub open spec fn covering_spec(
        grid: TileGrid,
        left: i64,
        top: i64,
        right: i64,
        bottom: i64,
    ) -> TileRect {
        let min_x = first_tile(left as int, grid.tiles_x as int);
        let min_y = first_tile(top as int, grid.tiles_y as int);
        let end_x = end_tile(right as int, grid.tiles_x as int);
        let end_y = end_tile(bottom as int, grid.tiles_y as int);
        if left < right && top < bottom && min_x < end_x && min_y < end_y {
            TileRect { min_x: min_x as u32, min_y: min_y as u32, max_x: end_x as u32, max_y: end_y as u32 }
        } else {
            TileRect { min_x: 0, min_y: 0, max_x: 0, max_y: 0 }
        }
    }

    /// The tiles of `grid` that a box of pixels overlaps. The box is given by
    /// its corners, the right and bottom ones not included; it may reach
    /// outside the image. Where no tile meets the box the rectangle is the
    /// empty one at the origin.
    pub fn covering(grid: &TileGrid, left: i64, top: i64, right: i64, bottom: i64) -> (rect:
        TileRect)
        ensures
            rect == Self::covering_spec(*grid, left, top, right, bottom),
            rect.wf_in(*grid),
    {
        let min_x = first_tile_of(left, grid.tiles_x);
        let min_y = first_tile_of(top, grid.tiles_y);
        let end_x = end_tile_of(right, grid.tiles_x);
        let end_y = end_tile_of(bottom, grid.tiles_y);
        if left < right && top < bottom && min_x < end_x && min_y < end_y {
            TileRect { min_x, min_y, max_x: end_x, max_y: end_y }
        } else {
            TileRect { min_x: 0, min_y: 0, max_x: 0, max_y: 0 }
        }
    }

    /// Number of tiles that the rectangle holds.
    pub fn tiles_hit(&self, grid: &TileGrid) -> (n: u32)
        requires
            grid.wf(),
            self.wf_in(*grid),
        ensures
            n == self.area(),
    {
        proof {
            lemma_area_in_grid(*self, *grid);
        }
        (self.max_x - self.min_x) * (self.max_y - self.min_y)
    }

    /// The id of the `k`-th tile of the rectangle, counted row by row.
    pub fn nth_tile(&self, grid: &TileGrid, k: u32) -> (id: u32)
        requires
            grid.wf(),
            self.wf_in(*grid),
            k < self.area(),
        ensures
            id == self.tile_at(*grid, k as int),
            id < grid.count(),
    {
        let width = self.max_x - self.min_x;
        proof {
            lemma_nth_in_rect(*self, k as int);
        }
        let col = self.min_x + k % width;
        let row = self.min_y + k / width;
        proof {
            lemma_id_in_grid(*grid, col as int, row as int);
        }
        row * grid.tiles_x + col
    }
}

fn first_tile_of(px: i64, limit: u32) -> (tile: u32)
    ensures
        tile == first_tile(px as int, limit as int),
        tile <= limit,
{
    if px <= 0 {
        0
    } else {
        let across: u64 = (px as u64) / (TILE_WIDTH as u64);
        if across < limit as u64 {
            across as u32
        } else {
            limit
        }
    }
}

fn end_tile_of(px: i64, limit: u32) -> (tile: u32)
    ensures
        tile == end_tile(px as int, limit as int),
        tile <= limit,
{
    if px <= 0 {
        0
    } else {
        let across: u64 = ((px - 1) as u64) / (TILE_WIDTH as u64) + 1;
        if across < limit as u64 {
            across as u32
        } else {
            limit
        }
    }
}

/// A rectangle inside the grid has no more tiles than the grid.
pub proof fn lemma_area_in_grid(rect: TileRect, grid: TileGrid)
    requires
        rect.wf_in(grid),
    ensures
        0 <= rect.area() <= grid.count(),
{
    let w = rect.width();
    let h = rect.height();
    let gw = grid.tiles_x as int;
    let gh = grid.tiles_y as int;
    assert(0 <= w * h <= gw * gh) by (nonlinear_arith)
        requires
            0 <= w <= gw,
            0 <= h <= gh,
    ;
}

/// The `k`-th tile of a rectangle lies in the rectangle.
pub proof fn lemma_nth_in_rect(rect: TileRect, k: int)
    requires
        rect.min_x <= rect.max_x,
        rect.min_y <= rect.max_y,
        0 <= k < rect.area(),
    ensures
        rect.width() > 0,
        0 <= k % rect.width() < rect.width(),
        0 <= k / rect.width() < rect.height(),
        rect.contains(rect.min_x + k % rect.width(), rect.min_y + k / rect.width()),
{
    let w = rect.width();
    let h = rect.height();
    assert(w > 0) by (nonlinear_arith)
        requires
            0 <= w,
            0 <= k < w * h,
    ;
    assert(0 <= k / w < h && 0 <= k % w < w) by (nonlinear_arith)
        requires
            w > 0,
            0 <= k < w * h,
    ;
}

/// The rectangle that covers a box holds exactly the tiles of the grid whose
/// pixels meet the box.
pub proof fn lemma_covering_overlaps(
    grid: TileGrid,
    left: i64,
    top: i64,
    right: i64,
    bottom: i64,
    col: int,
    row: int,
)
    requires
        0 <= col < grid.tiles_x,
        0 <= row < grid.tiles_y,
    ensures
        TileRect::covering_spec(grid, left, top, right, bottom).contains(col, row) <==> (left
            < right && top < bottom && left < (col + 1) * TILE_WIDTH && col * TILE_WIDTH < right
            && top < (row + 1) * TILE_WIDTH && row * TILE_WIDTH < bottom),
{
}

} // verus!

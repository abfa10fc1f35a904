//! Tiles: read-only rectangular windows into a grid, and the tiling that
//! covers a grid with them.

use vstd::prelude::*;
use vstd::arithmetic::div_mod::{lemma_fundamental_div_mod, lemma_fundamental_div_mod_converse};
use crate::grid::{Grid, lemma_moore_neighbors_upto};
use crate::state::HealthState;

verus! {

/// How many tiles of extent `tile_extent` it takes to span `extent` cells:
/// the quotient, rounded up.
pub open spec fn tiles_across(extent: int, tile_extent: int) -> int {
    (extent + tile_extent - 1) / tile_extent
}

/// The extent of the `k`-th tile along an axis of `extent` cells: the full
/// `tile_extent`, or what is left of the axis where that is less.
pub open spec fn clamped_extent(extent: int, tile_extent: int, k: int) -> int {
    if tile_extent <= extent - k * tile_extent {
        tile_extent
    } else {
        extent - k * tile_extent
    }
}

/// A rectangular window into a grid. The origin is in the grid's coordinates.
pub struct Tile<'a> {
    pub origin_x: usize,
    pub origin_y: usize,
    pub tile_x: usize,
    pub tile_y: usize,
    pub grid: &'a Grid,
}

/// Whether `tile` is the tile in column `col` and row `row` of the tiling of
/// `grid` by tiles `tile_width` wide and `tile_height` high.
pub open spec fn is_tile_of(
    tile: Tile,
    grid: &Grid,
    tile_width: int,
    tile_height: int,
    col: int,
    row: int,
) -> bool {
    &&& tile.grid == grid
    &&& tile.origin_x == col * tile_width
    &&& tile.origin_y == row * tile_height
    &&& tile.tile_x == clamped_extent(grid.grid_x as int, tile_width, col)
    &&& tile.tile_y == clamped_extent(grid.grid_y as int, tile_height, row)
}

/// Whether `tiles` is the tiling of `grid` by tiles `tile_width` wide and
/// `tile_height` high, in row-major order.
pub open spec fn is_tiling(tiles: Seq<Tile>, grid: &Grid, tile_width: int, tile_height: int) -> bool {
    let columns = tiles_across(grid.grid_x as int, tile_width);
    let rows = tiles_across(grid.grid_y as int, tile_height);
    &&& tiles.len() == columns * rows
    &&& forall|t: int|
        0 <= t < tiles.len() ==> is_tile_of(
            #[trigger] tiles[t],
            grid,
            tile_width,
            tile_height,
            t % columns,
            t / columns,
        )
}

/// Along one axis, a cell lies in the tile whose number is the cell's
/// coordinate divided by the tile extent, and that tile exists.
pub proof fn lemma_tile_of_coordinate(extent: int, tile_extent: int, x: int)
    requires
        tile_extent > 0,
        0 <= x < extent,
    ensures
        0 <= x / tile_extent < tiles_across(extent, tile_extent),
        (x / tile_extent) * tile_extent <= x < (x / tile_extent) * tile_extent + clamped_extent(
            extent,
            tile_extent,
            x / tile_extent,
        ),
{
    let k = x / tile_extent;
    lemma_fundamental_div_mod(x, tile_extent);
    assert(tile_extent * k == k * tile_extent) by (nonlinear_arith);
    assert(0 <= k) by (nonlinear_arith)
        requires
            x >= 0,
            tile_extent > 0,
            k == x / tile_extent,
    ;
    assert(k < (extent + tile_extent - 1) / tile_extent) by (nonlinear_arith)
        requires
            tile_extent > 0,
            k * tile_extent <= x,
            x < extent,
    ;
}

/// Along one axis, a cell that lies in tile `k` has `k` as the quotient of
/// its coordinate by the tile extent.
pub proof fn lemma_coordinate_of_tile(extent: int, tile_extent: int, k: int, x: int)
    requires
        tile_extent > 0,
        k * tile_extent <= x < k * tile_extent + clamped_extent(extent, tile_extent, k),
    ensures
        x / tile_extent == k,
        x < extent,
{
    lemma_fundamental_div_mod_converse(x, tile_extent, k, x - k * tile_extent);
}

/// In row-major order the tile in column `col` of row `row` has the number
/// `row * columns + col`: it is below the count of tiles, and it gives the
/// column and the row back.
pub proof fn lemma_tile_number(columns: int, rows: int, col: int, row: int)
    requires
        0 <= col < columns,
        0 <= row < rows,
    ensures
        0 <= row * columns + col < columns * rows,
        (row * columns + col) % columns == col,
        (row * columns + col) / columns == row,
{
    lemma_fundamental_div_mod_converse(row * columns + col, columns, row, col);
    assert(0 <= row * columns + col < columns * rows) by (nonlinear_arith)
        requires
            0 <= col < columns,
            0 <= row < rows,
    ;
}

/// A tiling covers the grid without gap or overlap: the cell `(x, y)` of the
/// grid lies in the tile numbered `(y / tile_height) * columns + x / tile_width`
/// and in no other.
pub proof fn lemma_tiling_partitions(
    tiles: Seq<Tile>,
    grid: &Grid,
    tile_width: int,
    tile_height: int,
    x: int,
    y: int,
)
    requires
        tile_width > 0,
        tile_height > 0,
        is_tiling(tiles, grid, tile_width, tile_height),
        grid.in_bounds(x, y),
    ensures
        ({
            let t = (y / tile_height) * tiles_across(grid.grid_x as int, tile_width) + x
                / tile_width;
            &&& 0 <= t < tiles.len()
            &&& tiles[t].contains(x, y)
            &&& forall|u: int| 0 <= u < tiles.len() && (#[trigger] tiles[u]).contains(x, y) ==> u == t
        }),
{
    let columns = tiles_across(grid.grid_x as int, tile_width);
    let rows = tiles_across(grid.grid_y as int, tile_height);
    let col = x / tile_width;
    let row = y / tile_height;
    let t = row * columns + col;
    lemma_tile_of_coordinate(grid.grid_x as int, tile_width, x);
    lemma_tile_of_coordinate(grid.grid_y as int, tile_height, y);
    lemma_tile_number(columns, rows, col, row);
    assert(is_tile_of(tiles[t], grid, tile_width, tile_height, t % columns, t / columns));
    assert forall|u: int| 0 <= u < tiles.len() && (#[trigger] tiles[u]).contains(x, y) implies u
        == t by {
        assert(is_tile_of(tiles[u], grid, tile_width, tile_height, u % columns, u / columns));
        lemma_coordinate_of_tile(grid.grid_x as int, tile_width, u % columns, x);
        lemma_coordinate_of_tile(grid.grid_y as int, tile_height, u / columns, y);
        lemma_fundamental_div_mod(u, columns);
        assert(columns * (u / columns) == (u / columns) * columns) by (nonlinear_arith);
    }
}

/// No tile of a tiling reaches outside the grid.
pub proof fn lemma_tiling_inside(
    tiles: Seq<Tile>,
    grid: &Grid,
    tile_width: int,
    tile_height: int,
    t: int,
    x: int,
    y: int,
)
    requires
        tile_width > 0,
        tile_height > 0,
        is_tiling(tiles, grid, tile_width, tile_height),
        0 <= t < tiles.len(),
        tiles[t].contains(x, y),
    ensures
        grid.in_bounds(x, y),
{
    let columns = tiles_across(grid.grid_x as int, tile_width);
    assert(is_tile_of(tiles[t], grid, tile_width, tile_height, t % columns, t / columns));
    lemma_coordinate_of_tile(grid.grid_x as int, tile_width, t % columns, x);
    lemma_coordinate_of_tile(grid.grid_y as int, tile_height, t / columns, y);
}

impl<'a> Tile<'a> {
    /// The tile's invariant: its grid is well formed and the tile lies inside it.
    pub open spec fn wf(&self) -> bool {
        &&& self.grid.wf()
        &&& self.origin_x + self.tile_x <= self.grid.grid_x
        &&& self.origin_y + self.tile_y <= self.grid.grid_y
    }

    /// Whether the cell `(x, y)` of the grid lies in this tile.
    pub open spec fn contains(&self, x: int, y: int) -> bool {
        &&& self.origin_x <= x < self.origin_x + self.tile_x
        &&& self.origin_y <= y < self.origin_y + self.tile_y
    }

    /// Whether slot `j` of the grid's buffer holds a cell of this tile.
    pub open spec fn holds_slot(&self, j: int) -> bool {
        &&& 0 <= j < self.grid.cell_count()
        &&& self.contains(j % (self.grid.grid_x as int), j / (self.grid.grid_x as int))
    }

    /// The state of the cell at `(x, y)` counted from the tile's origin, or
    /// nothing where that cell lies outside the grid.
    pub fn get_state(&self, x: usize, y: usize) -> (state: Option<HealthState>)
        requires
            self.wf(),
        ensures
            state == if self.grid.in_bounds(self.origin_x + x, self.origin_y + y) {
                Some(self.grid.at(self.origin_x + x, self.origin_y + y))
            } else {
                None
            },
    {
        let global_x: usize = match self.origin_x.checked_add(x) {
            Some(global_x) => global_x,
            None => {
                return None;
            },
        };
        let global_y: usize = match self.origin_y.checked_add(y) {
            Some(global_y) => global_y,
            None => {
                return None;
            },
        };
        if global_x >= self.grid.grid_x || global_y >= self.grid.grid_y {
            return None;
        }
        let idx = self.grid.get_index(global_x, global_y);
        Some(self.grid.read(idx))
    }

    /// The states of the up to eight neighbours of the cell at `(x, y)` counted
    /// from the tile's origin. Neighbours are looked up in the grid, so a cell
    /// on the tile's edge sees those that belong to the next tile.
    pub fn get_neighbors_healthstates(&self, x: usize, y: usize) -> (out: Vec<HealthState>)
        requires
            self.wf(),
        ensures
            out@ == self.grid.neighbor_states(self.origin_x + x, self.origin_y + y),
    {
        let mut out: Vec<HealthState> = Vec::new();
        let ghost gx = self.origin_x + x;
        let ghost gy = self.origin_y + y;
        let ghost expected = self.grid.neighbor_states(gx, gy);
        proof {
            lemma_moore_neighbors_upto(
                self.grid.grid_x as int,
                self.grid.grid_y as int,
                gx,
                gy,
                8,
            );
        }
        let global_x: usize = match self.origin_x.checked_add(x) {
            Some(global_x) => global_x,
            None => {
                assert(self.grid.neighbors(gx, gy).len() == 0) by {
                    if self.grid.neighbors(gx, gy).len() > 0 {
                        let c = self.grid.neighbors(gx, gy)[0];
                        assert(c.0 < self.grid.grid_x);
                    }
                }
                assert(out@ =~= expected);
                return out;
            },
        };
        let global_y: usize = match self.origin_y.checked_add(y) {
            Some(global_y) => global_y,
            None => {
                assert(self.grid.neighbors(gx, gy).len() == 0) by {
                    if self.grid.neighbors(gx, gy).len() > 0 {
                        let c = self.grid.neighbors(gx, gy)[0];
                        assert(c.1 < self.grid.grid_y);
                    }
                }
                assert(out@ =~= expected);
                return out;
            },
        };
        let coords = self.grid.get_neighbors(global_x, global_y);
        for i in 0..coords.len()
            invariant
                self.wf(),
                gx == global_x,
                gy == global_y,
                expected == self.grid.neighbor_states(gx, gy),
                coords@.len() == self.grid.neighbors(gx, gy).len(),
                forall|j: int|
                    0 <= j < coords@.len() ==> {
                        &&& (#[trigger] coords@[j]).0 == self.grid.neighbors(gx, gy)[j].0
                        &&& coords@[j].1 == self.grid.neighbors(gx, gy)[j].1
                        &&& self.grid.in_bounds(coords@[j].0 as int, coords@[j].1 as int)
                    },
                out@ == expected.take(i as int),
        {
            let (nx, ny) = coords[i];
            let idx = self.grid.get_index(nx, ny);
            out.push(self.grid.read(idx));
            assert(out@ =~= expected.take(i + 1));
        }
        assert(expected.take(coords@.len() as int) =~= expected);
        out
    }
}

/// The origin of an existing tile lies inside the axis.
proof fn lemma_tile_origin(extent: int, tile_extent: int, k: int)
    by (nonlinear_arith)
    requires
        tile_extent > 0,
        0 <= k < tiles_across(extent, tile_extent),
    ensures
        0 <= k * tile_extent < extent,
{
}

/// The number of tiles of extent `tile_extent` that span `extent` cells.
fn tile_count(extent: usize, tile_extent: usize) -> (count: usize)
    requires
        tile_extent > 0,
    ensures
        count == tiles_across(extent as int, tile_extent as int),
{
    if extent == 0 {
        assert((tile_extent - 1) / (tile_extent as int) == 0) by (nonlinear_arith)
            requires
                tile_extent > 0,
        ;
        0
    } else {
        assert((extent + tile_extent - 1) / (tile_extent as int) == (extent - 1) / (
        tile_extent as int) + 1) by (nonlinear_arith)
            requires
                tile_extent > 0,
                extent > 0,
        ;
        assert((extent - 1) / (tile_extent as int) <= extent - 1) by (nonlinear_arith)
            requires
                tile_extent > 0,
                extent > 0,
        ;
        (extent - 1) / tile_extent + 1
    }
}

/// Cuts `grid` into tiles `tile_width` wide and `tile_height` high, row by
/// row and left to right; the last tile of a row or column is cut short
/// where the grid ends.
pub fn tile_grid(grid: &Grid, tile_width: usize, tile_height: usize) -> (tiles: Vec<Tile<'_>>)
    requires
        grid.wf(),
        tile_width > 0,
        tile_height > 0,
    ensures
        is_tiling(tiles@, grid, tile_width as int, tile_height as int),
        tiles@.len() == tiles_across(grid.grid_x as int, tile_width as int) * tiles_across(
            grid.grid_y as int,
            tile_height as int,
        ),
        forall|t: int| 0 <= t < tiles@.len() ==> (#[trigger] tiles@[t]).wf(),
{
    let mut tiles: Vec<Tile<'_>> = Vec::new();
    let num_tiles_x: usize = tile_count(grid.grid_x, tile_width);
    let num_tiles_y: usize = tile_count(grid.grid_y, tile_height);
    let ghost tw = tile_width as int;
    let ghost th = tile_height as int;
    let ghost columns = num_tiles_x as int;
    let ghost rows = num_tiles_y as int;
    assert(0 * columns == 0) by (nonlinear_arith);
    for tile_y in 0..num_tiles_y
        invariant
            grid.wf(),
            tw == tile_width > 0,
            th == tile_height > 0,
            columns == num_tiles_x == tiles_across(grid.grid_x as int, tw),
            rows == num_tiles_y == tiles_across(grid.grid_y as int, th),
            tiles@.len() == tile_y * columns,
            forall|t: int|
                0 <= t < tiles@.len() ==> {
                    &&& is_tile_of(#[trigger] tiles@[t], grid, tw, th, t % columns, t / columns)
                    &&& tiles@[t].wf()
                },
    {
        for tile_x in 0..num_tiles_x
            invariant
                grid.wf(),
                tw == tile_width > 0,
                th == tile_height > 0,
                columns == num_tiles_x == tiles_across(grid.grid_x as int, tw),
                rows == num_tiles_y == tiles_across(grid.grid_y as int, th),
                0 <= tile_y < rows,
                tiles@.len() == tile_y * columns + tile_x,
                forall|t: int|
                    0 <= t < tiles@.len() ==> {
                        &&& is_tile_of(#[trigger] tiles@[t], grid, tw, th, t % columns, t / columns)
                        &&& tiles@[t].wf()
                    },
        {
            proof {
                lemma_tile_number(columns, rows, tile_x as int, tile_y as int);
                lemma_tile_origin(grid.grid_x as int, tw, tile_x as int);
                lemma_tile_origin(grid.grid_y as int, th, tile_y as int);
            }
            let origin_x: usize = tile_x * tile_width;
            let origin_y: usize = tile_y * tile_height;
            // Clamp width/height to avoid going out of bounds
            let actual_width: usize = if tile_width <= grid.grid_x - origin_x {
                tile_width
            } else {
                grid.grid_x - origin_x
            };
            let actual_height: usize = if tile_height <= grid.grid_y - origin_y {
                tile_height
            } else {
                grid.grid_y - origin_y
            };
            tiles.push(
                Tile { origin_x, origin_y, tile_x: actual_width, tile_y: actual_height, grid },
            );
        }
        assert(tile_y * columns + columns == (tile_y + 1) * columns) by (nonlinear_arith);
    }
    assert(rows * columns == columns * rows) by (nonlinear_arith);
    tiles
}

} // verus!

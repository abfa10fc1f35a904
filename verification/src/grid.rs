//! The grid: a flat buffer of cells, two bits apiece and four to the byte.

use vstd::prelude::*;
use crate::chance::{may_start_as, seed_state, uniform_draw};
use crate::maths::SirParams;
use crate::state::{HealthState, count_state, decode_spec, encode_spec};

verus! {

/// The largest number of cells a grid may hold.
pub const MAX_CELLS: usize = 1_000_000_000;

/// Why a grid could not be built.
#[derive(Debug, Clone, Copy, PartialEq, Eq, Structural)]
pub enum GridError {
    /// The product of the two dimensions does not fit the machine's word.
    DimensionOverflow,
    /// The product of the two dimensions exceeds [`MAX_CELLS`].
    GridTooLarge,
}

/// The two bits that `byte` holds at bit offset `shift`.
pub open spec fn slot_code(byte: u8, shift: u8) -> u8 {
    (byte >> shift) & 3u8
}

/// `byte` with the two bits at bit offset `shift` replaced by `code`.
pub open spec fn slot_store(byte: u8, shift: u8, code: u8) -> u8 {
    (byte & !(3u8 << shift)) | (code << shift)
}

/// The code of the cell with linear index `index` in a packed buffer.
pub open spec fn packed_code(bytes: Seq<u8>, index: int) -> u8 {
    slot_code(bytes[index / 4], ((index % 4) * 2) as u8)
}

/// A packed buffer with `code` stored as the cell with linear index `index`.
pub open spec fn packed_store(bytes: Seq<u8>, index: int, code: u8) -> Seq<u8> {
    bytes.update(index / 4, slot_store(bytes[index / 4], ((index % 4) * 2) as u8, code))
}

/// Storing a code in one slot of a byte sets that slot and leaves the other
/// three as they were.
pub proof fn lemma_slot_store(byte: u8, shift: u8, code: u8, other: u8)
    by (bit_vector)
    requires
        shift == 0 || shift == 2 || shift == 4 || shift == 6,
        other == 0 || other == 2 || other == 4 || other == 6,
        code <= 3,
    ensures
        slot_code(slot_store(byte, shift, code), other) == (if other == shift {
            code
        } else {
            slot_code(byte, other)
        }),
{
}

/// Storing a code as one cell of a packed buffer sets that cell's slot and
/// leaves every other slot of the buffer as it was.
pub proof fn lemma_packed_store(bytes: Seq<u8>, index: int, code: u8, other: int)
    requires
        0 <= index < 4 * bytes.len(),
        0 <= other < 4 * bytes.len(),
        code <= 3,
    ensures
        packed_store(bytes, index, code).len() == bytes.len(),
        packed_code(packed_store(bytes, index, code), other) == (if other == index {
            code
        } else {
            packed_code(bytes, other)
        }),
{
    if other / 4 == index / 4 {
        lemma_slot_store(
            bytes[index / 4],
            ((index % 4) * 2) as u8,
            code,
            ((other % 4) * 2) as u8,
        );
    }
}

/// Two bytes that hold the same code in each of their four slots are equal.
pub proof fn lemma_slots_fix_byte(a: u8, b: u8)
    by (bit_vector)
    requires
        slot_code(a, 0) == slot_code(b, 0),
        slot_code(a, 2) == slot_code(b, 2),
        slot_code(a, 4) == slot_code(b, 4),
        slot_code(a, 6) == slot_code(b, 6),
    ensures
        a == b,
{
}

/// Two packed buffers of one length that hold the same code in every slot
/// are equal byte for byte.
pub proof fn lemma_codes_fix_bytes(a: Seq<u8>, b: Seq<u8>)
    requires
        a.len() == b.len(),
        forall|j: int| 0 <= j < 4 * a.len() ==> #[trigger] packed_code(a, j) == packed_code(b, j),
    ensures
        a == b,
{
    assert forall|i: int| 0 <= i < a.len() implies a[i] == b[i] by {
        assert(packed_code(a, 4 * i) == packed_code(b, 4 * i));
        assert(packed_code(a, 4 * i + 1) == packed_code(b, 4 * i + 1));
        assert(packed_code(a, 4 * i + 2) == packed_code(b, 4 * i + 2));
        assert(packed_code(a, 4 * i + 3) == packed_code(b, 4 * i + 3));
        lemma_slots_fix_byte(a[i], b[i]);
    }
    assert(a =~= b);
}

/// A byte of zero holds the code 0 in each of its slots.
pub proof fn lemma_blank_slot(shift: u8)
    by (bit_vector)
    ensures
        slot_code(0u8, shift) == 0,
{
}

/// A cell inside a `width` by `height` rectangle has a linear index below the
/// rectangle's area.
pub proof fn lemma_index_in_range(width: int, height: int, x: int, y: int)
    by (nonlinear_arith)
    requires
        0 <= x < width,
        0 <= y < height,
    ensures
        0 <= y * width + x < width * height,
{
}

/// In a rectangle `width` cells wide, the linear index of a cell gives its
/// column and row back.
pub proof fn lemma_index_coords(width: int, x: int, y: int)
    requires
        0 <= x < width,
    ensures
        (y * width + x) % width == x,
        (y * width + x) / width == y,
{
    vstd::arithmetic::div_mod::lemma_fundamental_div_mod_converse(y * width + x, width, y, x);
}

/// Two cells of a rectangle with the same linear index are the same cell.
pub proof fn lemma_index_is_injective(width: int, x1: int, y1: int, x2: int, y2: int)
    requires
        0 <= x1 < width,
        0 <= x2 < width,
        y1 * width + x1 == y2 * width + x2,
    ensures
        x1 == x2,
        y1 == y2,
{
    lemma_index_coords(width, x1, y1);
    lemma_index_coords(width, x2, y2);
}

/// The `k`-th of the eight offsets `(dx, dy)` of the Moore neighbourhood: a
/// row-major scan of `dy` and then `dx` over -1, 0, 1 that skips the centre.
pub open spec fn moore_offset(k: int) -> (int, int) {
    let slot = if k < 4 {
        k
    } else {
        k + 1
    };
    (slot % 3 - 1, slot / 3 - 1)
}

/// The neighbours of `(x, y)` that the first `n` offsets reach inside a
/// `width` by `height` rectangle, in the order of the offsets.
pub open spec fn moore_neighbors_upto(width: int, height: int, x: int, y: int, n: nat) -> Seq<
    (int, int),
>
    decreases n,
{
    if n == 0 {
        Seq::empty()
    } else {
        let rest = moore_neighbors_upto(width, height, x, y, (n - 1) as nat);
        let (dx, dy) = moore_offset(n - 1);
        if 0 <= x + dx < width && 0 <= y + dy < height {
            rest.push((x + dx, y + dy))
        } else {
            rest
        }
    }
}

/// The Moore neighbourhood of `(x, y)`, cut to a `width` by `height` rectangle.
pub open spec fn moore_neighbors(width: int, height: int, x: int, y: int) -> Seq<(int, int)> {
    moore_neighbors_upto(width, height, x, y, 8)
}

/// Every neighbour that the first `n` offsets reach lies inside the rectangle,
/// next to `(x, y)` and apart from it, and there are at most `n` of them.
pub proof fn lemma_moore_neighbors_upto(width: int, height: int, x: int, y: int, n: nat)
    requires
        n <= 8,
    ensures
        moore_neighbors_upto(width, height, x, y, n).len() <= n,
        forall|i: int|
            0 <= i < moore_neighbors_upto(width, height, x, y, n).len() ==> {
                let c = #[trigger] moore_neighbors_upto(width, height, x, y, n)[i];
                &&& 0 <= c.0 < width
                &&& 0 <= c.1 < height
                &&& x - 1 <= c.0 <= x + 1
                &&& y - 1 <= c.1 <= y + 1
                &&& c != (x, y)
            },
    decreases n,
{
    if n > 0 {
        lemma_moore_neighbors_upto(width, height, x, y, (n - 1) as nat);
    }
}

/// A cell of a grid at least three cells wide and high has three neighbours
/// in a corner, five elsewhere on the border and eight inside.
pub proof fn lemma_moore_neighbor_count(width: int, height: int, x: int, y: int)
    requires
        width >= 3,
        height >= 3,
        0 <= x < width,
        0 <= y < height,
    ensures
        moore_neighbors(width, height, x, y).len() == {
            let on_side = x == 0 || x == width - 1;
            let on_end = y == 0 || y == height - 1;
            if on_side && on_end {
                3nat
            } else if on_side || on_end {
                5nat
            } else {
                8nat
            }
        },
{
    reveal_with_fuel(moore_neighbors_upto, 9);
}

/// Flat, bit-packed grid of `grid_x` columns and `grid_y` rows.
pub struct Grid {
    pub grid_x: usize,
    pub grid_y: usize,
    /// Four cells to the byte, the cell with the lowest index in the lowest bits.
    pub cells: Vec<u8>,
}

impl Grid {
    /// The number of cells.
    pub open spec fn cell_count(&self) -> nat {
        (self.grid_x * self.grid_y) as nat
    }

    /// The grid's invariant: the cell count is within the limit, the buffer has
    /// one byte for every four cells, and every cell holds a valid code.
    pub open spec fn wf(&self) -> bool {
        &&& self.grid_x * self.grid_y <= MAX_CELLS
        &&& self.cells@.len() == (self.grid_x * self.grid_y + 3) / 4
        &&& forall|i: int|
            0 <= i < self.grid_x * self.grid_y ==> #[trigger] packed_code(self.cells@, i) <= 2
    }

    /// Whether the slots of the buffer that hold no cell (those behind the
    /// last cell, in the last byte) hold the same code in `self` and `other`.
    pub open spec fn same_spare_slots(&self, other: Grid) -> bool {
        &&& self.cells@.len() == other.cells@.len()
        &&& forall|j: int|
            self.cell_count() <= j < 4 * self.cells@.len() ==> #[trigger] packed_code(
                self.cells@,
                j,
            ) == packed_code(other.cells@, j)
    }

    /// Whether the slots of the buffer that hold no cell all hold the code 0.
    pub open spec fn blank_spare_slots(&self) -> bool {
        forall|j: int|
            self.cell_count() <= j < 4 * self.cells@.len() ==> #[trigger] packed_code(
                self.cells@,
                j,
            ) == 0
    }

    /// The cells in row-major order.
    pub open spec fn view(&self) -> Seq<HealthState> {
        Seq::new(self.cell_count(), |i: int| decode_spec(packed_code(self.cells@, i)).unwrap())
    }

    /// Whether `(x, y)` names a cell of this grid.
    pub open spec fn in_bounds(&self, x: int, y: int) -> bool {
        0 <= x < self.grid_x && 0 <= y < self.grid_y
    }

    /// The linear index of the cell at column `x` and row `y`.
    pub open spec fn index_of(&self, x: int, y: int) -> int {
        y * self.grid_x + x
    }

    /// The state of the cell at column `x` and row `y`.
    pub open spec fn at(&self, x: int, y: int) -> HealthState {
        self@[self.index_of(x, y)]
    }

    /// Initialize a new grid, randomly infecting according to `params.i_ratio`:
    /// each cell gets a draw of its own and starts infected where the draw
    /// falls below the ratio, susceptible otherwise.
    pub fn init(grid_x: usize, grid_y: usize, params: &SirParams) -> (result: Result<
        Grid,
        GridError,
    >)
        ensures
            match result {
                Ok(grid) => {
                    &&& grid_x * grid_y <= MAX_CELLS
                    &&& grid.wf()
                    &&& grid.grid_x == grid_x
                    &&& grid.grid_y == grid_y
                    &&& grid@.len() == grid_x * grid_y
                    &&& grid.cells@.len() == (grid_x * grid_y + 3) / 4
                    &&& forall|i: int|
                        0 <= i < grid@.len() ==> may_start_as(*params, #[trigger] grid@[i])
                    &&& grid.blank_spare_slots()
                },
                Err(GridError::DimensionOverflow) => grid_x * grid_y > usize::MAX,
                Err(GridError::GridTooLarge) => MAX_CELLS < grid_x * grid_y <= usize::MAX,
            },
    {
        let size: usize = match grid_x.checked_mul(grid_y) {
            Some(size) => size,
            None => {
                return Err(GridError::DimensionOverflow);
            },
        };
        if size > MAX_CELLS {
            return Err(GridError::GridTooLarge);
        }
        // 4 cells per byte
        let byte_len: usize = (size + 3) / 4;
        let mut cells: Vec<u8> = vec![0u8; byte_len];
        assert forall|j: int| 0 <= j < 4 * byte_len implies #[trigger] packed_code(cells@, j)
            == 0 by {
            lemma_blank_slot(((j % 4) * 2) as u8);
        }
        for idx in 0..size
            invariant
                size == grid_x * grid_y,
                byte_len == (size + 3) / 4,
                cells@.len() == byte_len,
                forall|j: int| idx <= j < 4 * byte_len ==> #[trigger] packed_code(cells@, j) == 0,
                forall|j: int|
                    0 <= j < idx ==> {
                        &&& #[trigger] packed_code(cells@, j) <= 2
                        &&& may_start_as(*params, decode_spec(packed_code(cells@, j)).unwrap())
                    },
        {
            let roll: u64 = uniform_draw();
            let state = seed_state(params, roll);
            let ghost before = cells@;
            Self::write_state(&mut cells, idx, state);
            assert forall|j: int| 0 <= j < idx + 1 implies {
                &&& #[trigger] packed_code(cells@, j) <= 2
                &&& may_start_as(*params, decode_spec(packed_code(cells@, j)).unwrap())
            } by {
                if j != idx {
                    assert(packed_code(before, j) <= 2);
                }
            }
        }
        let grid = Grid { grid_x, grid_y, cells };
        assert forall|i: int| 0 <= i < grid@.len() implies may_start_as(
            *params,
            #[trigger] grid@[i],
        ) by {
            assert(packed_code(grid.cells@, i) <= 2);
        }
        Ok(grid)
    }

    /// Tests the grid's invariant. The fields are public, so a grid may have
    /// been put together by hand; one that passes can be handed to every
    /// function of this crate.
    pub fn is_well_formed(&self) -> (ok: bool)
        ensures
            ok == self.wf(),
    {
        let size: usize = match self.grid_x.checked_mul(self.grid_y) {
            Some(size) => size,
            None => {
                return false;
            },
        };
        if size > MAX_CELLS || self.cells.len() != (size + 3) / 4 {
            return false;
        }
        for idx in 0..size
            invariant
                size == self.grid_x * self.grid_y,
                self.cells@.len() == (size + 3) / 4,
                forall|j: int| 0 <= j < idx ==> #[trigger] packed_code(self.cells@, j) <= 2,
        {
            let shift: u8 = ((idx % 4) * 2) as u8;
            let code: u8 = (self.cells[idx / 4] >> shift) & 3u8;
            if code > 2 {
                assert(packed_code(self.cells@, idx as int) > 2);
                return false;
            }
        }
        true
    }

    /// Stores `state` as cell `idx` of a packed buffer.
    fn write_state(cells: &mut [u8], idx: usize, state: HealthState)
        requires
            idx / 4 < old(cells)@.len(),
        ensures
            final(cells)@ == packed_store(old(cells)@, idx as int, encode_spec(state)),
            packed_code(final(cells)@, idx as int) == encode_spec(state),
            forall|j: int|
                0 <= j < 4 * old(cells)@.len() && j != idx ==> #[trigger] packed_code(
                    final(cells)@,
                    j,
                ) == packed_code(old(cells)@, j),
    {
        let byte: usize = idx / 4;
        let shift: u8 = ((idx % 4) * 2) as u8;
        let code: u8 = state.encode();
        let before: u8 = cells[byte];
        let mask: u8 = !(3u8 << shift);
        let after: u8 = (before & mask) | (code << shift);
        cells[byte] = after;
        proof {
            assert(after == slot_store(before, shift, code));
            lemma_slot_store(before, shift, code, shift);
            assert forall|j: int|
                0 <= j < 4 * old(cells)@.len() && j != idx implies #[trigger] packed_code(
                cells@,
                j,
            ) == packed_code(old(cells)@, j) by {
                if j / 4 == byte {
                    lemma_slot_store(before, shift, code, ((j % 4) * 2) as u8);
                }
            }
        }
    }

    /// The coordinates of the neighbours of `(x, y)` inside this grid.
    pub open spec fn neighbors(&self, x: int, y: int) -> Seq<(int, int)> {
        moore_neighbors(self.grid_x as int, self.grid_y as int, x, y)
    }

    /// The states of the neighbours of `(x, y)` inside this grid, in the order
    /// of [`Grid::neighbors`].
    pub open spec fn neighbor_states(&self, x: int, y: int) -> Seq<HealthState> {
        self.neighbors(x, y).map_values(|c: (int, int)| self.at(c.0, c.1))
    }

    /// How many neighbours of `(x, y)` are infected.
    pub open spec fn infected_neighbors(&self, x: int, y: int) -> nat {
        count_state(self.neighbor_states(x, y), HealthState::Infected)
    }

    /// Return the coordinates of the up to eight neighbours of `(x, y)` that
    /// lie inside the grid, in row-major order.
    pub fn get_neighbors(&self, x: usize, y: usize) -> (out: Vec<(usize, usize)>)
        ensures
            out@.len() == self.neighbors(x as int, y as int).len(),
            forall|i: int|
                0 <= i < out@.len() ==> (#[trigger] out@[i]).0 == self.neighbors(
                    x as int,
                    y as int,
                )[i].0 && out@[i].1 == self.neighbors(x as int, y as int)[i].1,
    {
        let mut out: Vec<(usize, usize)> = Vec::new();
        let ghost w = self.grid_x as int;
        let ghost h = self.grid_y as int;
        for k in 0..8usize
            invariant
                w == self.grid_x,
                h == self.grid_y,
                out@.len() == moore_neighbors_upto(w, h, x as int, y as int, k as nat).len(),
                forall|i: int|
                    0 <= i < out@.len() ==> (#[trigger] out@[i]).0 == moore_neighbors_upto(
                        w,
                        h,
                        x as int,
                        y as int,
                        k as nat,
                    )[i].0 && out@[i].1 == moore_neighbors_upto(
                        w,
                        h,
                        x as int,
                        y as int,
                        k as nat,
                    )[i].1,
        {
            let slot: usize = if k < 4 {
                k
            } else {
                k + 1
            };
            // column and row of the offset, each moved up by one
            let col: usize = slot % 3;
            let row: usize = slot / 3;
            assert(moore_offset(k as int) == (col - 1, row - 1));
            let x_inside = (x >= 1 || col >= 1) && x <= self.grid_x && col <= self.grid_x - x;
            let y_inside = (y >= 1 || row >= 1) && y <= self.grid_y && row <= self.grid_y - y;
            if x_inside && y_inside {
                out.push((x + col - 1, y + row - 1));
            }
        }
        out
    }

    /// Approximate memory usage: bits per cell, bytes on the heap and bytes of
    /// the struct itself.
    pub fn get_grid_size(&self) -> (size: (usize, usize, usize))
        ensures
            size.0 == 2,
            size.1 == self.cells@.len(),
            size.2 == vstd::layout::size_of::<Grid>(),
    {
        let bits_per_cell: usize = 2;
        let heap_bytes: usize = self.cells.len();
        let struct_bytes: usize = std::mem::size_of::<Grid>();
        (bits_per_cell, heap_bytes, struct_bytes)
    }

    /// Get cell index (linear) of the cell at column `x` and row `y`.
    pub fn get_index(&self, x: usize, y: usize) -> (idx: usize)
        requires
            self.wf(),
            x < self.grid_x,
            y < self.grid_y,
        ensures
            idx == self.index_of(x as int, y as int),
            idx < self.cell_count(),
    {
        proof {
            lemma_index_in_range(self.grid_x as int, self.grid_y as int, x as int, y as int);
            assert(y * self.grid_x <= y * self.grid_x + x);
        }
        y * self.grid_x + x
    }

    /// Read the state at linear index.
    pub fn read(&self, idx: usize) -> (state: HealthState)
        requires
            self.wf(),
            idx < self.cell_count(),
        ensures
            state == self@[idx as int],
    {
        let byte: usize = idx / 4;
        let shift: u8 = ((idx % 4) * 2) as u8;
        let code: u8 = (self.cells[byte] >> shift) & 3u8;
        assert(code == packed_code(self.cells@, idx as int));
        match HealthState::decode(code) {
            Ok(state) => state,
            Err(_) => unreached(),
        }
    }

    /// Write a state at linear index.
    pub fn write(&mut self, idx: usize, state: HealthState)
        requires
            old(self).wf(),
            idx < old(self).cell_count(),
        ensures
            final(self).wf(),
            final(self).grid_x == old(self).grid_x,
            final(self).grid_y == old(self).grid_y,
            final(self)@ == old(self)@.update(idx as int, state),
            final(self).cells@ == packed_store(old(self).cells@, idx as int, encode_spec(state)),
    {
        Self::write_state(&mut self.cells, idx, state);
        proof {
            assert forall|i: int| 0 <= i < self.grid_x * self.grid_y implies #[trigger] packed_code(
                self.cells@,
                i,
            ) <= 2 by {
                if i != idx {
                    assert(packed_code(old(self).cells@, i) <= 2);
                }
            }
            assert(self@ =~= old(self)@.update(idx as int, state));
        }
    }
}

} // verus!

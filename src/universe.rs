//! The universe: grid dimensions, the packed cell buffer, and the generation step.
use vstd::prelude::*;

use vstd::arithmetic::div_mod::{lemma_mod_self_0, lemma_small_mod};

use crate::bits::{
    bit_at, bit_set, cell_index, get_index_and_shift, lemma_cell_in_grid,
    lemma_cell_index_injective, lemma_update_bit, lemma_zero_byte, set_alive_at,
};

verus! {

/// The state of a universe as a mathematical value.
pub struct Grid {
    pub width: nat,
    pub height: nat,
    pub bytes: Seq<u8>,
}

/// Number of bytes that hold `cells` bits.
pub open spec fn packed_len(cells: int) -> int {
    (cells + 7) / 8
}

/// The initial pattern: logical bit `i` is alive when `i` is even or a multiple of 7.
pub open spec fn seeded(i: int) -> bool {
    i % 2 == 0 || i % 7 == 0
}

/// The three offsets along a dimension of size `dim`: one back (written `dim - 1`, so
/// that it wraps), none, and one forward.
pub open spec fn offsets(dim: int) -> Seq<int> {
    seq![dim - 1, 0, 1]
}

/// The rule table, first match wins: underpopulation, survival, overpopulation,
/// reproduction, and otherwise the cell keeps its state.
pub open spec fn next_state(alive: bool, neighbors: int) -> bool {
    if alive && neighbors < 2 {
        false
    } else if alive && (neighbors == 2 || neighbors == 3) {
        true
    } else if alive && neighbors > 3 {
        false
    } else if !alive && neighbors == 3 {
        true
    } else {
        alive
    }
}

/// The grid made of the given dimensions and buffer.
pub open spec fn grid_of(width: u32, height: u32, bytes: Seq<u8>) -> Grid {
    Grid { width: width as nat, height: height as nat, bytes }
}

impl Grid {
    /// Dimensions are positive, every cell has a logical position that fits in `u32`,
    /// and the buffer holds exactly enough bytes for all cells.
    pub open spec fn wf(self) -> bool {
        &&& self.width >= 1
        &&& self.height >= 1
        &&& self.width * self.height <= u32::MAX
        &&& self.bytes.len() == packed_len((self.width * self.height) as int)
    }

    /// Whether the cell at `(row, column)` is alive: its bit in the buffer is set.
    pub open spec fn alive(self, row: int, column: int) -> bool {
        bit_at(self.bytes, cell_index(row, column, self.width as int))
    }

    /// 1 when the cell reached from `(row, column)` by the offsets `(dr, dc)`, wrapped
    /// around the torus, is alive; the offset pair `(0, 0)` never counts.
    pub open spec fn neighbor_term(self, row: int, column: int, dr: int, dc: int) -> int {
        if dr == 0 && dc == 0 {
            0
        } else if self.alive((row + dr) % (self.height as int), (column + dc) % (self.width as int)) {
            1
        } else {
            0
        }
    }

    /// Sum of the terms for row offset `dr` and the first `n` column offsets.
    pub open spec fn row_count(self, row: int, column: int, dr: int, n: nat) -> int
        decreases n,
    {
        if n == 0 {
            0
        } else {
            self.row_count(row, column, dr, (n - 1) as nat) + self.neighbor_term(
                row,
                column,
                dr,
                offsets(self.width as int)[n - 1],
            )
        }
    }

    /// Sum of the terms for the first `k` row offsets and all column offsets.
    pub open spec fn rows_count(self, row: int, column: int, k: nat) -> int
        decreases k,
    {
        if k == 0 {
            0
        } else {
            self.rows_count(row, column, (k - 1) as nat) + self.row_count(
                row,
                column,
                offsets(self.height as int)[k - 1],
                3,
            )
        }
    }

    /// Number of live cells among the eight toroidal neighbors of `(row, column)`.
    pub open spec fn live_neighbors(self, row: int, column: int) -> int {
        self.rows_count(row, column, 3)
    }

    /// State of `(row, column)` in the next generation.
    pub open spec fn next_cell(self, row: int, column: int) -> bool {
        next_state(self.alive(row, column), self.live_neighbors(row, column))
    }
}

/// A universe of `width` by `height` cells on a torus.
pub struct Universe {
    width: u32,
    height: u32,
    bytes: Vec<u8>,
}

/// The byte at position `byte_index` of the initial pattern.
fn seeded_byte(byte_index: usize) -> (b: u8)
    requires
        byte_index < 0x2000_0000,
    ensures
        forall|t: int| 0 <= t < 8 ==> #[trigger] bit_set(b, (7 - t) as u8) == seeded(byte_index * 8 + t),
{
    let mut byte: u8 = 0;
    let mut bit_index: usize = 0;
    assert forall|t: int| 0 <= t < 8 implies !#[trigger] bit_set(0u8, (7 - t) as u8) by {
        lemma_zero_byte((7 - t) as u8);
    }
    while bit_index < 8
        invariant
            byte_index < 0x2000_0000,
            bit_index <= 8,
            forall|t: int|
                0 <= t < 8 ==> #[trigger] bit_set(byte, (7 - t) as u8) == (t < bit_index && seeded(
                    byte_index * 8 + t,
                )),
        decreases 8 - bit_index,
    {
        let index = byte_index * 8 + bit_index;
        let ghost before = byte;
        if index % 2 == 0 || index % 7 == 0 {
            byte = byte | (1u8 << ((7 - bit_index) as u8));
        }
        assert forall|t: int| 0 <= t < 8 implies #[trigger] bit_set(byte, (7 - t) as u8) == (t
            < bit_index + 1 && seeded(byte_index * 8 + t)) by {
            lemma_update_bit(before, (7 - bit_index) as u8, (7 - t) as u8);
        }
        bit_index = bit_index + 1;
    }
    byte
}

impl View for Universe {
    type V = Grid;

    closed spec fn view(&self) -> Grid {
        Grid { width: self.width as nat, height: self.height as nat, bytes: self.bytes@ }
    }
}

impl Universe {
    pub fn width(&self) -> (r: u32)
        ensures
            r == self@.width,
    {
        self.width
    }

    pub fn height(&self) -> (r: u32)
        ensures
            r == self@.height,
    {
        self.height
    }

    /// The packed buffer as it is now; a new one replaces it at each `tick`.
    pub fn cells(&self) -> (r: &[u8])
        ensures
            r@ == self@.bytes,
    {
        self.bytes.as_slice()
    }

    /// Reads the bit of cell `(row, column)`.
    pub fn is_alive_at(&self, row: u32, column: u32) -> (r: bool)
        requires
            self@.wf(),
            row < self@.height,
            column < self@.width,
        ensures
            r == self@.alive(row as int, column as int),
    {
        proof {
            lemma_cell_in_grid(row as int, column as int, self.width as int, self.height as int);
        }
        let (index, shift) = get_index_and_shift(row, column, self.width);
        self.bytes[index] & (1u8 << (shift as u8)) != 0
    }

    fn live_neighbor_count(&self, row: u32, column: u32) -> (r: u8)
        requires
            self@.wf(),
            row < self@.height,
            column < self@.width,
        ensures
            r == self@.live_neighbors(row as int, column as int),
    {
        let row_offsets: [u32; 3] = [self.height - 1, 0, 1];
        let col_offsets: [u32; 3] = [self.width - 1, 0, 1];
        let mut count: u8 = 0;
        let mut k: usize = 0;
        while k < 3
            invariant
                self@.wf(),
                row < self@.height,
                column < self@.width,
                k <= 3,
                forall|j: int| 0 <= j < 3 ==> row_offsets@[j] as int == #[trigger] offsets(self@.height as int)[j],
                forall|j: int| 0 <= j < 3 ==> col_offsets@[j] as int == #[trigger] offsets(self@.width as int)[j],
                count == self@.rows_count(row as int, column as int, k as nat),
                count <= 3 * k,
            decreases 3 - k,
        {
            let delta_row = row_offsets[k];
            let ghost before = count;
            let mut l: usize = 0;
            while l < 3
                invariant
                    self@.wf(),
                    row < self@.height,
                    column < self@.width,
                    k < 3,
                    l <= 3,
                    delta_row == offsets(self@.height as int)[k as int],
                    forall|j: int| 0 <= j < 3 ==> col_offsets@[j] as int == #[trigger] offsets(self@.width as int)[j],
                    before == self@.rows_count(row as int, column as int, k as nat),
                    before <= 3 * k,
                    count == before + self@.row_count(row as int, column as int, delta_row as int, l as nat),
                    count <= before + l,
                decreases 3 - l,
            {
                let delta_col = col_offsets[l];
                if !(delta_row == 0 && delta_col == 0) {
                    let neighbor_row = ((row as u64 + delta_row as u64) % self.height as u64) as u32;
                    let neighbor_col = ((column as u64 + delta_col as u64) % self.width as u64) as u32;
                    if self.is_alive_at(neighbor_row, neighbor_col) {
                        count = count + 1;
                    }
                }
                l = l + 1;
            }
            k = k + 1;
        }
        count
    }

    /// Advances the universe by one generation: every cell's next state is computed from
    /// the current buffer alone, written into a fresh buffer, which then replaces it.
    /// Bits past the last cell keep their value.
    pub fn tick(&mut self)
        requires
            old(self)@.wf(),
        ensures
            final(self)@.wf(),
            final(self)@.width == old(self)@.width,
            final(self)@.height == old(self)@.height,
            forall|r: int, c: int|
                0 <= r < old(self)@.height && 0 <= c < old(self)@.width ==> #[trigger] final(self)@.alive(r, c)
                    == old(self)@.next_cell(r, c),
            forall|i: int|
                old(self)@.width * old(self)@.height <= i < 8 * old(self)@.bytes.len()
                    ==> #[trigger] bit_at(final(self)@.bytes, i) == bit_at(old(self)@.bytes, i),
    {
        let ghost g = self@;
        let ghost w = g.width as int;
        let ghost h = g.height as int;
        let ghost len = g.bytes.len() as int;
        assert forall|r: int, c: int| 0 <= r < h && 0 <= c < w implies #[trigger] cell_index(
            r,
            c,
            w,
        ) < w * h by {
            lemma_cell_in_grid(r, c, w, h);
        }
        let mut next = self.bytes.clone();
        let mut row: u32 = 0;
        while row < self.height
            invariant
                self@ == g,
                g.wf(),
                w == g.width,
                h == g.height,
                len == g.bytes.len(),
                row <= h,
                next@.len() == len,
                forall|r: int, c: int| 0 <= r < h && 0 <= c < w ==> #[trigger] cell_index(r, c, w) < w * h,
                forall|r: int, c: int|
                    0 <= r < h && 0 <= c < w ==> #[trigger] bit_at(next@, cell_index(r, c, w))
                        == if r < row {
                        g.next_cell(r, c)
                    } else {
                        g.alive(r, c)
                    },
                forall|i: int| w * h <= i < 8 * len ==> #[trigger] bit_at(next@, i) == bit_at(g.bytes, i),
            decreases h - row,
        {
            let mut col: u32 = 0;
            while col < self.width
                invariant
                    self@ == g,
                    g.wf(),
                    w == g.width,
                    h == g.height,
                    len == g.bytes.len(),
                    row < h,
                    col <= w,
                    next@.len() == len,
                    forall|r: int, c: int| 0 <= r < h && 0 <= c < w ==> #[trigger] cell_index(r, c, w) < w * h,
                    forall|r: int, c: int|
                        0 <= r < h && 0 <= c < w ==> #[trigger] bit_at(next@, cell_index(r, c, w))
                            == if r < row || (r == row && c < col) {
                            g.next_cell(r, c)
                        } else {
                            g.alive(r, c)
                        },
                    forall|i: int| w * h <= i < 8 * len ==> #[trigger] bit_at(next@, i) == bit_at(g.bytes, i),
                decreases w - col,
            {
                let is_alive = self.is_alive_at(row, col);
                let live_neighbors = self.live_neighbor_count(row, col);
                let next_cell = match (is_alive, live_neighbors) {
                    (true, x) if x < 2 => false,
                    (true, 2) | (true, 3) => true,
                    (true, x) if x > 3 => false,
                    (false, 3) => true,
                    (otherwise, _) => otherwise,
                };
                proof {
                    lemma_cell_in_grid(row as int, col as int, w, h);
                }
                set_alive_at(&mut next, row, col, self.width, next_cell);
                col = col + 1;
            }
            row = row + 1;
        }
        self.bytes = next;
    }

    /// A 64 by 64 universe holding the initial pattern.
    pub fn new() -> (u: Universe)
        ensures
            u@.wf(),
            u@.width == 64,
            u@.height == 64,
            u@.bytes.len() == 512,
            forall|i: int| 0 <= i < 8 * u@.bytes.len() ==> #[trigger] bit_at(u@.bytes, i) == seeded(i),
    {
        Universe::with_size(64, 64)
    }

    /// A `width` by `height` universe holding the initial pattern, in a buffer of exactly
    /// `ceil(width * height / 8)` bytes.
    pub fn with_size(width: u32, height: u32) -> (u: Universe)
        requires
            width >= 1,
            height >= 1,
            width * height <= u32::MAX,
        ensures
            u@.wf(),
            u@.width == width,
            u@.height == height,
            u@.bytes.len() == packed_len(width * height),
            forall|i: int| 0 <= i < 8 * u@.bytes.len() ==> #[trigger] bit_at(u@.bytes, i) == seeded(i),
    {
        let byte_len = ((width as u64 * height as u64 + 7) / 8) as usize;
        let mut bytes: Vec<u8> = Vec::new();
        let mut byte_index: usize = 0;
        while byte_index < byte_len
            invariant
                byte_len == packed_len(width * height),
                width * height <= u32::MAX,
                byte_index <= byte_len,
                bytes@.len() == byte_index,
                forall|i: int| 0 <= i < 8 * byte_index ==> #[trigger] bit_at(bytes@, i) == seeded(i),
            decreases byte_len - byte_index,
        {
            let byte = seeded_byte(byte_index);
            let ghost before = bytes@;
            bytes.push(byte);
            assert forall|i: int| 0 <= i < 8 * bytes@.len() implies #[trigger] bit_at(bytes@, i)
                == seeded(i) by {
                if i >= 8 * byte_index {
                    assert(byte_index * 8 + i % 8 == i);
                    assert(bit_set(byte, (7 - i % 8) as u8) == seeded(byte_index * 8 + i % 8));
                } else {
                    assert(bytes@[i / 8] == before[i / 8]);
                    assert(bit_at(before, i) == seeded(i));
                }
            }
            byte_index = byte_index + 1;
        }
        Universe { width, height, bytes }
    }

    /// A universe over a given buffer; `None` unless both dimensions are positive,
    /// `width * height` fits in `u32` and the buffer holds `ceil(width * height / 8)` bytes.
    pub fn from_bytes(width: u32, height: u32, bytes: Vec<u8>) -> (r: Option<Universe>)
        ensures
            r.is_some() == grid_of(width, height, bytes@).wf(),
            r.is_some() ==> r.unwrap()@ == grid_of(width, height, bytes@),
    {
        if width == 0 || height == 0 {
            return None;
        }
        assert(width as u64 * height as u64 <= u64::MAX) by (nonlinear_arith)
            requires
                width <= u32::MAX,
                height <= u32::MAX,
        ;
        let cells = width as u64 * height as u64;
        if cells > u32::MAX as u64 || bytes.len() as u64 != (cells + 7) / 8 {
            return None;
        }
        Some(Universe { width, height, bytes })
    }
}

/// A buffer of `packed_len(n)` bytes holds exactly enough bits for `n` cells: all of
/// them, with fewer than eight bits to spare.
pub proof fn lemma_packed_len_exact(n: nat)
    ensures
        n <= 8 * packed_len(n as int) < n + 8,
{
}

/// Each neighbor term is 0 or 1, and each is part of the row sum it belongs to.
proof fn lemma_row_count_terms(g: Grid, row: int, column: int, dr: int)
    ensures
        forall|l: int|
            0 <= l < 3 ==> 0 <= #[trigger] g.neighbor_term(row, column, dr, offsets(g.width as int)[l])
                <= g.row_count(row, column, dr, 3),
        0 <= g.row_count(row, column, dr, 3) <= 3,
        dr == 0 ==> g.row_count(row, column, dr, 3) <= 2,
{
    assert(g.row_count(row, column, dr, 3) == g.row_count(row, column, dr, 2) + g.neighbor_term(
        row,
        column,
        dr,
        offsets(g.width as int)[2],
    ));
    assert(g.row_count(row, column, dr, 2) == g.row_count(row, column, dr, 1) + g.neighbor_term(
        row,
        column,
        dr,
        offsets(g.width as int)[1],
    ));
    assert(g.row_count(row, column, dr, 1) == g.row_count(row, column, dr, 0) + g.neighbor_term(
        row,
        column,
        dr,
        offsets(g.width as int)[0],
    ));
}

/// Each row sum is part of the neighbor count.
proof fn lemma_rows_count_terms(g: Grid, row: int, column: int)
    ensures
        forall|k: int|
            0 <= k < 3 ==> 0 <= #[trigger] g.row_count(row, column, offsets(g.height as int)[k], 3)
                <= g.live_neighbors(row, column),
{
    let h = g.height as int;
    lemma_row_count_terms(g, row, column, offsets(h)[0]);
    lemma_row_count_terms(g, row, column, offsets(h)[1]);
    lemma_row_count_terms(g, row, column, offsets(h)[2]);
    assert(g.rows_count(row, column, 3) == g.rows_count(row, column, 2) + g.row_count(row, column, offsets(h)[2], 3));
    assert(g.rows_count(row, column, 2) == g.rows_count(row, column, 1) + g.row_count(row, column, offsets(h)[1], 3));
    assert(g.rows_count(row, column, 1) == g.rows_count(row, column, 0) + g.row_count(row, column, offsets(h)[0], 3));
}

/// The neighbor count of every cell lies between 0 and 8.
pub proof fn lemma_live_neighbors_bounds(g: Grid, row: int, column: int)
    ensures
        0 <= g.live_neighbors(row, column) <= 8,
{
    let h = g.height as int;
    lemma_row_count_terms(g, row, column, offsets(h)[0]);
    lemma_row_count_terms(g, row, column, offsets(h)[1]);
    lemma_row_count_terms(g, row, column, offsets(h)[2]);
    assert(g.rows_count(row, column, 3) == g.rows_count(row, column, 2) + g.row_count(row, column, offsets(h)[2], 3));
    assert(g.rows_count(row, column, 2) == g.rows_count(row, column, 1) + g.row_count(row, column, offsets(h)[1], 3));
    assert(g.rows_count(row, column, 1) == g.rows_count(row, column, 0) + g.row_count(row, column, offsets(h)[0], 3));
}

/// The torus wraps around. On a grid at least two cells high, the neighbor one row up
/// from row 0 is the cell of the last row in the same column, and the neighbor one row
/// down from the last row is the cell of row 0; so a live cell on either edge counts
/// among the live neighbors of the cell facing it on the other edge. The same holds of
/// the first and last columns on a grid at least two cells wide.
pub proof fn lemma_toroidal_wraparound(g: Grid, row: int, column: int)
    requires
        g.wf(),
        0 <= row < g.height,
        0 <= column < g.width,
    ensures
        g.height >= 2 ==> g.neighbor_term(0, column, g.height - 1, 0) == (if g.alive(g.height - 1, column) { 1int } else { 0int }),
        g.height >= 2 ==> g.neighbor_term(g.height - 1, column, 1, 0) == (if g.alive(0, column) { 1int } else { 0int }),
        g.height >= 2 && g.alive(g.height - 1, column) ==> g.live_neighbors(0, column) >= 1,
        g.height >= 2 && g.alive(0, column) ==> g.live_neighbors(g.height - 1, column) >= 1,
        g.width >= 2 ==> g.neighbor_term(row, 0, 0, g.width - 1) == (if g.alive(row, g.width - 1) { 1int } else { 0int }),
        g.width >= 2 ==> g.neighbor_term(row, g.width - 1, 0, 1) == (if g.alive(row, 0) { 1int } else { 0int }),
        g.width >= 2 && g.alive(row, g.width - 1) ==> g.live_neighbors(row, 0) >= 1,
        g.width >= 2 && g.alive(row, 0) ==> g.live_neighbors(row, g.width - 1) >= 1,
{
    let w = g.width as int;
    let h = g.height as int;
    lemma_small_mod(column as nat, g.width);
    lemma_small_mod(row as nat, g.height);
    lemma_small_mod((h - 1) as nat, g.height);
    lemma_small_mod((w - 1) as nat, g.width);
    lemma_mod_self_0(h);
    lemma_mod_self_0(w);
    if h >= 2 {
        // Row offset `h - 1` comes first and row offset 1 last; column offset 0 is in the middle.
        lemma_rows_count_terms(g, 0, column);
        lemma_row_count_terms(g, 0, column, offsets(h)[0]);
        assert(g.neighbor_term(0, column, offsets(h)[0], offsets(w)[1]) >= 0);
        lemma_rows_count_terms(g, h - 1, column);
        lemma_row_count_terms(g, h - 1, column, offsets(h)[2]);
        assert(g.neighbor_term(h - 1, column, offsets(h)[2], offsets(w)[1]) >= 0);
        assert(g.row_count(0, column, offsets(h)[0], 3) >= 0);
        assert(g.row_count(h - 1, column, offsets(h)[2], 3) >= 0);
    }
    if w >= 2 {
        lemma_rows_count_terms(g, row, 0);
        lemma_row_count_terms(g, row, 0, offsets(h)[1]);
        assert(g.neighbor_term(row, 0, offsets(h)[1], offsets(w)[0]) >= 0);
        lemma_rows_count_terms(g, row, w - 1);
        lemma_row_count_terms(g, row, w - 1, offsets(h)[1]);
        assert(g.neighbor_term(row, w - 1, offsets(h)[1], offsets(w)[2]) >= 0);
        assert(g.row_count(row, 0, offsets(h)[1], 3) >= 0);
        assert(g.row_count(row, w - 1, offsets(h)[1], 3) >= 0);
    }
}

} // verus!

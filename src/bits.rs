//! Bit addressing of cells in a packed buffer, and the primitive that writes one cell.
use vstd::prelude::*;

verus! {

/// Logical position of the cell at `(row, column)` in a row-major grid of the given width.
pub open spec fn cell_index(row: int, column: int, width: int) -> int {
    row * width + column
}

/// Whether bit `shift` (0 is the least significant) of `b` is set.
pub open spec fn bit_set(b: u8, shift: u8) -> bool {
    b & (1u8 << shift) != 0
}

/// Whether logical bit `i` of a packed buffer is set: byte `i / 8`, bit `7 - i % 8`.
pub open spec fn bit_at(bytes: Seq<u8>, i: int) -> bool {
    bit_set(bytes[i / 8], (7 - i % 8) as u8)
}

/// Setting bit `s` of a byte sets it and keeps every other bit; clearing it likewise.
pub proof fn lemma_update_bit(b: u8, s: u8, t: u8)
    by (bit_vector)
    requires
        s < 8,
        t < 8,
    ensures
        bit_set(b | (1u8 << s), t) == (s == t || bit_set(b, t)),
        bit_set(b & !(1u8 << s), t) == (s != t && bit_set(b, t)),
{
}

/// No bit of the zero byte is set.
pub proof fn lemma_zero_byte(t: u8)
    by (bit_vector)
    requires
        t < 8,
    ensures
        !bit_set(0u8, t),
{
}

/// Two cells of a grid at distinct positions have distinct logical positions.
pub proof fn lemma_cell_index_injective(r1: int, c1: int, r2: int, c2: int, width: int)
    requires
        0 <= r1,
        0 <= r2,
        0 <= c1 < width,
        0 <= c2 < width,
        r1 != r2 || c1 != c2,
    ensures
        cell_index(r1, c1, width) != cell_index(r2, c2, width),
{
    if r1 < r2 {
        assert(r1 * width + width <= r2 * width) by (nonlinear_arith)
            requires
                r1 < r2,
                0 < width,
        ;
    } else if r2 < r1 {
        assert(r2 * width + width <= r1 * width) by (nonlinear_arith)
            requires
                r2 < r1,
                0 < width,
        ;
    }
}

/// A cell inside a `width` by `height` grid lies before logical position `width * height`.
pub proof fn lemma_cell_in_grid(row: int, column: int, width: int, height: int)
    requires
        0 <= row < height,
        0 <= column < width,
    ensures
        0 <= cell_index(row, column, width) < width * height,
{
    assert(0 <= row * width + column < width * height) by (nonlinear_arith)
        requires
            0 <= row < height,
            0 <= column < width,
    ;
}

/// Maps `(row, column)` to the byte that holds the cell and the bit shift of the cell
/// within that byte (most significant bit first).
pub fn get_index_and_shift(row: u32, column: u32, width: u32) -> (r: (usize, usize))
    requires
        column < width,
        row * width + column <= u32::MAX,
    ensures
        r.0 == cell_index(row as int, column as int, width as int) / 8,
        r.1 == 7 - cell_index(row as int, column as int, width as int) % 8,
{
    assert(row * width <= u32::MAX);
    let index = (row * width + column) as usize;
    (index / 8, 7 - (index % 8))
}

/// Sets (`alive`) or clears the bit of cell `(row, column)` in `bytes`, leaving every
/// other bit of the buffer as it was.
pub fn set_alive_at(bytes: &mut Vec<u8>, row: u32, column: u32, width: u32, alive: bool)
    requires
        column < width,
        row * width + column <= u32::MAX,
        cell_index(row as int, column as int, width as int) < 8 * old(bytes)@.len(),
    ensures
        final(bytes)@.len() == old(bytes)@.len(),
        forall|i: int|
            0 <= i < 8 * old(bytes)@.len() ==> #[trigger] bit_at(final(bytes)@, i) == if i
                == cell_index(row as int, column as int, width as int) {
                alive
            } else {
                bit_at(old(bytes)@, i)
            },
        forall|r: int, c: int|
            0 <= r && 0 <= c < width && cell_index(r, c, width as int) < 8 * old(bytes)@.len()
                ==> #[trigger] bit_at(final(bytes)@, cell_index(r, c, width as int)) == if r
                == row && c == column {
                alive
            } else {
                bit_at(old(bytes)@, cell_index(r, c, width as int))
            },
{
    let ghost target = cell_index(row as int, column as int, width as int);
    let (index, shift) = get_index_and_shift(row, column, width);
    let mask: u8 = 1u8 << (shift as u8);
    let b = bytes[index];
    if alive {
        bytes.set(index, b | mask);
    } else {
        bytes.set(index, b & !mask);
    }
    assert forall|i: int| 0 <= i < 8 * old(bytes)@.len() implies #[trigger] bit_at(bytes@, i)
        == if i == target {
        alive
    } else {
        bit_at(old(bytes)@, i)
    } by {
        if i / 8 == index as int {
            lemma_update_bit(b, shift as u8, (7 - i % 8) as u8);
        }
    }
    assert forall|r: int, c: int|
        0 <= r && 0 <= c < width && cell_index(r, c, width as int) < 8 * old(bytes)@.len()
            implies #[trigger] bit_at(bytes@, cell_index(r, c, width as int)) == if r == row
            && c == column {
        alive
    } else {
        bit_at(old(bytes)@, cell_index(r, c, width as int))
    } by {
        if r != row || c != column {
            lemma_cell_index_injective(r, c, row as int, column as int, width as int);
        }
        let i = cell_index(r, c, width as int);
        assert(bit_at(bytes@, i) == if i == target {
            alive
        } else {
            bit_at(old(bytes)@, i)
        });
    }
}

} // verus!

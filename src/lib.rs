//! Conway's Game of Life on a toroidal grid whose cells are packed one bit each,
//! most significant bit first, in row-major order.
use vstd::prelude::*;

pub mod bits;

pub mod universe;

pub use bits::{get_index_and_shift, set_alive_at};
pub use universe::{Grid, Universe};

verus! {

} // verus!

use vstd::prelude::*;

pub mod dec;
pub mod lebytes;
pub mod active;
pub mod history;
pub mod session;
pub mod record;

verus! {

/// One cell of the grid, addressed by zero-based row and column.
#[derive(Clone, Copy, PartialEq, Eq, Structural, Debug)]
pub struct Pos {
    pub row: u32,
    pub col: u32,
}

} // verus!

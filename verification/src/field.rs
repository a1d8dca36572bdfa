use vstd::prelude::*;

verus! {

/// Reveal state of a single cell of the grid.
#[derive(Clone, Copy, Debug, PartialEq, Eq, Structural)]
pub enum FieldState {
    Open,
    Closed,
    Flagged,
}

/// One cell: its hint value (count of mine neighbors; 9 for a mine),
/// its reveal state, whether it hides a mine, and its coordinates.
#[derive(Clone, Copy, Debug, PartialEq, Eq, Structural)]
pub struct Field {
    pub value: u8,
    pub field_state: FieldState,
    pub mine: bool,
    pub x: usize,
    pub z: usize,
}

impl Field {
    /// A fresh cell: closed, no mine, hint zero, at the origin.
    pub fn new() -> (f: Field)
        ensures
            f == (Field { value: 0, field_state: FieldState::Closed, mine: false, x: 0, z: 0 }),
    {
        Field { value: 0, field_state: FieldState::Closed, mine: false, x: 0, z: 0 }
    }
}

} // verus!

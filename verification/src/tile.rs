//! Tiles.

use vstd::prelude::*;

verus! {

/// One cell of a board, or one entry of a goal table.
///
/// `value` is the number shown on the tile, with `0` for the blank. `x_base`
/// is a column and `y_base` a row: on a board they name the cell that holds
/// the tile, in a goal table the cell where the value belongs.
#[derive(Clone, Copy, PartialEq, Eq, Structural, Debug)]
pub struct Number {
    pub value: i32,
    pub x_base: i32,
    pub y_base: i32,
    pub h: i32,
}

impl Number {
    /// Moves the tile to column `x_base`, row `y_base`.
    pub fn update_base(&mut self, x_base: i32, y_base: i32)
        ensures
            *final(self) == (Number { x_base: x_base, y_base: y_base, ..*old(self) }),
    {
        self.x_base = x_base;
        self.y_base = y_base;
    }
}

} // verus!

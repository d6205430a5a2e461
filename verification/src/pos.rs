use vstd::prelude::*;

use crate::axis::{Axis, Line, LinePosition};

verus! {

/// A grid coordinate. Ordering is (row, col) lexicographic.
#[derive(Clone, Copy, PartialEq, Eq, Structural, PartialOrd, Ord, Hash, Debug)]
pub struct Position {
    pub row: u16,
    pub col: u16,
}

impl Position {
    pub fn new(row: u16, col: u16) -> (p: Position)
        ensures
            p.row == row,
            p.col == col,
    {
        Position { row, col }
    }

    /// Projects the coordinate onto the given axis: the line through it
    /// that runs along the axis, and the cell's offset within that line.
    pub fn along_axis(&self, axis: Axis) -> (lp: LinePosition)
        ensures
            axis == Axis::Row ==> lp == (LinePosition {
                line: Line::Row(self.row),
                offset: self.col,
            }),
            axis == Axis::Col ==> lp == (LinePosition {
                line: Line::Col(self.col),
                offset: self.row,
            }),
    {
        match axis {
            Axis::Row => LinePosition { line: Line::Row(self.row), offset: self.col },
            Axis::Col => LinePosition { line: Line::Col(self.col), offset: self.row },
        }
    }
}

impl Default for Position {
    fn default() -> (p: Position)
        ensures
            p.row == 0,
            p.col == 0,
    {
        Position { row: 0, col: 0 }
    }
}

} // verus!

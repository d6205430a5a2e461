use vstd::prelude::*;

verus! {

/// The two directions a line of the grid can take.
#[derive(Clone, Copy, PartialEq, Eq, Structural, Debug, Hash)]
pub enum Axis {
    Row,
    Col,
}

impl Default for Axis {
    fn default() -> (a: Axis)
        ensures
            a == Axis::Row,
    {
        Axis::Row
    }
}

/// One line of the grid: a row or a column, named by its index.
#[derive(Clone, Copy, PartialEq, Eq, Structural, Debug, Hash)]
pub enum Line {
    Row(u16),
    Col(u16),
}

impl Line {
    /// The index of the line along its own axis.
    pub fn line(&self) -> (i: u16)
        ensures
            i == self.spec_line(),
    {
        match self {
            Line::Row(r) => *r,
            Line::Col(c) => *c,
        }
    }

    /// The index of the line along its own axis.
    pub open spec fn spec_line(self) -> u16 {
        match self {
            Line::Row(r) => r,
            Line::Col(c) => c,
        }
    }

    /// The axis the line runs along.
    pub fn axis(&self) -> (a: Axis)
        ensures
            a == (if self is Row { Axis::Row } else { Axis::Col }),
    {
        match self {
            Line::Row(_) => Axis::Row,
            Line::Col(_) => Axis::Col,
        }
    }
}

/// A grid coordinate projected onto one axis: the line it lies on and
/// the offset of the cell within that line.
#[derive(Clone, Copy, PartialEq, Eq, Structural, Debug)]
pub struct LinePosition {
    pub line: Line,
    pub offset: u16,
}

} // verus!

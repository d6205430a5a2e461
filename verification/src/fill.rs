use vstd::prelude::*;

verus! {

/// The value a grid cell or a clue segment may hold: unknown (`Blank`),
/// marked impossible (`Cross`), or one of the palette colors identified
/// by a positive id.
#[derive(Clone, Copy, PartialEq, Eq, Structural, Hash, Debug)]
pub enum Fill {
    Blank,
    Cross,
    Color(u16),
}

impl Fill {
    /// A fill that may stand in a grid cell: color id 0 is reserved and
    /// never denotes an actual color.
    pub open spec fn spec_valid(self) -> bool {
        self matches Fill::Color(id) ==> id >= 1
    }

    /// A fill that names an actual color.
    pub open spec fn spec_is_color(self) -> bool {
        self matches Fill::Color(id) && id >= 1
    }

    /// Whether this fill is exactly the color with the given id.
    pub fn is_color(&self, id: u16) -> (r: bool)
        ensures
            r == (*self == Fill::Color(id)),
    {
        match self {
            Fill::Color(own) => *own == id,
            _ => false,
        }
    }

    /// Maps the numeric cell encoding of puzzle descriptions to a fill:
    /// 0 stands for an empty cell, any other value for that color id.
    pub fn from_id(id: u16) -> (f: Fill)
        ensures
            f == Fill::spec_from_id(id),
            f.spec_valid(),
    {
        if id == 0 {
            Fill::Blank
        } else {
            Fill::Color(id)
        }
    }

    /// The fill denoted by a numeric cell value.
    pub open spec fn spec_from_id(id: u16) -> Fill {
        if id == 0 {
            Fill::Blank
        } else {
            Fill::Color(id)
        }
    }
}

} // verus!

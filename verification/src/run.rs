use vstd::prelude::*;

use crate::error::Error;
use crate::fill::Fill;

verus! {

/// One clue segment: a contiguous stretch of `count` cells of one color.
#[derive(Clone, Copy, PartialEq, Eq, Structural, Debug)]
pub struct Run {
    pub fill: Fill,
    pub count: u16,
}

impl Run {
    /// A run describes at least one cell of an actual color.
    pub open spec fn spec_valid(self) -> bool {
        self.count >= 1 && self.fill.spec_is_color()
    }

    /// Builds a clue segment, rejecting empty runs and runs without an
    /// actual color.
    pub fn new(fill: Fill, count: u16) -> (r: Result<Run, Error>)
        ensures
            r is Err <==> !(Run { fill, count }).spec_valid(),
            r is Err ==> r == Result::<Run, Error>::Err(Error::InvalidRun),
            r matches Ok(run) ==> run == (Run { fill, count }),
    {
        let ok = count >= 1 && match fill {
            Fill::Color(id) => id >= 1,
            _ => false,
        };
        if ok {
            Ok(Run { fill, count })
        } else {
            Err(Error::InvalidRun)
        }
    }
}

} // verus!

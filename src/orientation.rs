use vstd::prelude::*;

verus! {

/// The axis a line belongs to.
#[derive(Clone, Copy, PartialEq, Eq, Structural, Debug, Hash)]
pub enum Orientation {
    Row,
    Column,
}

impl Orientation {
    pub open spec fn inverted(self) -> Orientation {
        match self {
            Orientation::Row => Orientation::Column,
            Orientation::Column => Orientation::Row,
        }
    }

    /// The perpendicular axis.
    pub fn invert(&self) -> (r: Orientation)
        ensures
            r == self.inverted(),
            r != *self,
            r.inverted() == *self,
    {
        match self {
            Orientation::Row => Orientation::Column,
            Orientation::Column => Orientation::Row,
        }
    }
}

} // verus!

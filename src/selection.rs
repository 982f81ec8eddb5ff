use vstd::prelude::*;

use crate::orientation::Orientation;

verus! {

/// Identifies one line of a board: a row or a column, by index.
#[derive(Clone, Copy, PartialEq, Eq, Structural, Debug, Hash)]
pub struct Selection {
    pub orientation: Orientation,
    pub index: i32,
}

} // verus!

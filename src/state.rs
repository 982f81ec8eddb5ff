use vstd::prelude::*;

verus! {

/// State of one cell. `OutOfBounds` is only ever returned when probing a line
/// outside its ends; it is never stored in a board.
#[derive(Clone, Copy, PartialEq, Eq, Structural, Debug, Hash)]
pub enum GridState {
    Unknown,
    Filled,
    Empty,
    OutOfBounds,
}

impl GridState {
    /// A confirmed state: `Filled` or `Empty`.
    pub open spec fn is_known(self) -> bool {
        self == GridState::Filled || self == GridState::Empty
    }

    /// A state that may be stored in a grid.
    pub open spec fn is_cell(self) -> bool {
        self != GridState::OutOfBounds
    }

    pub open spec fn char_of(self) -> char {
        match self {
            GridState::Unknown => '?',
            GridState::Filled => '\u{25A0}',
            GridState::Empty => ' ',
            GridState::OutOfBounds => 'X',
        }
    }

    pub fn to_char(&self) -> (r: char)
        ensures
            r == self.char_of(),
    {
        match self {
            GridState::Unknown => '?',
            GridState::Filled => '\u{25A0}',
            GridState::Empty => ' ',
            GridState::OutOfBounds => 'X',
        }
    }
}

} // verus!

//! Line-logic propagation engine for nonogram puzzles.
pub mod board;
pub mod enumerator;
pub mod orientation;
pub mod selection;
pub mod slice;
pub mod state;

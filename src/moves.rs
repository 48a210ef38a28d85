//! A move in a flat board game: the data that the serialization exercises
//! write and read back.
use vstd::prelude::*;

verus! {

/// One move: its number in the game and its direction.
#[derive(Debug, Clone, Copy, PartialEq, Eq, Structural)]
pub struct Move {
    pub number: u64,
    pub dir: Direction,
}

/// The directions a move can take.
#[derive(Debug, Clone, Copy, PartialEq, Eq, Structural)]
pub enum Direction {
    Up,
    Down,
    Right,
    Left,
}

} // verus!

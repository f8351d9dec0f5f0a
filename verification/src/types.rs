//! Shared type definitions for the draughts engine.

use vstd::prelude::*;

verus! {

/// One of the two players. White's pieces start on rows 5..=7 and move toward
/// row 0; Black's start on rows 0..=2 and move toward row 7.
#[derive(Clone, Copy, PartialEq, Eq, Structural, Debug)]
pub enum Player {
    White,
    Black,
}

/// The content of one square: empty, a regular piece, or a king.
#[derive(Clone, Copy, PartialEq, Eq, Structural, Debug)]
pub enum Piece {
    Empty,
    Regular(Player),
    King(Player),
}

/// One complete turn: the origin square, the final destination after all
/// chained jumps, and the ordered list of captured squares (empty for a
/// non-capturing move).
#[derive(Clone, Debug)]
pub struct Move {
    pub from_x: usize,
    pub from_y: usize,
    pub to_x: usize,
    pub to_y: usize,
    pub captures: Vec<(usize, usize)>,
}

} // verus!

//! A whole game: the board together with the front-end handle.

use vstd::prelude::*;

use crate::board::Board;
use crate::rules::is_initial_board;
use crate::ui::GameUI;

verus! {

/// The state a running game carries: the current position and the front
/// end that shows it. The driving loop itself belongs to the front end.
pub struct Game {
    pub board: Board,
    pub ui: GameUI,
}

impl Game {
    /// A fresh game on the standard starting position.
    pub fn new() -> (g: Game)
        ensures
            is_initial_board(g.board),
    {
        Game { board: Board::new(), ui: GameUI::new() }
    }
}

} // verus!

//! The engine's handle for a front end. Rendering a board and reading a
//! player's input are the front end's own work and live outside the engine;
//! the engine only hands it positions and validates the moves it proposes.

use vstd::prelude::*;

verus! {

/// A marker value standing for the front end attached to a game.
pub struct GameUI;

impl GameUI {
    /// A fresh front-end handle.
    pub fn new() -> GameUI {
        GameUI
    }
}

} // verus!

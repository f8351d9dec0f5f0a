//! A rule engine for English draughts (checkers) on an 8x8 board.
//!
//! The engine enumerates legal moves for a position, enforces the
//! mandatory-capture rule, resolves multi-jump capture chains, and applies a
//! chosen move to produce the successor position, including king promotion
//! and turn advancement.

pub mod board;
pub mod game;
pub mod laws;
pub mod rules;
pub mod types;
pub mod ui;

//! Rule engine for a Minesweeper game: a grid of cells with deferred
//! (first-click-safe) mine placement, flood-fill auto-reveal, flag
//! bookkeeping, and a top-level game state machine.

pub mod game;

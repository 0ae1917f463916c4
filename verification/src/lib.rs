//! Verified board logic for a small collection of grid games.
//!
//! The centerpiece is the minesweeper engine: mine placement, flood
//! reveal, chorded opening, flag toggling and win/loss detection, all
//! specified and proved. The tetris module verifies the falling-block
//! board rules over the same style of model.

pub mod minesweeper;
pub mod random;
pub mod tetris;

//! A verified Minesweeper engine.
//!
//! The board is a row-major grid of cells; each cell has a visibility
//! (closed, flagged, or opened) and a content (a mine, or safe with the
//! exact count of adjacent mines). The engine applies plays (open or
//! flag) to a board, enforcing first-move safety and terminal-state
//! rules, and the codec turns a board into a compact byte snapshot and
//! back, losslessly.
#![verifier::loop_isolation(false)]

pub mod board;
pub mod codec;
pub mod engine;
pub mod render;
pub mod rng;

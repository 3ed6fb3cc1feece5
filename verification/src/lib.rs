//! A Sudoku engine that solves by deduction alone: candidate sets per cell,
//! the row / column / block geometry, a catalogue of elimination and placement
//! techniques, and a round-robin scheduler that applies them block by block
//! until the board is solved or no technique makes progress.
//!
//! - `candidates`: sets of digits.
//! - `geometry`: cells, rows, columns and blocks.
//! - `board`: the grid, its cells, and the squares that a board is exchanged as.
//! - `techniques`: the six deductions, each in a module of its own.
//! - `solver`: the two passes, the scheduler, `solve` and `work_one_box`.
//! - `consts`: two puzzles.
//! - `laws`: what is proved of the whole: the round trip through squares,
//!   and that solving is sound, comes to an end, and is idempotent.

pub mod board;
pub mod candidates;
pub mod consts;
pub mod geometry;
pub mod laws;
pub mod solver;
pub mod techniques;

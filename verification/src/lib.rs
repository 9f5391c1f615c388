//! Counting and simulating a chase on a chess board: a dragon that jumps like
//! a knight hunts sheep that walk down their columns, one row per turn.

pub mod cell_set;
pub mod sums;
pub mod board;
pub mod state;
pub mod count;
pub mod memo;
pub mod search;
pub mod simulate;
pub mod text;

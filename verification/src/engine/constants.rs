//! Sizes and limits of the mutable board and its encoding.

use vstd::prelude::*;

verus! {

pub const BOARD_WIDTH: i32 = 9;

pub const BOARD_HEIGHT: i32 = 10;

pub const SQUARE_COUNT: i32 = 90;

pub const ACTION_SPACE_SIZE: usize = 8100;

/// Seven kinds of men for each side.
pub const PIECE_TYPE_COUNT: usize = 14;

/// A game ends in a draw after this many plies.
pub const MAX_TOTAL_PLIES: u32 = 300;

/// A game ends in a draw after this many plies without a capture.
pub const NO_CAPTURE_DRAW_PLIES: u32 = 100;

/// Number of positions that the encoding shows, the current one among them.
pub const N_HISTORY: usize = 7;

pub const PLANES_PER_FRAME: usize = 14;

pub const INPUT_CHANNELS: usize = 99;

} // verus!

//! Sizes and limits that the rules, the encoding and the training data agree on.

use vstd::prelude::*;

verus! {

pub const BOARD_WIDTH: usize = 9;

pub const BOARD_HEIGHT: usize = 10;

pub const SQUARE_COUNT: usize = 90;

pub const ACTION_SPACE_SIZE: usize = 8100;

/// A game ends in a draw after this many plies.
pub const MAX_TOTAL_PLIES: u32 = 300;

/// A game ends in a draw after this many plies without a capture.
pub const NO_CAPTURE_DRAW_PLIES: u32 = 100;

/// Number of positions that the encoding shows, the current one among them.
pub const N_HISTORY: usize = 7;

pub const PLANES_PER_FRAME: usize = 14;

pub const INPUT_CHANNELS: usize = 99;

} // verus!

//! The exported settings of a run, and the check that their constants are those of the rules.

use vstd::prelude::*;

use crate::kernel::constants::{
    ACTION_SPACE_SIZE, BOARD_HEIGHT, BOARD_WIDTH, INPUT_CHANNELS, MAX_TOTAL_PLIES, NO_CAPTURE_DRAW_PLIES,
    N_HISTORY, PLANES_PER_FRAME, SQUARE_COUNT,
};
use crate::text::{decimal, decimal_string, push_text};

verus! {

#[derive(Debug, Clone, Copy, PartialEq, Eq, Structural)]
pub struct BoardConfig {
    pub width: usize,
    pub height: usize,
    pub square_count: usize,
    pub action_space_size: usize,
}

#[derive(Debug, Clone, Copy, PartialEq, Eq, Structural)]
pub struct RulesConfig {
    pub max_total_plies: u32,
    pub no_capture_draw_plies: u32,
}

#[derive(Debug, Clone, Copy, PartialEq, Eq, Structural)]
pub struct EncodingConfig {
    pub n_history: usize,
    pub planes_per_frame: usize,
    pub input_channels: usize,
}

/// The part of the exported settings that the rules fix.
#[derive(Debug, Clone, Copy, PartialEq, Eq, Structural)]
pub struct RunConfig {
    pub board: BoardConfig,
    pub rules: RulesConfig,
    pub encoding: EncodingConfig,
}

/// The message for a constant that differs from that of the rules.
pub open spec fn mismatch(name: Seq<char>, json_value: int, rust_const: int) -> Option<Seq<char>> {
    if json_value == rust_const {
        None
    } else {
        Some(
            "run-config 常量 "@ + name + "="@ + decimal(json_value as nat) + " 与 engine const="@
                + decimal(rust_const as nat)
                + " 不一致，请重新导出 run-config 或对齐两侧"@,
        )
    }
}

/// The first of two messages.
pub open spec fn or_else(a: Option<Seq<char>>, b: Option<Seq<char>>) -> Option<Seq<char>> {
    if a is Some {
        a
    } else {
        b
    }
}

fn check(name: &str, json_value: usize, rust_const: usize) -> (r: Result<(), String>)
    ensures
        match r {
            Ok(()) => mismatch(name@, json_value as int, rust_const as int) is None,
            Err(e) => mismatch(name@, json_value as int, rust_const as int) == Some(e@),
        },
{
    if json_value != rust_const {
        let mut e = "run-config 常量 ".to_string();
        push_text(&mut e, name);
        push_text(&mut e, "=");
        push_text(&mut e, decimal_string(json_value as u128).as_str());
        push_text(&mut e, " 与 engine const=");
        push_text(&mut e, decimal_string(rust_const as u128).as_str());
        push_text(&mut e, " 不一致，请重新导出 run-config 或对齐两侧");
        return Err(e);
    }
    Ok(())
}

impl RunConfig {
    /// The message for the first constant that differs from that of the rules.
    pub open spec fn first_mismatch(self) -> Option<Seq<char>> {
        or_else(
            mismatch("board.width"@, self.board.width as int, 9),
            or_else(
                mismatch("board.height"@, self.board.height as int, 10),
                or_else(
                    mismatch("board.square_count"@, self.board.square_count as int, 90),
                    or_else(
                        mismatch(
                            "board.action_space_size"@,
                            self.board.action_space_size as int,
                            8100,
                        ),
                        or_else(
                            mismatch(
                                "rules.max_total_plies"@,
                                self.rules.max_total_plies as int,
                                300,
                            ),
                            or_else(
                                mismatch(
                                    "rules.no_capture_draw_plies"@,
                                    self.rules.no_capture_draw_plies as int,
                                    100,
                                ),
                                or_else(
                                    mismatch(
                                        "encoding.n_history"@,
                                        self.encoding.n_history as int,
                                        7,
                                    ),
                                    or_else(
                                        mismatch(
                                            "encoding.planes_per_frame"@,
                                            self.encoding.planes_per_frame as int,
                                            14,
                                        ),
                                        mismatch(
                                            "encoding.input_channels"@,
                                            self.encoding.input_channels as int,
                                            99,
                                        ),
                                    ),
                                ),
                            ),
                        ),
                    ),
                ),
            ),
        )
    }

    /// Checks that the constants are those of the rules.
    pub fn verify_constants(&self) -> (r: Result<(), String>)
        ensures
            match r {
                Ok(()) => self.first_mismatch() is None,
                Err(e) => self.first_mismatch() == Some(e@),
            },
    {
        check("board.width", self.board.width, BOARD_WIDTH)?;
        check("board.height", self.board.height, BOARD_HEIGHT)?;
        check("board.square_count", self.board.square_count, SQUARE_COUNT)?;
        check("board.action_space_size", self.board.action_space_size, ACTION_SPACE_SIZE)?;
        check(
            "rules.max_total_plies",
            self.rules.max_total_plies as usize,
            MAX_TOTAL_PLIES as usize,
        )?;
        check(
            "rules.no_capture_draw_plies",
            self.rules.no_capture_draw_plies as usize,
            NO_CAPTURE_DRAW_PLIES as usize,
        )?;
        check("encoding.n_history", self.encoding.n_history, N_HISTORY)?;
        check("encoding.planes_per_frame", self.encoding.planes_per_frame, PLANES_PER_FRAME)?;
        check("encoding.input_channels", self.encoding.input_channels, INPUT_CHANNELS)?;
        Ok(())
    }
}

} // verus!

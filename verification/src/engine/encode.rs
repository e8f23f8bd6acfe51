//! Games as stacks of planes, and moves as numbers, both seen from the side to move.

use vstd::prelude::*;

use crate::engine::board::PieceIndexBoard;
use crate::engine::constants::{BOARD_HEIGHT, BOARD_WIDTH, N_HISTORY, SQUARE_COUNT};
use crate::engine::game::GameState;
use crate::engine::types::{ActionId, Color, Move, Position};

verus! {

/// Number of cells in the piece planes: 98 planes of 10 by 9.
pub const PIECES_SIZE: usize = 8820;

/// Number of cells in all planes: 99 planes of 10 by 9.
pub const STATE_F32_SIZE: usize = 8910;

/// A game encoded for evaluation. The piece planes hold 0 or 1, plane by plane and rank by rank:
/// first those of the side to move, then those of the other side; for each side seven frames,
/// oldest first, of seven kinds.
#[derive(Debug)]
pub struct EncodedState {
    pub pieces: [u8; 8820],
    pub no_capture_plies: u8,
}

/// The board that frame `f` shows: frame 6 is the current board, missing earlier boards are empty.
pub open spec fn frame_index(history: Seq<PieceIndexBoard>, f: int, y: int, x: int) -> u8 {
    let i = history.len() - 7 + f;
    if i >= 0 {
        history[i]@[y]@[x]
    } else {
        0
    }
}

/// The rank on the board that is seen as rank `y` from `side`.
pub open spec fn seen_rank(side: Color, y: int) -> int {
    match side {
        Color::Red => y,
        Color::Black => 9 - y,
    }
}

/// The side of a piece type number.
pub open spec fn index_color(v: u8) -> Color {
    if v <= 7 {
        Color::Red
    } else {
        Color::Black
    }
}

/// Cell `i` of the piece planes.
pub open spec fn piece_cell(history: Seq<PieceIndexBoard>, side: Color, i: int) -> u8 {
    let channel = i / 90;
    let own = channel / 49 == 0;
    let frame = (channel % 49) / 7;
    let kind = channel % 7;
    let y = (i % 90) / 9;
    let x = i % 9;
    let v = frame_index(history, frame, seen_rank(side, y), x);
    if v != 0 && (index_color(v) == side) == own && (v - 1) % 7 == kind {
        1
    } else {
        0
    }
}

impl EncodedState {
    /// All 99 planes in hundredths: 100 for a piece, and in the last plane the plies since the last
    /// capture, of which 100 make a whole.
    pub fn to_hundredths(&self) -> (r: Vec<u32>)
        ensures
            r@.len() == 8910,
            forall|i: int| 0 <= i < 8820 ==> #[trigger] r@[i] == self.pieces@[i] * 100,
            forall|i: int| 8820 <= i < 8910 ==> #[trigger] r@[i] == self.no_capture_plies,
    {
        let mut out: Vec<u32> = Vec::new();
        let mut i: usize = 0;
        while i < PIECES_SIZE
            invariant
                i <= 8820,
                out@.len() == i,
                forall|j: int| 0 <= j < i ==> #[trigger] out@[j] == self.pieces@[j] * 100,
            decreases 8820 - i,
        {
            out.push(self.pieces[i] as u32 * 100);
            i += 1;
        }
        while i < STATE_F32_SIZE
            invariant
                8820 <= i <= 8910,
                out@.len() == i,
                forall|j: int| 0 <= j < 8820 ==> #[trigger] out@[j] == self.pieces@[j] * 100,
                forall|j: int| 8820 <= j < i ==> #[trigger] out@[j] == self.no_capture_plies,
            decreases 8910 - i,
        {
            out.push(self.no_capture_plies as u32);
            i += 1;
        }
        out
    }
}

fn view_coords(y: usize, x: usize, side_to_move: Color) -> (r: (usize, usize))
    requires
        y < 10,
    ensures
        r.0 == seen_rank(side_to_move, y as int),
        r.0 < 10,
        r.1 == x,
{
    match side_to_move {
        Color::Red => (y, x),
        Color::Black => (9 - y, x),
    }
}

fn piece_color(piece_index: u8) -> (r: Color)
    ensures
        r == index_color(piece_index),
{
    if piece_index <= 7 {
        Color::Red
    } else {
        Color::Black
    }
}

fn piece_kind_index(piece_index: u8) -> (r: usize)
    requires
        piece_index > 0,
    ensures
        r == (piece_index - 1) % 7,
        r < 7,
{
    ((piece_index - 1) % 7) as usize
}

/// The frame and the square of a cell.
spec fn visited(i: int, f: int, k: int) -> bool {
    let frame = ((i / 90) % 49) / 7;
    frame < f || (frame == f && i % 90 < k)
}

/// Of the cells of one frame and square, the one of the piece's kind and side is set.
proof fn lemma_set_cell(history: Seq<PieceIndexBoard>, side: Color, f: int, k: int, v: u8, idx: int)
    requires
        0 <= f < 7,
        0 <= k < 90,
        v == frame_index(history, f, seen_rank(side, k / 9), k % 9),
        v != 0 ==> idx == ((if index_color(v) == side {
            0int
        } else {
            49
        }) + f * 7 + (v - 1) % 7) * 90 + k,
    ensures
        v != 0 ==> 0 <= idx < 8820 && piece_cell(history, side, idx) == 1 && !visited(idx, f, k)
            && visited(idx, f, k + 1),
        forall|i: int|
            0 <= i < 8820 && #[trigger] visited(i, f, k + 1) && !visited(i, f, k) && (v == 0 || i
                != idx) ==> piece_cell(history, side, i) == 0,
{
    assert forall|i: int|
        0 <= i < 8820 && #[trigger] visited(i, f, k + 1) && !visited(i, f, k) && (v == 0 || i
            != idx) implies piece_cell(history, side, i) == 0 by {
        let c = i / 90;
        let own = c / 49;
        let kind = c % 7;
        assert(i % 90 == k);
        assert((c % 49) / 7 == f);
        assert(i % 9 == k % 9);
        assert(c == own * 49 + f * 7 + kind);
        assert(0 <= own <= 1);
        if v != 0 && (index_color(v) == side) == (own == 0) && (v - 1) % 7 == kind {
            assert(i == idx);
        }
    }
    if v != 0 {
        let c = (if index_color(v) == side {
            0int
        } else {
            49
        }) + f * 7 + (v - 1) % 7;
        assert(idx / 90 == c);
        assert(idx % 90 == k);
        assert(idx % 9 == k % 9);
        assert((c % 49) / 7 == f);
        assert(c % 7 == (v - 1) % 7);
    }
}

/// Encodes a game from the view of the side to move.
pub fn encode_state(game: &GameState) -> (r: EncodedState)
    ensures
        forall|i: int|
            0 <= i < 8820 ==> #[trigger] r.pieces@[i] == piece_cell(
                game@.history,
                game@.board.side,
                i,
            ),
        r.no_capture_plies == if game@.board.quiet <= 255 {
            game@.board.quiet as int
        } else {
            255
        },
{
    let ghost history = game@.history;
    let side_to_move = game.board.side_to_move;
    let len: usize = game.history.len();
    let mut pieces = [0u8; 8820];
    let mut f: usize = 0;
    while f < N_HISTORY
        invariant
            f <= 7,
            history == game@.history,
            len == history.len(),
            side_to_move == game@.board.side,
            forall|i: int|
                0 <= i < 8820 ==> #[trigger] pieces@[i] == if visited(i, f as int, 0) {
                    piece_cell(history, side_to_move, i)
                } else {
                    0
                },
        decreases 7 - f,
    {
        let missing = f < 7 && len < 7 - f;
        let mut k: usize = 0;
        while k < 90
            invariant
                f < 7,
                k <= 90,
                missing == (len < 7 - f),
                history == game@.history,
                len == history.len(),
                side_to_move == game@.board.side,
                forall|i: int|
                    0 <= i < 8820 ==> #[trigger] pieces@[i] == if visited(i, f as int, k as int) {
                        piece_cell(history, side_to_move, i)
                    } else {
                        0
                    },
            decreases 90 - k,
        {
            let y: usize = k / 9;
            let x: usize = k % 9;
            let (sy, sx) = view_coords(y, x, side_to_move);
            let piece_index: u8 = if missing {
                0
            } else {
                game.history[len - (7 - f)][sy][sx]
            };
            let ghost before = pieces@;
            if piece_index != 0 {
                let group: usize = if piece_color(piece_index) == side_to_move {
                    0
                } else {
                    49
                };
                let channel: usize = group + f * 7 + piece_kind_index(piece_index);
                let idx: usize = channel * 90 + y * 9 + x;
                proof {
                    assert(idx == channel * 90 + k);
                    lemma_set_cell(
                        history,
                        side_to_move,
                        f as int,
                        k as int,
                        piece_index,
                        idx as int,
                    );
                }
                pieces[idx] = 1;
            } else {
                proof {
                    lemma_set_cell(history, side_to_move, f as int, k as int, piece_index, 0);
                }
            }
            proof {
                assert forall|i: int| 0 <= i < 8820 implies #[trigger] pieces@[i] == if visited(
                    i,
                    f as int,
                    k + 1,
                ) {
                    piece_cell(history, side_to_move, i)
                } else {
                    0
                } by {
                    assert(before[i] == if visited(i, f as int, k as int) {
                        piece_cell(history, side_to_move, i)
                    } else {
                        0
                    });
                }
            }
            k += 1;
        }
        proof {
            assert forall|i: int| 0 <= i < 8820 implies visited(i, f as int, 90) == #[trigger] visited(
                i,
                f + 1,
                0,
            ) by {}
            assert forall|i: int| 0 <= i < 8820 implies #[trigger] pieces@[i] == if visited(
                i,
                f + 1,
                0,
            ) {
                piece_cell(history, side_to_move, i)
            } else {
                0
            } by {
                assert(visited(i, f as int, 90) == visited(i, f + 1, 0));
            }
        }
        f += 1;
    }
    proof {
        assert forall|i: int| 0 <= i < 8820 implies visited(i, 7, 0) by {}
    }
    let quiet: u32 = game.board.no_capture_plies;
    EncodedState {
        pieces,
        no_capture_plies: if quiet <= 255 {
            quiet as u8
        } else {
            255
        },
    }
}

/// The number of a square as seen from `side`.
pub open spec fn seen_square(side: Color, pos: Position) -> int {
    seen_rank(side, pos.y as int) * 9 + pos.x
}

/// The number of a move as seen from `side`.
pub open spec fn action_number(side: Color, mv: Move) -> int {
    seen_square(side, mv.from) * 90 + seen_square(side, mv.to)
}

/// The number of a move as seen from the side that plays it.
pub fn move_to_action_id(mv: Move, side_to_move: Color) -> (r: ActionId)
    ensures
        r == action_number(side_to_move, mv),
{
    let (from_vy, to_vy): (i32, i32) = match side_to_move {
        Color::Red => (mv.from.y as i32, mv.to.y as i32),
        Color::Black => (BOARD_HEIGHT - 1 - mv.from.y as i32, BOARD_HEIGHT - 1 - mv.to.y as i32),
    };
    let from_view: i32 = from_vy * BOARD_WIDTH + mv.from.x as i32;
    let to_view: i32 = to_vy * BOARD_WIDTH + mv.to.x as i32;
    from_view * SQUARE_COUNT + to_view
}

/// The move with a given number as seen from the side that plays it.
pub fn action_id_to_move(action_id: ActionId, side_to_move: Color) -> (r: Move)
    requires
        0 <= action_id < 8100,
    ensures
        r.valid(),
        action_number(side_to_move, r) == action_id,
{
    let from_view: i32 = action_id / SQUARE_COUNT;
    let to_view: i32 = action_id % SQUARE_COUNT;
    let from_vx: i32 = from_view % BOARD_WIDTH;
    let from_vy: i32 = from_view / BOARD_WIDTH;
    let to_vx: i32 = to_view % BOARD_WIDTH;
    let to_vy: i32 = to_view / BOARD_WIDTH;
    let (from_y, to_y): (i32, i32) = match side_to_move {
        Color::Red => (from_vy, to_vy),
        Color::Black => (BOARD_HEIGHT - 1 - from_vy, BOARD_HEIGHT - 1 - to_vy),
    };
    Move::new(
        Position::new(from_vx as i8, from_y as i8),
        Position::new(to_vx as i8, to_y as i8),
    )
}

/// Distinct moves on the board have distinct numbers, all below the size of the action space; with
/// the contracts of the two conversions this makes them inverse to each other, for either side.
pub proof fn law_action_numbers(side: Color, a: Move, b: Move)
    requires
        a.valid(),
        b.valid(),
    ensures
        0 <= action_number(side, a) < 8100,
        action_number(side, a) == action_number(side, b) ==> a == b,
{
    lemma_action_digits(side, a);
    lemma_action_digits(side, b);
}

/// The squares of a move can be read off its number.
proof fn lemma_action_digits(side: Color, mv: Move)
    requires
        mv.valid(),
    ensures
        0 <= action_number(side, mv) < 8100,
        mv.from.x == (action_number(side, mv) / 90) % 9,
        seen_rank(side, mv.from.y as int) == (action_number(side, mv) / 90) / 9,
        mv.to.x == (action_number(side, mv) % 90) % 9,
        seen_rank(side, mv.to.y as int) == (action_number(side, mv) % 90) / 9,
{
    let s = seen_square(side, mv.from);
    let t = seen_square(side, mv.to);
    assert(0 <= s < 90);
    assert(0 <= t < 90);
    assert(action_number(side, mv) / 90 == s);
    assert(action_number(side, mv) % 90 == t);
}

/// Black sees a move as Red sees its mirror image.
pub proof fn law_action_numbers_mirror(mv: Move, mirrored: Move)
    requires
        mirrored.from.x == mv.from.x,
        mirrored.to.x == mv.to.x,
        mirrored.from.y == 9 - mv.from.y,
        mirrored.to.y == 9 - mv.to.y,
    ensures
        action_number(Color::Black, mv) == action_number(Color::Red, mirrored),
{
}

/// Frames before the start of the game are empty: no cell of their planes is set.
pub proof fn law_missing_frames_are_empty(history: Seq<PieceIndexBoard>, side: Color, i: int)
    requires
        0 <= i < 8820,
        ((i / 90) % 49) / 7 < 7 - history.len(),
    ensures
        piece_cell(history, side, i) == 0,
{
}

} // verus!

//! Positions and moves as seen from the side to move, and games as stacks of planes.

use vstd::prelude::*;

use crate::kernel::constants::{ACTION_SPACE_SIZE, BOARD_HEIGHT, N_HISTORY, NO_CAPTURE_DRAW_PLIES};
use crate::kernel::game::{GameState, GameView};
use crate::kernel::position::Position;
use crate::kernel::setup::Setup;
use crate::kernel::types::{
    action_id_to_move, action_number, count_true, law_action_numbers, law_moves_numbered, lemma_count_none,
    lemma_count_one_more, move_numbered, move_to_action_id, Color, Move, PieceKind,
};

verus! {

/// The order of the kinds within the planes of one side.
pub open spec fn kind_order(kind: PieceKind) -> int {
    match kind {
        PieceKind::King => 0,
        PieceKind::Rook => 1,
        PieceKind::Horse => 2,
        PieceKind::Cannon => 3,
        PieceKind::Advisor => 4,
        PieceKind::Elephant => 5,
        PieceKind::Pawn => 6,
    }
}

pub fn kind_index(kind: PieceKind) -> (r: usize)
    ensures
        r == kind_order(kind),
        r < 7,
{
    match kind {
        PieceKind::King => 0,
        PieceKind::Rook => 1,
        PieceKind::Horse => 2,
        PieceKind::Cannon => 3,
        PieceKind::Advisor => 4,
        PieceKind::Elephant => 5,
        PieceKind::Pawn => 6,
    }
}

/// Rank `y` as seen from `perspective`: Black sees the board upside down.
pub open spec fn seen_rank(y: int, perspective: Color) -> int {
    match perspective {
        Color::Black => 9 - y,
        Color::Red => y,
    }
}

/// A move as seen from `perspective`.
pub open spec fn seen_move(mv: Move, perspective: Color) -> Move {
    Move {
        sx: mv.sx,
        sy: seen_rank(mv.sy as int, perspective) as i32,
        tx: mv.tx,
        ty: seen_rank(mv.ty as int, perspective) as i32,
    }
}

fn flip_y(y: i32) -> (r: i32)
    requires
        9 - y <= i32::MAX,
    ensures
        r == 9 - y,
{
    BOARD_HEIGHT as i32 - 1 - y
}

/// A square as seen from `perspective`, and back.
pub fn canonical_square(x: i32, y: i32, perspective: Color) -> (r: (i32, i32))
    requires
        seen_rank(y as int, perspective) <= i32::MAX,
    ensures
        r.0 == x,
        r.1 == seen_rank(y as int, perspective),
{
    match perspective {
        Color::Black => (x, flip_y(y)),
        Color::Red => (x, y),
    }
}

/// A move as seen from `perspective`, and back.
pub fn canonical_move(mv: Move, perspective: Color) -> (r: Move)
    requires
        seen_rank(mv.sy as int, perspective) <= i32::MAX,
        seen_rank(mv.ty as int, perspective) <= i32::MAX,
    ensures
        r == seen_move(mv, perspective),
{
    let (sx, sy) = canonical_square(mv.sx, mv.sy, perspective);
    let (tx, ty) = canonical_square(mv.tx, mv.ty, perspective);
    Move::new(sx, sy, tx, ty)
}

/// The number of the action that plays `mv`, as seen from `perspective`.
pub fn to_canonical_action(mv: Move, perspective: Color) -> (r: usize)
    requires
        0 <= mv.sx,
        0 <= mv.tx,
        0 <= seen_rank(mv.sy as int, perspective) <= i32::MAX,
        0 <= seen_rank(mv.ty as int, perspective) <= i32::MAX,
        action_number(seen_move(mv, perspective)) <= usize::MAX,
    ensures
        r == action_number(seen_move(mv, perspective)),
{
    move_to_action_id(canonical_move(mv, perspective))
}

/// The move of an action as seen from `perspective`.
pub fn from_canonical_action(action_id: usize, perspective: Color) -> (r: Move)
    requires
        action_id < ACTION_SPACE_SIZE,
    ensures
        r.on_board(),
        action_number(seen_move(r, perspective)) == action_id,
{
    let mv = action_id_to_move(action_id);
    let r = canonical_move(mv, perspective);
    proof {
        law_seen_twice(mv, perspective);
    }
    r
}

/// Seeing a move from a perspective twice gives the move back, and a move on the board stays on it.
pub proof fn law_seen_twice(mv: Move, perspective: Color)
    requires
        mv.on_board(),
    ensures
        seen_move(mv, perspective).on_board(),
        seen_move(seen_move(mv, perspective), perspective) == mv,
{
}

/// Red sees every move, and so every action number, as it is.
pub proof fn law_red_sees_plainly(mv: Move)
    ensures
        seen_move(mv, Color::Red) == mv,
{
}

/// From either perspective, distinct moves on the board have distinct action numbers within the
/// action space; with their contracts this makes the two canonical conversions inverse to each
/// other.
pub proof fn law_canonical_actions(a: Move, b: Move, perspective: Color)
    requires
        a.on_board(),
        b.on_board(),
    ensures
        0 <= action_number(seen_move(a, perspective)) < ACTION_SPACE_SIZE,
        action_number(seen_move(a, perspective)) == action_number(seen_move(b, perspective)) ==> a
            == b,
{
    law_seen_twice(a, perspective);
    law_seen_twice(b, perspective);
    law_action_numbers(seen_move(a, perspective), seen_move(b, perspective));
}

/// For each action as seen from the side to move whether it is legal.
pub fn legal_mask(position: &Position) -> (r: Vec<bool>)
    requires
        position@.wf(),
        position@.all_judgeable(),
    ensures
        r@.len() == ACTION_SPACE_SIZE,
        forall|mv: Move|
            mv.on_board() ==> #[trigger] r@[action_number(seen_move(mv, position@.side))]
                == position@.legal(mv),
        forall|id: int|
            0 <= id < ACTION_SPACE_SIZE ==> #[trigger] r@[id] == position@.legal_list().contains(
                seen_move(move_numbered(id), position@.side),
            ),
        count_true(r@) == position@.legal_list().len(),
{
    let perspective = position.side_to_move;
    let moves = position.legal_moves();
    proof {
        assert forall|j: int| 0 <= j < moves@.len() implies (#[trigger] moves@[j]).on_board() by {
            assert(moves@.contains(moves@[j]));
        }
    }
    let mut mask: Vec<bool> = vec![false; ACTION_SPACE_SIZE];
    proof {
        lemma_count_none(mask@);
    }
    let mut i: usize = 0;
    while i < moves.len()
        invariant
            i <= moves@.len(),
            perspective == position@.side,
            mask@.len() == ACTION_SPACE_SIZE,
            moves@.no_duplicates(),
            count_true(mask@) == i,
            forall|j: int| 0 <= j < moves@.len() ==> (#[trigger] moves@[j]).on_board(),
            forall|mv: Move|
                mv.on_board() ==> #[trigger] mask@[action_number(seen_move(mv, perspective))]
                    == moves@.take(i as int).contains(mv),
        decreases moves@.len() - i,
    {
        let mv = moves[i];
        let ghost before = mask@;
        proof {
            law_canonical_actions(mv, mv, perspective);
        }
        let id: usize = to_canonical_action(mv, perspective);
        mask[id] = true;
        proof {
            let done = moves@.take(i as int);
            assert(moves@.take(i + 1) =~= done.push(mv));
            assert(!done.contains(mv));
            let k = action_number(seen_move(mv, perspective));
            assert(!before[k]);
            assert(mask@ =~= before.update(k, true));
            lemma_count_one_more(before, k);
            assert forall|m: Move| m.on_board() implies #[trigger] mask@[action_number(
                seen_move(m, perspective),
            )] == moves@.take(i + 1).contains(m) by {
                law_canonical_actions(m, mv, perspective);
                vstd::seq_lib::lemma_seq_contains_after_push(done, mv, m);
                assert(before[action_number(seen_move(m, perspective))] == done.contains(m));
            }
        }
        i += 1;
    }
    proof {
        assert(moves@.take(moves@.len() as int) =~= moves@);
        assert forall|id: int| 0 <= id < ACTION_SPACE_SIZE implies #[trigger] mask@[id]
            == moves@.contains(seen_move(move_numbered(id), perspective)) by {
            law_moves_numbered(id);
            law_seen_twice(move_numbered(id), perspective);
            let mv = seen_move(move_numbered(id), perspective);
            assert(mask@[action_number(seen_move(mv, perspective))] == moves@.contains(mv));
        }
    }
    mask
}

/// The plies since the last capture, at most the number that draws the game.
pub open spec fn capped_quiet(s: Setup) -> u8 {
    if s.quiet < 100 {
        s.quiet as u8
    } else {
        100
    }
}

/// Cell `i` of the planes, in hundredths. Of the 99 planes, each frame of fourteen shows the own
/// pieces by kind and then those of the other side; frame 0 is the current position, later frames
/// go back in time, and frames before the start of the game are empty. The last plane shows the
/// plies since the last capture.
pub open spec fn plane_cell(g: GameView, i: int) -> u8 {
    let channel = i / 90;
    let side = g.position.side;
    if channel == 98 {
        capped_quiet(g.position)
    } else {
        let frame = channel / 14;
        let own = channel % 14 < 7;
        let kind = (channel % 14) % 7;
        let sq = (i % 9, seen_rank((i % 90) / 9, side));
        if frame <= g.history.len() {
            let s = g.position_at(g.history.len() - frame);
            if s.cells.contains_key(sq) && (s.cells[sq].color == side) == own && kind_order(
                s.cells[sq].kind,
            ) == kind {
                100
            } else {
                0
            }
        } else {
            0
        }
    }
}

spec fn visited(i: int, f: int, k: int) -> bool {
    let frame = (i / 90) / 14;
    frame < f || (frame == f && i % 90 < k)
}

/// The cells of one frame and square.
proof fn lemma_frame_cell(g: GameView, f: int, k: int, idx: int)
    requires
        0 <= f < 7,
        0 <= k < 90,
        f <= g.history.len(),
    ensures
        ({
            let side = g.position.side;
            let sq = (k % 9, seen_rank(k / 9, side));
            let s = g.position_at(g.history.len() - f);
            let there = s.cells.contains_key(sq);
            &&& there && idx == (f * 14 + (if s.cells[sq].color == side {
                0int
            } else {
                7
            }) + kind_order(s.cells[sq].kind)) * 90 + k ==> 0 <= idx < 8820 && plane_cell(g, idx)
                == 100 && !visited(idx, f, k) && visited(idx, f, k + 1) && forall|i: int|
                0 <= i < 8820 && #[trigger] visited(i, f, k + 1) && !visited(i, f, k) && i != idx
                    ==> plane_cell(g, i) == 0
            &&& !there ==> forall|i: int|
                0 <= i < 8820 && #[trigger] visited(i, f, k + 1) && !visited(i, f, k)
                    ==> plane_cell(g, i) == 0
        }),
{
    let side = g.position.side;
    let sq = (k % 9, seen_rank(k / 9, side));
    let s = g.position_at(g.history.len() - f);
    assert forall|i: int| 0 <= i < 8820 && #[trigger] visited(i, f, k + 1) && !visited(
        i,
        f,
        k,
    ) implies i % 90 == k && (i / 90) / 14 == f && i % 9 == k % 9 && i / 90 == f * 14 + (i / 90)
        % 14 && (i % 9, seen_rank((i % 90) / 9, side)) == sq by {}
    if s.cells.contains_key(sq) && idx == (f * 14 + (if s.cells[sq].color == side {
        0int
    } else {
        7
    }) + kind_order(s.cells[sq].kind)) * 90 + k {
        let c = (if s.cells[sq].color == side {
            0int
        } else {
            7
        }) + kind_order(s.cells[sq].kind);
        assert(idx / 90 == f * 14 + c);
        assert(idx % 90 == k);
        assert(idx % 9 == k % 9);
        assert((idx / 90) / 14 == f);
        assert((idx / 90) % 14 == c);
        assert forall|i: int|
            0 <= i < 8820 && #[trigger] visited(i, f, k + 1) && !visited(i, f, k) && i
                != idx implies plane_cell(g, i) == 0 by {
            let d = (i / 90) % 14;
            assert(i == (f * 14 + d) * 90 + k);
            assert(d != c);
        }
    }
}

/// Encodes a game from the view of the side to move, in hundredths.
pub fn encode(state: &GameState) -> (r: Vec<u8>)
    ensures
        r@.len() == 8910,
        forall|i: int| 0 <= i < 8910 ==> #[trigger] r@[i] == plane_cell(state@, i),
{
    let ghost g = state@;
    let perspective = state.position.side_to_move;
    let n: usize = state.history.len();
    let mut tensor: Vec<u8> = vec![0u8; 8910];
    let mut f: usize = 0;
    while f < N_HISTORY
        invariant
            f <= 7,
            g == state@,
            n == g.history.len(),
            perspective == g.position.side,
            tensor@.len() == 8910,
            forall|i: int|
                0 <= i < 8820 ==> #[trigger] tensor@[i] == if visited(i, f as int, 0) {
                    plane_cell(g, i)
                } else {
                    0
                },
        decreases 7 - f,
    {
        if f <= n {
            encode_frame_into(&mut tensor, state, perspective, f);
        } else {
            proof {
                assert forall|i: int| 0 <= i < 8820 implies #[trigger] tensor@[i] == if visited(
                    i,
                    f as int,
                    90,
                ) {
                    plane_cell(g, i)
                } else {
                    0
                } by {}
            }
        }
        proof {
            assert forall|i: int| 0 <= i < 8820 implies visited(i, f as int, 90) == #[trigger] visited(
                i,
                f + 1,
                0,
            ) by {}
            assert forall|i: int| 0 <= i < 8820 implies #[trigger] tensor@[i] == if visited(
                i,
                f + 1,
                0,
            ) {
                plane_cell(g, i)
            } else {
                0
            } by {
                assert(visited(i, f as int, 90) == visited(i, f + 1, 0));
            }
        }
        f += 1;
    }
    proof {
        assert forall|i: int| 0 <= i < 8820 implies visited(i, 7, 0) by {}
        assert forall|i: int| 0 <= i < 8820 implies #[trigger] tensor@[i] == plane_cell(g, i) by {
            assert(visited(i, 7, 0));
        }
    }
    let quiet: u32 = state.position.no_capture_plies;
    let ratio: u8 = if quiet < NO_CAPTURE_DRAW_PLIES {
        quiet as u8
    } else {
        100
    };
    let mut i: usize = 8820;
    while i < 8910
        invariant
            8820 <= i <= 8910,
            g == state@,
            tensor@.len() == 8910,
            ratio == capped_quiet(g.position),
            forall|j: int| 0 <= j < i ==> #[trigger] tensor@[j] == plane_cell(g, j),
        decreases 8910 - i,
    {
        tensor[i] = ratio;
        i += 1;
    }
    tensor
}

/// Sets the cells of frame `f`, which shows the position `f` plies ago.
fn encode_frame_into(tensor: &mut Vec<u8>, state: &GameState, perspective: Color, f: usize)
    requires
        f < 7,
        f <= state@.history.len(),
        perspective == state@.position.side,
        old(tensor)@.len() == 8910,
        forall|i: int|
            0 <= i < 8820 ==> #[trigger] old(tensor)@[i] == if visited(i, f as int, 0) {
                plane_cell(state@, i)
            } else {
                0
            },
    ensures
        final(tensor)@.len() == 8910,
        forall|i: int|
            0 <= i < 8820 ==> #[trigger] final(tensor)@[i] == if visited(i, f as int, 90) {
                plane_cell(state@, i)
            } else {
                0
            },
{
    let ghost g = state@;
    let n: usize = state.history.len();
    let position: &Position = if f == 0 {
        &state.position
    } else {
        &state.history[n - f].position_before
    };
    assert(position@ == g.position_at(g.history.len() - f));
    let mut k: usize = 0;
    while k < 90
        invariant
            k <= 90,
            f < 7,
            f <= g.history.len(),
            g == state@,
            perspective == g.position.side,
            position@ == g.position_at(g.history.len() - f),
            tensor@.len() == 8910,
            forall|i: int|
                0 <= i < 8820 ==> #[trigger] tensor@[i] == if visited(i, f as int, k as int) {
                    plane_cell(g, i)
                } else {
                    0
                },
        decreases 90 - k,
    {
        let x: usize = k % 9;
        let y: usize = k / 9;
        let source: usize = match perspective {
            Color::Red => y,
            Color::Black => 9 - y,
        };
        let ghost sq = (x as int, seen_rank(y as int, perspective));
        let ghost before = tensor@;
        match position.board[source][x] {
            Some(piece) => {
                let side: usize = if piece.color == perspective {
                    0
                } else {
                    7
                };
                let channel: usize = f * 14 + side + kind_index(piece.kind);
                let idx: usize = channel * 90 + y * 9 + x;
                proof {
                    assert(position@.cells.contains_key(sq));
                    assert(position@.cells[sq] == piece);
                    assert(idx == channel * 90 + k);
                    lemma_frame_cell(g, f as int, k as int, idx as int);
                }
                tensor[idx] = 100;
            },
            None => {
                proof {
                    assert(!position@.cells.contains_key(sq));
                    lemma_frame_cell(g, f as int, k as int, 0);
                }
            },
        }
        proof {
            assert forall|i: int| 0 <= i < 8820 implies #[trigger] tensor@[i] == if visited(
                i,
                f as int,
                k + 1,
            ) {
                plane_cell(g, i)
            } else {
                0
            } by {
                assert(before[i] == if visited(i, f as int, k as int) {
                    plane_cell(g, i)
                } else {
                    0
                });
            }
        }
        k += 1;
    }
}

/// Frames before the start of the game are empty.
pub proof fn law_missing_frames_are_empty(g: GameView, i: int)
    requires
        0 <= i < 8820,
        (i / 90) / 14 > g.history.len(),
    ensures
        plane_cell(g, i) == 0,
{
}

} // verus!

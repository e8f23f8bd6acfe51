//! What can be read off the planes and the action numbers.

use vstd::prelude::*;

use crate::kernel::encode::{plane_cell, seen_move};
use crate::kernel::game::GameView;
use crate::kernel::types::{action_number, Color, Move, PieceKind};

verus! {

/// The rank at which a player sees rank `y`: Black sits on the other side of the board.
pub open spec fn rank_seen(side: Color, y: int) -> int {
    match side {
        Color::Red => y,
        Color::Black => 9 - y,
    }
}

/// Of each frame the first seven planes show the own men and the next seven those of the other side,
/// each seven in the order king, rook, horse, cannon, advisor, elephant, pawn. A cell is full exactly
/// where such a man stood as many moves ago as the frame's number.
pub proof fn law_planes_show_men(g: GameView, f: int, kind: PieceKind, own: bool, x: int, y: int)
    requires
        0 <= f < 7,
        f <= g.history.len(),
        0 <= x <= 8,
        0 <= y <= 9,
    ensures
        ({
            let n: int = match kind {
                PieceKind::King => 0,
                PieceKind::Rook => 1,
                PieceKind::Horse => 2,
                PieceKind::Cannon => 3,
                PieceKind::Advisor => 4,
                PieceKind::Elephant => 5,
                PieceKind::Pawn => 6,
            };
            let plane = 14 * f + n + if own {
                0int
            } else {
                7
            };
            let side = g.position.side;
            let s = g.position_at(g.history.len() - f);
            plane_cell(g, plane * 90 + rank_seen(side, y) * 9 + x) == if s.cells.contains_key((x, y))
                && s.cells[(x, y)].kind == kind && (s.cells[(x, y)].color == side) == own {
                100u8
            } else {
                0
            }
        }),
{
    let n: int = match kind {
        PieceKind::King => 0,
        PieceKind::Rook => 1,
        PieceKind::Horse => 2,
        PieceKind::Cannon => 3,
        PieceKind::Advisor => 4,
        PieceKind::Elephant => 5,
        PieceKind::Pawn => 6,
    };
    let half: int = if own {
        0
    } else {
        7
    };
    let c = 14 * f + n + half;
    let r = rank_seen(g.position.side, y);
    let i = c * 90 + r * 9 + x;
    lemma_cell(c, r, x);
    assert(c / 14 == f && c % 14 == n + half);
    assert((c % 14) % 7 == n);
}

proof fn lemma_cell(c: int, r: int, x: int)
    requires
        0 <= c < 99,
        0 <= r <= 9,
        0 <= x <= 8,
    ensures
        (c * 90 + r * 9 + x) / 90 == c,
        (c * 90 + r * 9 + x) % 90 == r * 9 + x,
        ((c * 90 + r * 9 + x) % 90) / 9 == r,
        (c * 90 + r * 9 + x) % 9 == x,
{
}

/// What a player sees on a square: whether the man there is an own one, and its kind.
pub open spec fn sight(g: GameView, ago: int, x: int, y: int) -> Option<(bool, PieceKind)> {
    let s = g.position_at(g.history.len() - ago);
    let at = (x, rank_seen(g.position.side, y));
    if s.cells.contains_key(at) {
        Some((s.cells[at].color == g.position.side, s.cells[at].kind))
    } else {
        None
    }
}

/// The boards can be read back from the planes: where the cells of a frame agree for two games, their
/// players see the same men on the same squares.
pub proof fn law_boards_read_back(g: GameView, h: GameView, f: int, x: int, y: int)
    requires
        0 <= f < 7,
        f <= g.history.len(),
        f <= h.history.len(),
        0 <= x <= 8,
        0 <= y <= 9,
        forall|i: int|
            1260 * f <= i < 1260 * (f + 1) ==> #[trigger] plane_cell(g, i) == plane_cell(h, i),
    ensures
        sight(g, f, x, y) == sight(h, f, x, y),
{
    let gy = rank_seen(g.position.side, y);
    let hy = rank_seen(h.position.side, y);
    assert forall|kind: PieceKind, own: bool|
        (sight(g, f, x, y) == Some((own, kind))) == (sight(h, f, x, y) == Some((own, kind))) by {
        law_planes_show_men(g, f, kind, own, x, gy);
        law_planes_show_men(h, f, kind, own, x, hy);
        let n: int = match kind {
            PieceKind::King => 0,
            PieceKind::Rook => 1,
            PieceKind::Horse => 2,
            PieceKind::Cannon => 3,
            PieceKind::Advisor => 4,
            PieceKind::Elephant => 5,
            PieceKind::Pawn => 6,
        };
        let plane = 14 * f + n + if own {
            0int
        } else {
            7
        };
        let i = plane * 90 + y * 9 + x;
        assert(plane_cell(g, i) == plane_cell(h, i));
    }
    if let Some((own, kind)) = sight(g, f, x, y) {
        assert((sight(g, f, x, y) == Some((own, kind))) == (sight(h, f, x, y) == Some((own, kind))));
    }
    if let Some((own, kind)) = sight(h, f, x, y) {
        assert((sight(g, f, x, y) == Some((own, kind))) == (sight(h, f, x, y) == Some((own, kind))));
    }
}

/// The last plane shows in every cell the plies since the last capture, a hundred at most.
pub proof fn law_last_plane_shows_quiet_plies(g: GameView, j: int)
    requires
        0 <= j < 90,
    ensures
        g.position.quiet <= 100 ==> plane_cell(g, 8820 + j) == g.position.quiet,
        g.position.quiet > 100 ==> plane_cell(g, 8820 + j) == 100,
{
    assert((8820 + j) / 90 == 98);
}

/// The number of an action: with squares counted along the ranks from the player's far side, ninety
/// times the source and then the target.
pub proof fn law_action_formula(mv: Move, perspective: Color)
    requires
        mv.on_board(),
    ensures
        action_number(seen_move(mv, perspective)) == 810 * rank_seen(perspective, mv.sy as int) + 90
            * mv.sx + 9 * rank_seen(perspective, mv.ty as int) + mv.tx,
        action_number(mv) == 810 * mv.sy + 90 * mv.sx + 9 * mv.ty + mv.tx,
{
}

} // verus!

//! What can be read off the planes and the action numbers of the mutable board.

use vstd::prelude::*;

use crate::engine::encode::{action_number, piece_cell};
use crate::engine::game::Play;
use crate::engine::types::{Color, Move, Piece, PieceKind};

verus! {

/// The rank at which a player sees rank `y`: Black sits on the other side of the board.
pub open spec fn rank_seen(side: Color, y: int) -> int {
    match side {
        Color::Red => y,
        Color::Black => 9 - y,
    }
}

/// The order of the kinds: king, advisor, elephant, horse, rook, cannon, pawn.
pub open spec fn kind_place(kind: PieceKind) -> int {
    match kind {
        PieceKind::King => 0,
        PieceKind::Advisor => 1,
        PieceKind::Elephant => 2,
        PieceKind::Horse => 3,
        PieceKind::Rook => 4,
        PieceKind::Cannon => 5,
        PieceKind::Pawn => 6,
    }
}

/// The types of men are numbered from 1 on in the order of their kinds, Red before Black.
pub proof fn law_type_numbers(p: Piece, q: Piece)
    ensures
        p.number() == kind_place(p.kind) + 1 + if p.color == Color::Red {
            0int
        } else {
            7
        },
        p.number() == q.number() <==> p.color == q.color && p.kind == q.kind,
        1 <= p.number() <= 14,
{
}

/// The planes show the own men in seven frames and then those of the other side in seven frames, each
/// frame a plane for each kind; the sixth frame is the current board. A cell is full exactly where
/// such a man stood on the board of the frame.
pub proof fn law_planes_show_men(p: Play, f: int, kind: PieceKind, own: bool, x: int, y: int)
    requires
        p.wf(),
        0 <= f <= 6,
        6 - f <= p.infos.len(),
        0 <= x <= 8,
        0 <= y <= 9,
    ensures
        ({
            let plane = 7 * f + kind_place(kind) + if own {
                0int
            } else {
                49
            };
            let side = p.board.side;
            let l = p.layout_at(p.infos.len() - 6 + f);
            piece_cell(p.history, side, plane * 90 + rank_seen(side, y) * 9 + x)
                == if l.cells.contains_key((x, y)) && l.cells[(x, y)].kind == kind && (l.cells[(
                x,
                y,
            )].color == side) == own {
                1u8
            } else {
                0
            }
        }),
{
    let half: int = if own {
        0
    } else {
        49
    };
    let c = 7 * f + kind_place(kind) + half;
    let r = rank_seen(p.board.side, y);
    let i = c * 90 + r * 9 + x;
    lemma_cell(c, r, x);
    assert(c / 49 == 0 <==> own);
    assert((c % 49) / 7 == f && c % 7 == kind_place(kind)) by {
        assert(c % 49 == 7 * f + kind_place(kind));
    }
    let n = p.infos.len() - 6 + f;
    let l = p.layout_at(n);
    let b = p.history[n];
    assert(crate::engine::board::index_board(l.cells, b));
    assert(b@[y]@[x] == crate::engine::board::index_at(l.cells, x, y));
    assert(p.history.len() - 7 + f == n);
    if l.cells.contains_key((x, y)) {
        let q = l.cells[(x, y)];
        law_type_numbers(q, q);
    }
}

proof fn lemma_cell(c: int, r: int, x: int)
    requires
        0 <= c < 98,
        0 <= r <= 9,
        0 <= x <= 8,
    ensures
        (c * 90 + r * 9 + x) / 90 == c,
        (c * 90 + r * 9 + x) % 90 == r * 9 + x,
        ((c * 90 + r * 9 + x) % 90) / 9 == r,
        (c * 90 + r * 9 + x) % 9 == x,
{
}

/// What a player sees on a square of the board `ago` moves back: whether the man there is an own one,
/// and its kind.
pub open spec fn sight(p: Play, ago: int, x: int, y: int) -> Option<(bool, PieceKind)> {
    let l = p.layout_at(p.infos.len() - ago);
    let at = (x, rank_seen(p.board.side, y));
    if l.cells.contains_key(at) {
        Some((l.cells[at].color == p.board.side, l.cells[at].kind))
    } else {
        None
    }
}

/// The boards can be read back from the planes: where the planes agree for two games, their players
/// see the same men on the same squares.
pub proof fn law_boards_read_back(p: Play, q: Play, ago: int, x: int, y: int)
    requires
        p.wf(),
        q.wf(),
        0 <= ago <= 6,
        ago <= p.infos.len(),
        ago <= q.infos.len(),
        0 <= x <= 8,
        0 <= y <= 9,
        forall|i: int|
            0 <= i < 8820 ==> #[trigger] piece_cell(p.history, p.board.side, i) == piece_cell(
                q.history,
                q.board.side,
                i,
            ),
    ensures
        sight(p, ago, x, y) == sight(q, ago, x, y),
{
    let py = rank_seen(p.board.side, y);
    let qy = rank_seen(q.board.side, y);
    let f = 6 - ago;
    assert forall|kind: PieceKind, own: bool|
        (sight(p, ago, x, y) == Some((own, kind))) == (sight(q, ago, x, y) == Some((own, kind))) by {
        law_planes_show_men(p, f, kind, own, x, py);
        law_planes_show_men(q, f, kind, own, x, qy);
        let plane = 7 * f + kind_place(kind) + if own {
            0int
        } else {
            49
        };
        let i = plane * 90 + y * 9 + x;
        assert(piece_cell(p.history, p.board.side, i) == piece_cell(q.history, q.board.side, i));
    }
    if let Some((own, kind)) = sight(p, ago, x, y) {
        assert((sight(p, ago, x, y) == Some((own, kind))) == (sight(q, ago, x, y) == Some(
            (own, kind),
        )));
    }
    if let Some((own, kind)) = sight(q, ago, x, y) {
        assert((sight(p, ago, x, y) == Some((own, kind))) == (sight(q, ago, x, y) == Some(
            (own, kind),
        )));
    }
}

/// The number of an action: with squares counted along the ranks from the player's far side, ninety
/// times the source and then the target.
pub proof fn law_action_formula(mv: Move, side: Color)
    ensures
        action_number(side, mv) == 810 * rank_seen(side, mv.from.y as int) + 90 * mv.from.x + 9
            * rank_seen(side, mv.to.y as int) + mv.to.x,
{
}

} // verus!

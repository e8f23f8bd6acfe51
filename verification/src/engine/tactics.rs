//! Attacks, checks and legal moves on the model of a board.

use vstd::prelude::*;

use crate::engine::layout::{nth_square, Layout};
use crate::engine::types::{Color, Move, PieceKind, Position};
use crate::grid::{
    dist, forward, in_line, lemma_targets_exact, men_between, moves_to, on_board, over_river,
    palace, targets, vacant, Grid, Sweep,
};

verus! {

#[derive(Debug, Clone, Copy, PartialEq, Eq, Structural)]
pub enum MoveValidationReason {
    OutsideBoard,
    NoPiece,
    WrongSide,
    CaptureOwnPiece,
    InvalidPieceMove,
    KingsFace,
    LeavesKingInCheck,
}

impl MoveValidationReason {
    pub open spec fn name(self) -> Seq<char> {
        match self {
            MoveValidationReason::OutsideBoard => "outside_board"@,
            MoveValidationReason::NoPiece => "no_piece"@,
            MoveValidationReason::WrongSide => "wrong_side"@,
            MoveValidationReason::CaptureOwnPiece => "capture_own_piece"@,
            MoveValidationReason::InvalidPieceMove => "invalid_piece_move"@,
            MoveValidationReason::KingsFace => "kings_face"@,
            MoveValidationReason::LeavesKingInCheck => "leaves_king_in_check"@,
        }
    }

    pub fn as_str(self) -> (r: &'static str)
        ensures
            r@ == self.name(),
    {
        match self {
            MoveValidationReason::OutsideBoard => "outside_board",
            MoveValidationReason::NoPiece => "no_piece",
            MoveValidationReason::WrongSide => "wrong_side",
            MoveValidationReason::CaptureOwnPiece => "capture_own_piece",
            MoveValidationReason::InvalidPieceMove => "invalid_piece_move",
            MoveValidationReason::KingsFace => "kings_face",
            MoveValidationReason::LeavesKingInCheck => "leaves_king_in_check",
        }
    }
}

/// The man of `color` on `(ax, ay)` attacks `(tx, ty)`, whatever stands there: it could capture a man
/// of the other side on it. Kings and advisors attack within their palace only, elephants on their
/// own side of the river; a horse is blocked by a man on the square next to it, on the side of the
/// target.
pub open spec fn attacks(g: Grid, color: Color, ax: int, ay: int, tx: int, ty: int) -> bool {
    let dx = dist(ax, tx);
    let dy = dist(ay, ty);
    &&& on_board(ax, ay)
    &&& !vacant(g, ax, ay)
    &&& g[(ax, ay)].color == color
    &&& match g[(ax, ay)].kind {
        PieceKind::King => dx + dy == 1 && palace(color, tx, ty),
        PieceKind::Rook => in_line(tx, ty, ax, ay) && men_between(g, tx, ty, ax, ay) == 0,
        PieceKind::Cannon => in_line(tx, ty, ax, ay) && men_between(g, tx, ty, ax, ay) == 1,
        PieceKind::Horse => {
            ||| dx == 1 && dy == 2 && vacant(g, ax, (ay + ty) / 2)
            ||| dx == 2 && dy == 1 && vacant(g, (ax + tx) / 2, ay)
        },
        PieceKind::Pawn => {
            ||| ax == tx && ty == ay + forward(color)
            ||| ay == ty && dx == 1 && over_river(color, ay)
        },
        PieceKind::Advisor => dx == 1 && dy == 1 && palace(color, tx, ty),
        PieceKind::Elephant => dx == 2 && dy == 2 && !over_river(color, ty) && vacant(
            g,
            (ax + tx) / 2,
            (ay + ty) / 2,
        ),
    }
}

/// The squares are equal or share a rank or file with nothing between them.
pub open spec fn open_line(g: Grid, a: Position, b: Position) -> bool {
    (a.x == b.x || a.y == b.y) && men_between(
        g,
        a.x as int,
        a.y as int,
        b.x as int,
        b.y as int,
    ) == 0
}

impl Layout {
    /// Some man of the other side attacks the king of `color`.
    pub open spec fn king_attacked(self, color: Color) -> bool {
        let k = self.king(color);
        exists|ax: int, ay: int| #[trigger]
            attacks(self.grid(), color.opposite(), ax, ay, k.x as int, k.y as int)
    }

    /// The king of `color` is attacked, or faces the other king along an open line.
    pub open spec fn in_check(self, color: Color) -> bool {
        self.king_attacked(color) || open_line(
            self.grid(),
            self.king(color),
            self.king(color.opposite()),
        )
    }

    /// The man of `color` on `(ax, ay)` attacks `to` and may take there without leaving its own
    /// king in check.
    pub open spec fn may_attack(self, color: Color, ax: int, ay: int, to: Position) -> bool {
        &&& attacks(self.grid(), color, ax, ay, to.x as int, to.y as int)
        &&& !self.after(hop(ax, ay, to)).in_check(color)
    }

    /// `mv` follows the way of moving of a piece of `color` (of either side, if `None`) and does
    /// not capture a piece of its own side.
    pub open spec fn pseudo_legal(self, mv: Move, color: Option<Color>) -> bool {
        &&& mv.valid()
        &&& self.cells.contains_key(mv.from.at())
        &&& color is Some ==> self.mover(mv).color == color.unwrap()
        &&& moves_to(
            self.grid(),
            self.mover(mv).man(),
            mv.from.x as int,
            mv.from.y as int,
            mv.to.x as int,
            mv.to.y as int,
        )
    }

    /// Whether `mv` can be judged: making it does not overflow the counters.
    pub open spec fn judgeable(self, mv: Move, color: Option<Color>) -> bool {
        self.pseudo_legal(mv, color) ==> self.counts_fit(mv)
    }

    /// Why `mv` is refused, for the piece of `color` or of either side; `None` if it is legal.
    pub open spec fn refusal(self, mv: Move, color: Option<Color>) -> Option<MoveValidationReason> {
        if !mv.valid() {
            Some(MoveValidationReason::OutsideBoard)
        } else if !self.cells.contains_key(mv.from.at()) {
            Some(MoveValidationReason::NoPiece)
        } else if color is Some && self.mover(mv).color != color.unwrap() {
            Some(MoveValidationReason::WrongSide)
        } else if self.captured(mv) is Some && self.captured(mv).unwrap().color == self.mover(
            mv,
        ).color {
            Some(MoveValidationReason::CaptureOwnPiece)
        } else if !self.pseudo_legal(mv, color) {
            Some(MoveValidationReason::InvalidPieceMove)
        } else if self.after(mv).in_check(self.mover(mv).color) {
            Some(MoveValidationReason::LeavesKingInCheck)
        } else {
            None
        }
    }

    /// `mv` is legal for `color`.
    pub open spec fn legal(self, mv: Move, color: Color) -> bool {
        self.refusal(mv, Some(color)) is None
    }

    pub open spec fn leaves_safe(self, color: Color) -> spec_fn(Move) -> bool {
        |mv: Move| !self.after(mv).in_check(color)
    }

    /// The moves of the piece on `(x, y)`, the safety of its king left aside, in the order of the
    /// sweep.
    pub open spec fn pseudo_list(self, x: int, y: int, captures_only: bool) -> Seq<Move> {
        let man = self.cells[(x, y)].man();
        hops(x, y, targets(Sweep::NegativeFirst, self.grid(), man, x, y, captures_only))
    }

    /// The moves of the piece on `(x, y)` that leave its king safe, in the order of the sweep.
    pub open spec fn safe_moves(self, x: int, y: int, captures_only: bool) -> Seq<Move> {
        self.pseudo_list(x, y, captures_only).filter(self.leaves_safe(self.cells[(x, y)].color))
    }

    /// The legal moves of `color` from the first `n` squares.
    pub open spec fn legal_below(self, color: Color, captures_only: bool, n: nat) -> Seq<Move>
        decreases n,
    {
        if n == 0 {
            Seq::empty()
        } else {
            let s = nth_square(n - 1);
            let rest = self.legal_below(color, captures_only, (n - 1) as nat);
            if self.cells.contains_key(s) && self.cells[s].color == color {
                rest + self.safe_moves(s.0, s.1, captures_only)
            } else {
                rest
            }
        }
    }

    /// The legal moves of `color`, square by square from the top left.
    pub open spec fn legal_list(self, color: Color, captures_only: bool) -> Seq<Move> {
        self.legal_below(color, captures_only, 90)
    }

    /// Every move of `color` can be judged.
    pub open spec fn all_judgeable(self, color: Color) -> bool {
        forall|mv: Move| #[trigger] self.judgeable(mv, Some(color))
    }
}

/// The move from a square to a position.
pub open spec fn hop(ax: int, ay: int, to: Position) -> Move {
    Move { from: Position { x: ax as i8, y: ay as i8 }, to }
}

/// The moves from `(x, y)` to each of the given squares.
pub open spec fn hops(x: int, y: int, to: Seq<(i32, i32)>) -> Seq<Move> {
    to.map_values(|t: (i32, i32)| hop(x, y, Position { x: t.0 as i8, y: t.1 as i8 }))
}

/// The list of pseudo-legal moves of a piece holds each of them, and nothing else, once.
pub proof fn law_pseudo_list_exact(l: Layout, x: int, y: int, captures_only: bool)
    requires
        l.wf(),
        l.cells.contains_key((x, y)),
    ensures
        l.pseudo_list(x, y, captures_only).no_duplicates(),
        forall|mv: Move| #[trigger]
            l.pseudo_list(x, y, captures_only).contains(mv) <==> mv.from.at() == (x, y)
                && l.pseudo_legal(mv, Some(l.cells[(x, y)].color)) && (captures_only ==> l.captured(
                mv,
            ) is Some),
{
    let piece = l.cells[(x, y)];
    let to = targets(Sweep::NegativeFirst, l.grid(), piece.man(), x, y, captures_only);
    let all = l.pseudo_list(x, y, captures_only);
    assert(on_board(x, y));
    lemma_targets_exact(Sweep::NegativeFirst, l.grid(), piece.man(), x, y, captures_only);
    assert forall|i: int| 0 <= i < to.len() implies on_board(
        (#[trigger] to[i]).0 as int,
        to[i].1 as int,
    ) by {
        assert(to.contains(to[i]));
    }
    assert forall|i: int, j: int| 0 <= i < all.len() && 0 <= j < all.len() && i != j implies all[i]
        != all[j] by {
        assert(to[i] != to[j]);
    }
    assert forall|mv: Move| #[trigger] all.contains(mv) <==> mv.from.at() == (x, y)
        && l.pseudo_legal(mv, Some(piece.color)) && (captures_only ==> l.captured(mv) is Some) by {
        if all.contains(mv) {
            let j = choose|j: int| 0 <= j < all.len() && all[j] == mv;
            assert(to.contains(to[j]));
        }
        let t = (mv.to.x as i32, mv.to.y as i32);
        if mv.from.at() == (x, y) && to.contains(t) {
            let j = choose|j: int| 0 <= j < to.len() && to[j] == t;
            assert(all[j] == mv);
        }
    }
}

pub(crate) proof fn lemma_safe_moves(l: Layout, x: int, y: int, captures_only: bool)
    requires
        l.wf(),
        l.cells.contains_key((x, y)),
    ensures
        l.safe_moves(x, y, captures_only).no_duplicates(),
        forall|mv: Move| #[trigger]
            l.safe_moves(x, y, captures_only).contains(mv) <==> l.legal(
                mv,
                l.cells[(x, y)].color,
            ) && mv.from.at() == (x, y) && (captures_only ==> l.captured(mv) is Some),
{
    let piece = l.cells[(x, y)];
    let p = l.leaves_safe(piece.color);
    let all = l.pseudo_list(x, y, captures_only);
    law_pseudo_list_exact(l, x, y, captures_only);
    crate::grid::lemma_filter_no_duplicates(all, p);
    assert forall|mv: Move| #[trigger] l.safe_moves(x, y, captures_only).contains(mv) <==> l.legal(
        mv,
        piece.color,
    ) && mv.from.at() == (x, y) && (captures_only ==> l.captured(mv) is Some) by {
        if l.safe_moves(x, y, captures_only).contains(mv) {
            all.lemma_filter_contains_rev(p, mv);
            broadcast use vstd::seq_lib::group_filter_ensures;
            let i = choose|i: int| 0 <= i < all.filter(p).len() && all.filter(p)[i] == mv;
            assert(p(all.filter(p)[i]));
            assert(all.contains(mv));
        }
        if l.legal(mv, piece.color) && mv.from.at() == (x, y) && (captures_only ==> l.captured(mv)
            is Some) {
            assert(all.contains(mv));
            let j = choose|j: int| 0 <= j < all.len() && all[j] == mv;
            all.lemma_filter_contains(p, j);
        }
    }
}

pub(crate) proof fn lemma_legal_below(l: Layout, color: Color, captures_only: bool, n: nat)
    requires
        n <= 90,
        l.wf(),
    ensures
        l.legal_below(color, captures_only, n).no_duplicates(),
        forall|mv: Move| #[trigger]
            l.legal_below(color, captures_only, n).contains(mv) <==> l.legal(mv, color)
                && mv.from.number() < n && (captures_only ==> l.captured(mv) is Some),
    decreases n,
{
    if n > 0 {
        let m = (n - 1) as nat;
        let s = nth_square(m as int);
        lemma_legal_below(l, color, captures_only, m);
        let a = l.legal_below(color, captures_only, m);
        if l.cells.contains_key(s) && l.cells[s].color == color {
            lemma_safe_moves(l, s.0, s.1, captures_only);
            let b = l.safe_moves(s.0, s.1, captures_only);
            assert forall|mv: Move| #[trigger]
                l.legal_below(color, captures_only, n).contains(mv) <==> l.legal(mv, color)
                    && mv.from.number() < n && (captures_only ==> l.captured(mv) is Some) by {
                vstd::seq_lib::lemma_seq_concat_contains_all_elements(a, b, mv);
            }
            assert forall|i: int, j: int|
                0 <= i < (a + b).len() && 0 <= j < (a + b).len() && i != j implies (a + b)[i] != (a
                + b)[j] by {
                if i < a.len() && j >= a.len() {
                    assert(a.contains(a[i]));
                    assert(b.contains(b[j - a.len()]));
                } else if j < a.len() && i >= a.len() {
                    assert(a.contains(a[j]));
                    assert(b.contains(b[i - a.len()]));
                }
            }
        }
    }
}

/// The list of legal moves holds every legal move of `color`, and nothing else, once.
pub proof fn law_legal_list_exact(l: Layout, color: Color, captures_only: bool)
    requires
        l.wf(),
    ensures
        l.legal_list(color, captures_only).no_duplicates(),
        forall|mv: Move| #[trigger]
            l.legal_list(color, captures_only).contains(mv) <==> l.legal(mv, color) && (
            captures_only ==> l.captured(mv) is Some),
{
    lemma_legal_below(l, color, captures_only, 90);
}

/// The attackers of a square on which a man of the other side stands are those that have a
/// pseudo-legal capture there.
pub proof fn law_attackers_have_captures(
    g: Grid,
    color: Color,
    ax: int,
    ay: int,
    tx: int,
    ty: int,
)
    requires
        on_board(tx, ty),
        !vacant(g, tx, ty),
        g[(tx, ty)].color != color,
    ensures
        attacks(g, color, ax, ay, tx, ty) <==> {
            &&& on_board(ax, ay)
            &&& !vacant(g, ax, ay)
            &&& g[(ax, ay)].color == color
            &&& moves_to(g, g[(ax, ay)], ax, ay, tx, ty)
        },
{
}

} // verus!

//! What the results of a game on the mutable board mean, told from its boards alone.

use vstd::prelude::*;

use crate::engine::attack::{
    always_checked, conduct, moved_last, perpetual_chase, perpetually_chased, rewinding, rewound,
};
use crate::engine::board::piece_value;
use crate::engine::game::Play;
use crate::engine::layout::{law_moves_keep_boards_well_formed, Layout};
use crate::engine::tactics::{hop, law_attackers_have_captures, law_legal_list_exact, MoveValidationReason};
use crate::engine::types::{
    Color, GameStatus, GameStatusReason, Move, MoveInfo, Piece, PieceKind, Position,
};
use crate::grid::{moves_to, on_board, Man};

verus! {

/// The man on the source of the move may go to its target: its way of moving leads there, and the
/// move leaves its own king out of check.
pub open spec fn can_go(l: Layout, mv: Move) -> bool {
    let p = l.cells[(mv.from.x as int, mv.from.y as int)];
    let man = Man { color: p.color, kind: p.kind };
    &&& 0 <= mv.from.x <= 8 && 0 <= mv.from.y <= 9 && 0 <= mv.to.x <= 8 && 0 <= mv.to.y <= 9
    &&& l.cells.contains_key((mv.from.x as int, mv.from.y as int))
    &&& moves_to(
        l.grid(),
        man,
        mv.from.x as int,
        mv.from.y as int,
        mv.to.x as int,
        mv.to.y as int,
    )
    &&& !l.after(mv).in_check(p.color)
}

/// The man on the one square may take the one on the other.
pub open spec fn can_take(l: Layout, from: Position, to: Position) -> bool {
    can_go(l, Move { from, to }) && l.cells.contains_key((to.x as int, to.y as int))
}

proof fn lemma_refusal(l: Layout, mv: Move, color: Option<Color>)
    ensures
        l.refusal(mv, color) is None <==> can_go(l, mv) && (color is Some ==> l.cells[(
            mv.from.x as int,
            mv.from.y as int,
        )].color == color.unwrap()),
{
    let from = mv.from.at();
    let to = mv.to.at();
    if mv.valid() && l.cells.contains_key(from) {
        let p = l.cells[from];
        assert(p.man() == (Man { color: p.color, kind: p.kind }));
        if l.cells.contains_key(to) {
            assert(l.grid().contains_key(to));
            assert(l.grid()[to].color == l.cells[to].color);
        }
    }
}

/// A move is legal for a side exactly when one of its men stands on the source and may go to the
/// target.
pub proof fn law_legal_moves(l: Layout, mv: Move, color: Color)
    ensures
        l.legal(mv, color) <==> l.cells.contains_key((mv.from.x as int, mv.from.y as int))
            && l.cells[(mv.from.x as int, mv.from.y as int)].color == color && can_go(l, mv),
{
    lemma_refusal(l, mv, Some(color));
}

/// The reason for which a move is refused holds of it, and none of those that come before it.
pub proof fn law_refusals(l: Layout, mv: Move, color: Option<Color>)
    ensures
        ({
            let from = (mv.from.x as int, mv.from.y as int);
            let to = (mv.to.x as int, mv.to.y as int);
            let inside = 0 <= mv.from.x <= 8 && 0 <= mv.from.y <= 9 && 0 <= mv.to.x <= 8 && 0
                <= mv.to.y <= 9;
            let p = l.cells[from];
            let man = Man { color: p.color, kind: p.kind };
            let right = color is Some ==> p.color == color.unwrap();
            let own = l.cells.contains_key(to) && l.cells[to].color == p.color;
            match l.refusal(mv, color) {
                None => can_go(l, mv) && (color is Some ==> p.color == color.unwrap()),
                Some(MoveValidationReason::OutsideBoard) => !inside,
                Some(MoveValidationReason::NoPiece) => inside && !l.cells.contains_key(from),
                Some(MoveValidationReason::WrongSide) => inside && l.cells.contains_key(from) && !right,
                Some(MoveValidationReason::CaptureOwnPiece) => inside && l.cells.contains_key(from)
                    && right && own,
                Some(MoveValidationReason::InvalidPieceMove) => inside && l.cells.contains_key(from)
                    && right && !own && !moves_to(l.grid(), man, from.0, from.1, to.0, to.1),
                Some(MoveValidationReason::LeavesKingInCheck) => right && moves_to(
                    l.grid(),
                    man,
                    from.0,
                    from.1,
                    to.0,
                    to.1,
                ) && !can_go(l, mv),
                Some(MoveValidationReason::KingsFace) => false,
            }
        }),
{
    lemma_refusal(l, mv, color);
    if l.cells.contains_key(mv.from.at()) {
        let p = l.cells[mv.from.at()];
        assert(p.man() == (Man { color: p.color, kind: p.kind }));
    }
}

/// A move takes its man to its target and leaves every other square as it was; the other side is to
/// move. The plies without a capture start anew with a capture, and a full move ends with Black's.
pub proof fn law_move_made(l: Layout, mv: Move, x: int, y: int)
    requires
        l.legal(mv, l.side),
        l.quiet < u32::MAX,
        l.fullmove < u32::MAX,
    ensures
        ({
            let n = l.after(mv);
            let from = (mv.from.x as int, mv.from.y as int);
            let to = (mv.to.x as int, mv.to.y as int);
            &&& n.cells.contains_key(to) && n.cells[to] == l.cells[from]
            &&& !n.cells.contains_key(from)
            &&& (x, y) != from && (x, y) != to ==> n.cells.contains_key((x, y))
                == l.cells.contains_key((x, y)) && (l.cells.contains_key((x, y)) ==> n.cells[(x, y)]
                == l.cells[(x, y)])
            &&& l.side == Color::Red ==> n.side == Color::Black && n.fullmove == l.fullmove
            &&& l.side == Color::Black ==> n.side == Color::Red && n.fullmove == l.fullmove + 1
            &&& l.cells.contains_key(to) ==> n.quiet == 0
            &&& !l.cells.contains_key(to) ==> n.quiet == l.quiet + 1
        }),
{
    law_legal_moves(l, mv, l.side);
    crate::kernel::setup::lemma_moves_elsewhere(
        l.grid(),
        l.mover(mv).man(),
        mv.from.x as int,
        mv.from.y as int,
        mv.to.x as int,
        mv.to.y as int,
    );
}

/// A rook is worth ten, a horse or a cannon five, a pawn three beyond the river and one before it, an
/// advisor or an elephant two, and a king more than all of them.
pub proof fn law_piece_values(p: Piece, y: int)
    ensures
        p.kind == PieceKind::King ==> piece_value(p, y) == 255,
        p.kind == PieceKind::Rook ==> piece_value(p, y) == 10,
        p.kind == PieceKind::Horse || p.kind == PieceKind::Cannon ==> piece_value(p, y) == 5,
        p.kind == PieceKind::Advisor || p.kind == PieceKind::Elephant ==> piece_value(p, y) == 2,
        p.kind == PieceKind::Pawn && p.color == Color::Red ==> piece_value(p, y) == if y <= 4 {
            3int
        } else {
            1
        },
        p.kind == PieceKind::Pawn && p.color == Color::Black ==> piece_value(p, y) == if y >= 5 {
            3int
        } else {
            1
        },
{
}

/// The man of `color` on `from` may take the piece on `v`, which is no king.
pub open spec fn hits(l: Layout, color: Color, from: Position, v: Position) -> bool {
    &&& l.cells.contains_key((from.x as int, from.y as int))
    &&& l.cells[(from.x as int, from.y as int)].color == color
    &&& l.cells[(v.x as int, v.y as int)].kind != PieceKind::King
    &&& can_take(l, from, v)
}

/// Some man may take the one on the square.
pub open spec fn in_danger(l: Layout, v: Position) -> bool {
    exists|from: Position| #[trigger] can_take(l, from, v)
}

/// The piece is a pawn on its own side of the river.
pub open spec fn pawn_at_home(p: Piece, y: int) -> bool {
    p.kind == PieceKind::Pawn && match p.color {
        Color::Red => y >= 5,
        Color::Black => y <= 4,
    }
}

proof fn lemma_may_attack(l: Layout, color: Color, ax: int, ay: int, v: Position)
    requires
        l.wf(),
        v.valid(),
        l.cells.contains_key(v.at()),
        l.cells[v.at()].color != color,
    ensures
        l.may_attack(color, ax, ay, v) <==> on_board(ax, ay) && ({
            let from = Position { x: ax as i8, y: ay as i8 };
            &&& can_take(l, from, v)
            &&& l.cells[(ax, ay)].color == color
        }),
{
    let g = l.grid();
    assert(g.contains_key(v.at()));
    assert(g[v.at()].color == l.cells[v.at()].color);
    law_attackers_have_captures(g, color, ax, ay, v.x as int, v.y as int);
    if on_board(ax, ay) {
        let from = Position { x: ax as i8, y: ay as i8 };
        assert(from.at() == (ax, ay));
        assert(hop(ax, ay, v) == (Move { from, to: v }));
        assert(g.contains_key((ax, ay)) <==> l.cells.contains_key((ax, ay)));
        if l.cells.contains_key((ax, ay)) {
            let p = l.cells[(ax, ay)];
            assert(g[(ax, ay)] == (Man { color: p.color, kind: p.kind }));
        }
    }
}

proof fn lemma_takeable(l: Layout, v: Position, by: Color)
    requires
        l.wf(),
        v.valid(),
        l.cells.contains_key(v.at()),
        l.cells[v.at()].color != by,
    ensures
        l.takeable(v, by) == in_danger(l, v),
{
    if l.takeable(v, by) {
        let (x, y) = choose|x: int, y: int| #[trigger] l.may_attack(by, x, y, v);
        lemma_may_attack(l, by, x, y, v);
        assert(can_take(l, Position { x: x as i8, y: y as i8 }, v));
    }
    if in_danger(l, v) {
        let from = choose|from: Position| #[trigger] can_take(l, from, v);
        lemma_may_attack(l, by, from.x as int, from.y as int, v);
        assert(from == (Position { x: from.x as int as i8, y: from.y as int as i8 }));
        let g = l.grid();
        assert(g.contains_key(v.at()));
        assert(g[v.at()].color == l.cells[v.at()].color);
        assert(l.may_attack(by, from.x as int, from.y as int, v));
    }
}

/// An attack counts as a chase of the piece on `v` when the attacker may take it, except that a pawn
/// on its own side of the river may always be attacked, that an attacker in danger may attack what is
/// worth no more than itself, and that a piece may be attacked whose capture could be avenged, if it
/// is worth no more than the attacker.
pub open spec fn chasing(l: Layout, color: Color, from: Position, v: Position) -> bool {
    let victim = l.cells[(v.x as int, v.y as int)];
    let attacker = l.cells[(from.x as int, from.y as int)];
    let gain = piece_value(victim, v.y as int) - piece_value(attacker, from.y as int);
    &&& hits(l, color, from, v)
    &&& !pawn_at_home(victim, v.y as int)
    &&& gain > 0 || (!in_danger(l, from) && !in_danger(l.after(Move { from, to: v }), v))
}

/// What counts as a chase.
pub proof fn law_chases(l: Layout, color: Color, from: Position, v: Position)
    requires
        l.wf(),
    ensures
        from.valid() && l.chases(color, from.x as int, from.y as int, v) <==> chasing(
            l,
            color,
            from,
            v,
        ),
{
    let a = (from.x as int, from.y as int);
    assert(from == (Position { x: a.0 as i8, y: a.1 as i8 }));
    if v.valid() && l.cells.contains_key(v.at()) && l.cells[v.at()].color == color.opposite() {
        lemma_may_attack(l, color, a.0, a.1, v);
        if from.valid() && l.may_attack(color, a.0, a.1, v) {
            let mv = Move { from, to: v };
            assert(hop(a.0, a.1, v) == mv);
            lemma_takeable(l, from, color.opposite());
            law_moves_keep_boards_well_formed(l, mv);
            let n = l.after(mv);
            assert(n.cells.contains_key(v.at()));
            assert(n.cells[v.at()] == l.cells[a]);
            lemma_takeable(n, v, color.opposite());
        }
    }
    if hits(l, color, from, v) {
        let g = l.grid();
        assert(g.contains_key(v.at()));
        assert(g[v.at()].color == l.cells[v.at()].color);
        assert(l.cells[v.at()].color == color.opposite());
    }
}

/// The boards before move `i` and now have the same hash.
pub open spec fn recurs(p: Play, i: int) -> bool {
    p.layout_at(i).hash == p.board.hash
}

/// `start` is the last earlier time at which the board had the hash it has now.
pub open spec fn cycle_start(p: Play, start: int) -> bool {
    &&& 0 <= start < p.infos.len()
    &&& recurs(p, start)
    &&& forall|j: int| start < j < p.infos.len() ==> !(#[trigger] recurs(p, j))
}

/// The board number `i`, not before `start`, is one on which `color` has just moved.
pub open spec fn moved_to(p: Play, start: int, color: Color, i: int) -> bool {
    start <= i <= p.infos.len() && p.layout_at(i).side == color.opposite()
}

/// On every board since `start` on which the side had just moved, the other was in check.
pub open spec fn kept_checking(p: Play, start: int, color: Color) -> bool {
    forall|i: int| #[trigger]
        moved_to(p, start, color, i) ==> p.layout_at(i).in_check(color.opposite())
}

/// The side chases the piece on the board with the man on `from`.
pub open spec fn chases_it(l: Layout, color: Color, prey: Piece, from: Position, v: Position) -> bool {
    chasing(l, color, from, v) && l.cells[(v.x as int, v.y as int)] == prey
}

/// On every board since `start` on which the side had just moved it chased the piece, on one of them
/// with another man than a king or a pawn.
pub open spec fn chased(p: Play, start: int, color: Color, prey: Piece) -> bool {
    &&& forall|i: int| #[trigger]
        moved_to(p, start, color, i) ==> exists|from: Position, v: Position| #[trigger]
            chases_it(p.layout_at(i), color, prey, from, v)
    &&& exists|i: int, from: Position, v: Position|
        {
            &&& #[trigger] moved_to(p, start, color, i)
            &&& #[trigger] chases_it(p.layout_at(i), color, prey, from, v)
            &&& {
                let kind = p.layout_at(i).cells[(from.x as int, from.y as int)].kind;
                kind == PieceKind::Rook || kind == PieceKind::Horse || kind == PieceKind::Cannon
                    || kind == PieceKind::Advisor || kind == PieceKind::Elephant
            }
        }
}

/// Since `start` the side has chased some piece as it must not.
pub open spec fn kept_chasing(p: Play, start: int, color: Color) -> bool {
    exists|prey: Piece| #[trigger] chased(p, start, color, prey)
}

proof fn lemma_indices_last(p: Play, h: u64, n: nat, start: int)
    requires
        n <= p.infos.len() + 1,
        p.infos.len() < u32::MAX,
        0 <= start < n,
        p.layout_at(start).hash == h,
        forall|j: int| start < j < n ==> (#[trigger] p.layout_at(j)).hash != h,
    ensures
        p.indices(h, n).len() > 0,
        p.indices(h, n).last() == start,
        p.indices(h, n).len() == p.indices(h, start as nat).len() + 1,
    decreases n,
{
    if n - 1 > start {
        assert(p.layout_at(n - 1).hash != h);
        lemma_indices_last(p, h, (n - 1) as nat, start);
    }
}

proof fn lemma_indices_some(p: Play, h: u64, n: nat)
    requires
        n <= p.infos.len() + 1,
    ensures
        p.indices(h, n).len() > 0 <==> exists|i: int|
            0 <= i < n && (#[trigger] p.layout_at(i)).hash == h,
    decreases n,
{
    if n > 0 {
        lemma_indices_some(p, h, (n - 1) as nat);
        if p.layout_at(n - 1).hash == h {
            assert(0 <= n - 1 < n);
        }
    }
}

proof fn lemma_recurrences(p: Play, start: int)
    requires
        p.infos.len() < u32::MAX,
        cycle_start(p, start),
    ensures
        p.recurrences().len() >= 3 <==> exists|i: int| 0 <= i < start && #[trigger] recurs(p, i),
        p.recurrences().len() >= 2,
        p.recurrences()[p.recurrences().len() - 2] == start,
{
    let n = p.infos.len();
    let h = p.board.hash;
    assert(p.layout_at(n as int) == p.board);
    assert forall|j: int| start < j < n implies (#[trigger] p.layout_at(j)).hash != h by {
        assert(!recurs(p, j));
    }
    lemma_indices_last(p, h, n, start);
    lemma_indices_some(p, h, start as nat);
    if p.indices(h, start as nat).len() > 0 {
        let i = choose|i: int| 0 <= i < start && (#[trigger] p.layout_at(i)).hash == h;
        assert(recurs(p, i));
    }
}

/// A position counts as repeated when its hash occurred at two earlier times.
pub proof fn law_threefold(p: Play)
    requires
        p.infos.len() < u32::MAX,
    ensures
        p.recurrences().len() >= 3 <==> exists|i: int, j: int|
            0 <= i < j < p.infos.len() && #[trigger] recurs(p, i) && #[trigger] recurs(p, j),
{
    let n = p.infos.len();
    let h = p.board.hash;
    assert(p.layout_at(n as int) == p.board);
    assert(p.recurrences() == p.indices(h, n).push(n as u32));
    if p.indices(h, n).len() > 0 {
        lemma_indices_some(p, h, n);
        let start = lemma_last_recurrence(p, n);
        lemma_recurrences(p, start);
        if exists|i: int, j: int|
            0 <= i < j < n && #[trigger] recurs(p, i) && #[trigger] recurs(p, j) {
            let (i, j) = choose|i: int, j: int|
                0 <= i < j < n && #[trigger] recurs(p, i) && #[trigger] recurs(p, j);
            assert(0 <= i < start && recurs(p, i));
        }
        if p.recurrences().len() >= 3 {
            let i = choose|i: int| 0 <= i < start && #[trigger] recurs(p, i);
            assert(0 <= i < start < n && recurs(p, i) && recurs(p, start));
        }
    } else {
        lemma_indices_some(p, h, n);
        assert forall|i: int| 0 <= i < n implies !(#[trigger] recurs(p, i)) by {
            assert(p.layout_at(i).hash != h);
        }
    }
}

proof fn lemma_last_recurrence(p: Play, m: nat) -> (start: int)
    requires
        m <= p.infos.len(),
        exists|i: int| 0 <= i < m && (#[trigger] p.layout_at(i)).hash == p.board.hash,
    ensures
        0 <= start < m,
        recurs(p, start),
        forall|j: int| start < j < m ==> !(#[trigger] recurs(p, j)),
    decreases m,
{
    if recurs(p, m - 1) {
        m - 1
    } else {
        let i = choose|i: int| 0 <= i < m && (#[trigger] p.layout_at(i)).hash == p.board.hash;
        assert(recurs(p, i));
        lemma_last_recurrence(p, (m - 1) as nat)
    }
}

proof fn lemma_rewound_part(l: Layout, infos: Seq<MoveInfo>, start: int, k: nat)
    requires
        0 <= start <= infos.len(),
        k <= infos.len() - start,
    ensures
        rewound(l, infos.subrange(start, infos.len() as int), k) == rewound(l, infos, k),
    decreases k,
{
    if k > 0 {
        lemma_rewound_part(l, infos, start, (k - 1) as nat);
        let part = infos.subrange(start, infos.len() as int);
        assert(part[part.len() - k] == infos[infos.len() - k]);
    }
}

/// The boards of the cycle on which a side has just moved.
spec fn own_boards(p: Play, color: Color) -> Seq<Layout> {
    rewinding(p.board, p.cycle()).filter(moved_last(color))
}

proof fn lemma_own_from(p: Play, start: int, color: Color, j: int) -> (i: int)
    requires
        p.infos.len() < u32::MAX,
        cycle_start(p, start),
        0 <= j < own_boards(p, color).len(),
    ensures
        moved_to(p, start, color, i),
        own_boards(p, color)[j] == p.layout_at(i),
{
    lemma_recurrences(p, start);
    let all = rewinding(p.board, p.cycle());
    let f = moved_last(color);
    let own = own_boards(p, color);
    assert(own.contains(own[j]));
    all.lemma_filter_contains_rev(f, own[j]);
    broadcast use vstd::seq_lib::group_filter_ensures;
    assert(f(own[j]));
    let k = choose|k: int| 0 <= k < all.len() && all[k] == own[j];
    lemma_rewound_part(p.board, p.infos, start, k as nat);
    let n = p.infos.len() as int;
    assert(p.layout_at(n - k) == all[k]);
    n - k
}

proof fn lemma_own_as(p: Play, start: int, color: Color, i: int) -> (j: int)
    requires
        p.infos.len() < u32::MAX,
        cycle_start(p, start),
        moved_to(p, start, color, i),
    ensures
        0 <= j < own_boards(p, color).len(),
        own_boards(p, color)[j] == p.layout_at(i),
{
    lemma_recurrences(p, start);
    let all = rewinding(p.board, p.cycle());
    let f = moved_last(color);
    let k = p.infos.len() - i;
    lemma_rewound_part(p.board, p.infos, start, k as nat);
    assert(all[k] == p.layout_at(i));
    all.lemma_filter_contains(f, k);
    let own = own_boards(p, color);
    choose|j: int| 0 <= j < own.len() && own[j] == p.layout_at(i)
}

proof fn lemma_chases_piece(l: Layout, color: Color, prey: Piece)
    requires
        l.wf(),
    ensures
        l.chases_piece(color, prey) <==> exists|from: Position, v: Position| #[trigger]
            chases_it(l, color, prey, from, v),
        l.chased_by_king_or_pawn_only(color, prey) <==> forall|from: Position, v: Position|
            (#[trigger] chases_it(l, color, prey, from, v)) ==> {
                let kind = l.cells[(from.x as int, from.y as int)].kind;
                kind == PieceKind::King || kind == PieceKind::Pawn
            },
{
    assert forall|ax: int, ay: int, v: Position| #[trigger] l.chases(color, ax, ay, v) implies ({
        let from = Position { x: ax as i8, y: ay as i8 };
        chasing(l, color, from, v) && from.at() == (ax, ay)
    }) by {
        let from = Position { x: ax as i8, y: ay as i8 };
        assert(on_board(ax, ay));
        assert(from.at() == (ax, ay));
        law_chases(l, color, from, v);
    }
    assert forall|from: Position, v: Position| #[trigger] chases_it(
        l,
        color,
        prey,
        from,
        v,
    ) implies l.chases(color, from.x as int, from.y as int, v) by {
        law_chases(l, color, from, v);
    }
    if l.chases_piece(color, prey) {
        let (ax, ay, v) = choose|ax: int, ay: int, v: Position| #[trigger]
            l.chases(color, ax, ay, v) && l.cells[v.at()] == prey;
        assert(chases_it(l, color, prey, Position { x: ax as i8, y: ay as i8 }, v));
    }
    if exists|from: Position, v: Position| #[trigger] chases_it(l, color, prey, from, v) {
        let (from, v) = choose|from: Position, v: Position| #[trigger]
            chases_it(l, color, prey, from, v);
        assert(l.chases(color, from.x as int, from.y as int, v) && l.cells[v.at()] == prey);
    }
    if l.chased_by_king_or_pawn_only(color, prey) {
        assert forall|from: Position, v: Position| (#[trigger] chases_it(
            l,
            color,
            prey,
            from,
            v,
        )) implies ({
            let kind = l.cells[(from.x as int, from.y as int)].kind;
            kind == PieceKind::King || kind == PieceKind::Pawn
        }) by {
            assert(l.chases(color, from.x as int, from.y as int, v));
        }
    } else {
        let (ax, ay, v) = choose|ax: int, ay: int, v: Position|
            #[trigger] l.chases(color, ax, ay, v) && l.cells[v.at()] == prey && l.cells[(ax, ay)].kind
                != PieceKind::King && l.cells[(ax, ay)].kind != PieceKind::Pawn;
        assert(chases_it(l, color, prey, Position { x: ax as i8, y: ay as i8 }, v));
    }
}

proof fn lemma_chase(p: Play, start: int, color: Color, prey: Piece)
    requires
        p.wf(),
        p.infos.len() < u32::MAX,
        cycle_start(p, start),
    ensures
        chased(p, start, color, prey) <==> own_boards(p, color).len() > 0 && perpetually_chased(
            own_boards(p, color),
            color,
            prey,
        ),
{
    let own = own_boards(p, color);
    if chased(p, start, color, prey) {
        assert forall|j: int| 0 <= j < own.len() implies (#[trigger] own[j]).chases_piece(
            color,
            prey,
        ) by {
            let i = lemma_own_from(p, start, color, j);
            assert(p.layout_at(i).wf());
            lemma_chases_piece(own[j], color, prey);
        }
        let (i, from, v) = choose|i: int, from: Position, v: Position|
            {
                &&& #[trigger] moved_to(p, start, color, i)
                &&& #[trigger] chases_it(p.layout_at(i), color, prey, from, v)
                &&& {
                    let kind = p.layout_at(i).cells[(from.x as int, from.y as int)].kind;
                    kind == PieceKind::Rook || kind == PieceKind::Horse || kind == PieceKind::Cannon
                        || kind == PieceKind::Advisor || kind == PieceKind::Elephant
                }
            };
        let j = lemma_own_as(p, start, color, i);
        assert(p.layout_at(i).wf());
        lemma_chases_piece(own[j], color, prey);
        assert(!own[j].chased_by_king_or_pawn_only(color, prey));
    }
    if own.len() > 0 && perpetually_chased(own, color, prey) {
        assert forall|i: int| #[trigger] moved_to(p, start, color, i) implies exists|
            from: Position,
            v: Position,
        | #[trigger] chases_it(p.layout_at(i), color, prey, from, v) by {
            let j = lemma_own_as(p, start, color, i);
            assert(p.layout_at(i).wf());
            assert(own[j].chases_piece(color, prey));
            lemma_chases_piece(own[j], color, prey);
        }
        let j = choose|j: int|
            0 <= j < own.len() && !(#[trigger] own[j]).chased_by_king_or_pawn_only(color, prey);
        let i = lemma_own_from(p, start, color, j);
        assert(p.layout_at(i).wf());
        lemma_chases_piece(own[j], color, prey);
        let (from, v) = choose|from: Position, v: Position|
            (#[trigger] chases_it(own[j], color, prey, from, v)) && {
                let kind = own[j].cells[(from.x as int, from.y as int)].kind;
                kind != PieceKind::King && kind != PieceKind::Pawn
            };
        assert(moved_to(p, start, color, i));
        assert(chases_it(p.layout_at(i), color, prey, from, v));
    }
}

/// In a cycle a side is guilty of perpetual check exactly when the other was in check on each board
/// after its moves, and else of a perpetual chase exactly when it kept chasing some piece.
pub proof fn law_guilt(p: Play, start: int, color: Color)
    requires
        p.wf(),
        p.infos.len() < u32::MAX,
        cycle_start(p, start),
    ensures
        ({
            let found = conduct(rewinding(p.board, p.cycle()), color);
            &&& found == Some(GameStatusReason::PerpetualCheck) <==> kept_checking(p, start, color)
            &&& found == Some(GameStatusReason::PerpetualChase) <==> !kept_checking(p, start, color)
                && kept_chasing(p, start, color)
            &&& found is None <==> !kept_checking(p, start, color) && !kept_chasing(p, start, color)
        }),
{
    let own = own_boards(p, color);
    if kept_checking(p, start, color) {
        assert forall|j: int| 0 <= j < own.len() implies (#[trigger] own[j]).in_check(
            color.opposite(),
        ) by {
            let i = lemma_own_from(p, start, color, j);
        }
    }
    if always_checked(own, color) {
        assert forall|i: int| #[trigger] moved_to(p, start, color, i) implies p.layout_at(i).in_check(
            color.opposite(),
        ) by {
            let j = lemma_own_as(p, start, color, i);
            assert(own[j].in_check(color.opposite()));
        }
    }
    if kept_chasing(p, start, color) {
        let prey = choose|prey: Piece| #[trigger] chased(p, start, color, prey);
        lemma_chase(p, start, color, prey);
        assert(perpetually_chased(own, color, prey));
        assert(perpetual_chase(own, color));
    }
    if perpetual_chase(own, color) {
        let prey = choose|prey: Piece| #[trigger] perpetually_chased(own, color, prey);
        lemma_chase(p, start, color, prey);
        assert(chased(p, start, color, prey));
    }
}

proof fn lemma_stuck(p: Play)
    requires
        p.wf(),
    ensures
        p.stuck() <==> !(exists|mv: Move| #[trigger] p.board.legal(mv, p.board.side)),
{
    assert(p.layout_at(p.infos.len() as int) == p.board);
    assert(p.layout_at(p.infos.len() as int).wf());
    law_legal_list_exact(p.board, p.board.side, false);
    let list = p.board.legal_list(p.board.side, false);
    if list.len() > 0 {
        assert(list.contains(list[0]));
        assert(p.board.legal(list[0], p.board.side));
    } else {
        assert forall|mv: Move| !(#[trigger] p.board.legal(mv, p.board.side)) by {
            assert(!list.contains(mv));
        }
    }
}

/// When a board with a legal move occurs for the third time, the boards since it last occurred
/// decide. A side that gave check with each of its moves loses to one that did not. If neither did, a
/// side that kept chasing a piece loses to one that did not. Otherwise the game is drawn.
pub proof fn law_repetition_is_judged(p: Play, start: int, color: Color)
    requires
        p.wf(),
        p.infos.len() < u32::MAX,
        exists|mv: Move| #[trigger] p.board.legal(mv, p.board.side),
        cycle_start(p, start),
        exists|i: int| 0 <= i < start && #[trigger] recurs(p, i),
    ensures
        ({
            let other = match color {
                Color::Red => Color::Black,
                Color::Black => Color::Red,
            };
            let checks = kept_checking(p, start, color);
            let other_checks = kept_checking(p, start, other);
            let chases = kept_chasing(p, start, color);
            let other_chases = kept_chasing(p, start, other);
            &&& checks && !other_checks ==> p.outcome() == (GameStatus {
                is_terminal: true,
                reason: Some(GameStatusReason::PerpetualCheck),
                winner: Some(other),
            })
            &&& !checks && !other_checks && chases && !other_chases ==> p.outcome() == (GameStatus {
                is_terminal: true,
                reason: Some(GameStatusReason::PerpetualChase),
                winner: Some(other),
            })
            &&& checks == other_checks && (checks || chases == other_chases) ==> p.outcome() == (
            GameStatus {
                is_terminal: true,
                reason: Some(GameStatusReason::MutualPerpetual),
                winner: None,
            })
        }),
{
    lemma_stuck(p);
    lemma_recurrences(p, start);
    law_guilt(p, start, color);
    law_guilt(p, start, color.opposite());
}

/// A side without a legal move has lost, by checkmate if its king is in check and by stalemate if
/// not. Else the game goes on unless the board was repeated, a hundred plies were played since the
/// last capture, or three hundred in all.
pub proof fn law_game_result(p: Play)
    requires
        p.wf(),
        p.infos.len() < u32::MAX,
    ensures
        !(exists|mv: Move| #[trigger] p.board.legal(mv, p.board.side)) ==> p.outcome() == (
        GameStatus {
            is_terminal: true,
            reason: Some(
                if p.board.in_check(p.board.side) {
                    GameStatusReason::Checkmate
                } else {
                    GameStatusReason::Stalemate
                },
            ),
            winner: Some(
                match p.board.side {
                    Color::Red => Color::Black,
                    Color::Black => Color::Red,
                },
            ),
        }),
        !p.outcome().is_terminal <==> {
            &&& exists|mv: Move| #[trigger] p.board.legal(mv, p.board.side)
            &&& !(exists|i: int, j: int|
                0 <= i < j < p.infos.len() && #[trigger] recurs(p, i) && #[trigger] recurs(p, j))
            &&& p.board.quiet < 100
            &&& 2 * p.board.fullmove + (if p.board.side == Color::Black {
                1int
            } else {
                0
            }) < 302
        },
        p.outcome().reason == Some(GameStatusReason::MaxNonCapture) ==> p.board.quiet >= 100
            && p.outcome().winner is None,
        p.outcome().reason == Some(GameStatusReason::MaxMoves) ==> p.board.quiet < 100
            && p.outcome().winner is None,
{
    lemma_stuck(p);
    law_threefold(p);
    if p.recurrences().len() >= 3 {
        crate::engine::laws::law_outcome_consistent(p);
    }
}

} // verus!

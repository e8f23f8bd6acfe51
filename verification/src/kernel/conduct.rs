//! What the results of a game mean, told from its positions alone.

use vstd::prelude::*;

use crate::grid::{moves_to, Man};
use crate::kernel::game::{
    by_actor, chase_exempt, exchange_offered, forbidden_chase, offers_exchange, perpetual_chase, place,
    rook_chased_by_lesser, step, violation, GameView, RecordView, Violation,
};
use crate::kernel::laws::{
    law_cycle_has_moves_of_both_sides, law_key_identifies_position,
};
use crate::kernel::setup::{
    checked, law_legal_list_exact, law_moves_keep_positions_well_formed, MoveValidationReason, Setup,
};
use crate::kernel::types::{Color, GameStatus, GameStatusReason, Move, PieceKind};

verus! {

/// Where a man that moved from `from` to `to` has left the king of its own side.
pub open spec fn king_left(s: Setup, from: (int, int), to: (int, int)) -> (int, int) {
    if s.cells[from].kind == PieceKind::King {
        to
    } else {
        let k = s.king(s.cells[from].color).unwrap();
        (k.0 as int, k.1 as int)
    }
}

/// The man on the one square may go to the other: its way of moving leads there, and with it gone
/// there its own king is not in check.
pub open spec fn can_go(s: Setup, from: (int, int), to: (int, int)) -> bool {
    let p = s.cells[from];
    let man = Man { color: p.color, kind: p.kind };
    &&& 0 <= from.0 <= 8 && 0 <= from.1 <= 9 && 0 <= to.0 <= 8 && 0 <= to.1 <= 9
    &&& s.cells.contains_key(from)
    &&& moves_to(s.grid(), man, from.0, from.1, to.0, to.1)
    &&& !checked(
        s.grid().remove(from).insert(to, man),
        p.color,
        king_left(s, from, to).0,
        king_left(s, from, to).1,
    )
}

/// The man on the one square may take the one on the other.
pub open spec fn can_take(s: Setup, from: (int, int), to: (int, int)) -> bool {
    can_go(s, from, to) && s.cells.contains_key(to)
}

proof fn lemma_grid_after(s: Setup, mv: Move)
    requires
        s.cells.contains_key((mv.sx as int, mv.sy as int)),
    ensures
        s.after(mv).grid() == s.grid().remove((mv.sx as int, mv.sy as int)).insert(
            (mv.tx as int, mv.ty as int),
            s.mover(mv).man(),
        ),
{
    assert(s.after(mv).grid() =~= s.grid().remove((mv.sx as int, mv.sy as int)).insert(
        (mv.tx as int, mv.ty as int),
        s.mover(mv).man(),
    ));
}

proof fn lemma_refusal(s: Setup, mv: Move, color: Option<Color>)
    ensures
        s.refusal(mv, color) is None <==> can_go(
            s,
            (mv.sx as int, mv.sy as int),
            (mv.tx as int, mv.ty as int),
        ) && (color is Some ==> s.cells[(mv.sx as int, mv.sy as int)].color == color.unwrap()),
{
    let from = (mv.sx as int, mv.sy as int);
    let to = (mv.tx as int, mv.ty as int);
    if mv.on_board() && s.cells.contains_key(from) {
        lemma_grid_after(s, mv);
        let p = s.cells[from];
        assert(p.man() == (Man { color: p.color, kind: p.kind }));
        if s.cells.contains_key(to) {
            assert(s.grid().contains_key(to));
            assert(s.grid()[to].color == s.cells[to].color);
        }
        let k = s.after(mv).king(p.color).unwrap();
        assert(p.kind != PieceKind::King ==> s.after(mv).king(p.color) == s.king(p.color));
        assert((k.0 as int, k.1 as int) == king_left(s, from, to));
    }
}

/// A move is legal exactly when a man of the side to move stands on its source and may go to its
/// target.
pub proof fn law_legal_moves(s: Setup, mv: Move)
    ensures
        s.legal(mv) <==> s.cells.contains_key((mv.sx as int, mv.sy as int)) && s.cells[(
            mv.sx as int,
            mv.sy as int,
        )].color == s.side && can_go(
            s,
            (mv.sx as int, mv.sy as int),
            (mv.tx as int, mv.ty as int),
        ),
{
    lemma_refusal(s, mv, Some(s.side));
}

/// The reason for which a move is refused holds of it, and none of those that come before it.
pub proof fn law_refusals(s: Setup, mv: Move, color: Option<Color>)
    ensures
        ({
            let from = (mv.sx as int, mv.sy as int);
            let to = (mv.tx as int, mv.ty as int);
            let inside = 0 <= mv.sx <= 8 && 0 <= mv.sy <= 9 && 0 <= mv.tx <= 8 && 0 <= mv.ty <= 9;
            let p = s.cells[from];
            let man = Man { color: p.color, kind: p.kind };
            let right = color is Some ==> p.color == color.unwrap();
            let own = s.cells.contains_key(to) && s.cells[to].color == p.color;
            match s.refusal(mv, color) {
                None => can_go(s, from, to) && (color is Some ==> p.color == color.unwrap()),
                Some(MoveValidationReason::OutsideBoard) => !inside,
                Some(MoveValidationReason::NoPiece) => inside && !s.cells.contains_key(from),
                Some(MoveValidationReason::WrongSide) => inside && s.cells.contains_key(from) && !right,
                Some(MoveValidationReason::CaptureOwnPiece) => inside && s.cells.contains_key(from)
                    && right && own,
                Some(MoveValidationReason::InvalidPieceMove) => inside && s.cells.contains_key(from)
                    && right && !own && !moves_to(s.grid(), man, from.0, from.1, to.0, to.1),
                Some(MoveValidationReason::LeavesKingInCheck) => right && moves_to(
                    s.grid(),
                    man,
                    from.0,
                    from.1,
                    to.0,
                    to.1,
                ) && !can_go(s, from, to),
                Some(MoveValidationReason::KingsFace) => false,
            }
        }),
{
    lemma_refusal(s, mv, color);
    if s.cells.contains_key((mv.sx as int, mv.sy as int)) {
        let p = s.cells[(mv.sx as int, mv.sy as int)];
        assert(p.man() == (Man { color: p.color, kind: p.kind }));
    }
}

/// A move takes its man to its target and leaves every other square as it was; the other side is to
/// move. The plies without a capture start anew with a capture, and a full move ends with Black's.
pub proof fn law_move_made(s: Setup, mv: Move, x: int, y: int)
    requires
        s.legal(mv),
        s.quiet < u32::MAX,
        s.fullmove < u32::MAX,
    ensures
        ({
            let n = s.after(mv);
            let from = (mv.sx as int, mv.sy as int);
            let to = (mv.tx as int, mv.ty as int);
            &&& n.cells.contains_key(to) && n.cells[to] == s.cells[from]
            &&& !n.cells.contains_key(from)
            &&& (x, y) != from && (x, y) != to ==> n.cells.contains_key((x, y))
                == s.cells.contains_key((x, y)) && (s.cells.contains_key((x, y)) ==> n.cells[(x, y)]
                == s.cells[(x, y)])
            &&& s.side == Color::Red ==> n.side == Color::Black && n.fullmove == s.fullmove
            &&& s.side == Color::Black ==> n.side == Color::Red && n.fullmove == s.fullmove + 1
            &&& s.cells.contains_key(to) ==> n.quiet == 0
            &&& !s.cells.contains_key(to) ==> n.quiet == s.quiet + 1
        }),
{
    law_legal_moves(s, mv);
    crate::kernel::setup::lemma_moves_elsewhere(
        s.grid(),
        s.mover(mv).man(),
        mv.sx as int,
        mv.sy as int,
        mv.tx as int,
        mv.ty as int,
    );
}

/// With a legal move left nothing is decided on the board; without one the side to move has lost, by
/// checkmate if its king is in check and by stalemate if not.
pub proof fn law_board_result(s: Setup)
    requires
        s.wf(),
    ensures
        (exists|mv: Move| #[trigger] s.legal(mv)) ==> s.outcome() == (GameStatus {
            is_terminal: false,
            reason: None,
            winner: None,
        }),
        !(exists|mv: Move| #[trigger] s.legal(mv)) ==> s.outcome() == (GameStatus {
            is_terminal: true,
            reason: Some(
                if s.in_check(s.side) {
                    GameStatusReason::Checkmate
                } else {
                    GameStatusReason::Stalemate
                },
            ),
            winner: Some(
                match s.side {
                    Color::Red => Color::Black,
                    Color::Black => Color::Red,
                },
            ),
        }),
{
    law_legal_list_exact(s);
    if s.legal_list().len() > 0 {
        assert(s.legal_list().contains(s.legal_list()[0]));
        assert(s.legal(s.legal_list()[0]));
    } else {
        assert forall|mv: Move| !(#[trigger] s.legal(mv)) by {
            assert(!s.legal_list().contains(mv));
        }
    }
}

/// After `i` moves the game stood where it stands now: with the same men on the same squares and the
/// same side to move.
pub open spec fn stood(g: GameView, i: int) -> bool {
    g.position_at(i).grid() == g.position.grid() && g.position_at(i).side == g.position.side
}

proof fn lemma_stood(g: GameView, i: int)
    requires
        g.wf(),
        0 <= i <= g.history.len(),
    ensures
        stood(g, i) <==> g.position_at(i).fen() == g.position.fen(),
{
    assert(g.position_at(i).wf());
    assert(g.position_at(g.history.len() as int).wf());
    law_key_identifies_position(g.position_at(i), g.position);
}

proof fn lemma_occurrences(g: GameView, n: nat)
    requires
        g.wf(),
        n <= g.history.len() + 1,
    ensures
        g.occurrences(n) >= 1 ==> exists|i: int| 0 <= i < n && #[trigger] stood(g, i),
        g.occurrences(n) >= 2 ==> exists|i: int, j: int|
            0 <= i < j < n && #[trigger] stood(g, i) && #[trigger] stood(g, j),
    decreases n,
{
    if n > 0 {
        let m = (n - 1) as nat;
        lemma_occurrences(g, m);
        lemma_stood(g, m as int);
        if g.occurrences(m) >= 1 {
            let i = choose|i: int| 0 <= i < m && #[trigger] stood(g, i);
            assert(0 <= i < n && stood(g, i));
        }
        if stood(g, m as int) {
            assert(0 <= m < n && stood(g, m as int));
        }
    }
}

proof fn lemma_occurrences_grow(g: GameView, i: int, n: nat)
    requires
        g.wf(),
        n <= g.history.len() + 1,
        0 <= i < n,
        stood(g, i),
    ensures
        g.occurrences(n) >= g.occurrences(i as nat) + 1,
    decreases n,
{
    lemma_stood(g, n - 1);
    if i < n - 1 {
        lemma_occurrences_grow(g, i, (n - 1) as nat);
    }
}

/// A position counts as repeated when the game stood there at two earlier times.
pub proof fn law_threefold(g: GameView)
    requires
        g.wf(),
    ensures
        g.repeated() <==> exists|i: int, j: int|
            0 <= i < j < g.history.len() && #[trigger] stood(g, i) && #[trigger] stood(g, j),
{
    let n = g.history.len();
    assert(g.position_at(n as int) == g.position);
    assert(stood(g, n as int));
    lemma_stood(g, n as int);
    assert(g.occurrences(n + 1) == g.occurrences(n) + 1);
    lemma_occurrences(g, n);
    if exists|i: int, j: int| 0 <= i < j < n && #[trigger] stood(g, i) && #[trigger] stood(g, j) {
        let (i, j) = choose|i: int, j: int|
            0 <= i < j < n && #[trigger] stood(g, i) && #[trigger] stood(g, j);
        lemma_occurrences_grow(g, i, j as nat);
        lemma_occurrences_grow(g, j, n);
    }
}

/// `start` is the last earlier time at which the game stood where it stands now.
pub open spec fn cycle_start(g: GameView, start: int) -> bool {
    &&& 0 <= start < g.history.len()
    &&& stood(g, start)
    &&& forall|j: int| start < j < g.history.len() ==> !(#[trigger] stood(g, j))
}

proof fn lemma_cycle(g: GameView, start: int, n: nat)
    requires
        g.wf(),
        cycle_start(g, start),
        start < n <= g.history.len(),
    ensures
        g.previous(n) == start,
    decreases n,
{
    lemma_stood(g, n - 1);
    if n - 1 > start {
        assert(!stood(g, n - 1));
        lemma_cycle(g, start, (n - 1) as nat);
    }
}

/// The move number `k` of the game was made by `color`, not before `start`.
pub open spec fn made_by(g: GameView, start: int, color: Color, k: int) -> bool {
    start <= k < g.history.len() && g.position_at(k).side == color
}

/// The move number `k` is the last that `color` made, not before `start`.
pub open spec fn last_by(g: GameView, start: int, color: Color, k: int) -> bool {
    &&& made_by(g, start, color, k)
    &&& forall|j: int| k < j ==> !(#[trigger] made_by(g, start, color, j))
}

/// With every one of its moves since `start` the side gave check.
pub open spec fn kept_checking(g: GameView, start: int, color: Color) -> bool {
    forall|k: int| #[trigger]
        made_by(g, start, color, k) ==> g.position_at(k + 1).in_check(color.opposite())
}

/// The square of the piece `id`.
pub open spec fn square_of(s: Setup, id: u32) -> (int, int) {
    (s.places[id].0 as int, s.places[id].1 as int)
}

/// The man of `color` on `from` may take the piece `id`, which is no king.
pub open spec fn hits(s: Setup, color: Color, id: u32, from: (int, int)) -> bool {
    &&& s.places.contains_key(id)
    &&& s.cells[square_of(s, id)].kind != PieceKind::King
    &&& s.cells.contains_key(from)
    &&& s.cells[from].color == color
    &&& can_take(s, from, square_of(s, id))
}

/// A man of that kind may take the piece `id`.
pub open spec fn hit_by(s: Setup, color: Color, id: u32, kind: PieceKind) -> bool {
    exists|from: (int, int)| #[trigger] hits(s, color, id, from) && s.cells[from].kind == kind
}

/// Some man of `color` may take the piece `id`.
pub open spec fn hit(s: Setup, color: Color, id: u32) -> bool {
    exists|from: (int, int)| #[trigger] hits(s, color, id, from)
}

/// After the man on `from` has taken the piece `id`, the man on `back` may take it in turn.
pub open spec fn avenged(s: Setup, id: u32, from: (int, int), back: (int, int)) -> bool {
    let t = square_of(s, id);
    let mv = Move { sx: from.0 as i32, sy: from.1 as i32, tx: t.0 as i32, ty: t.1 as i32 };
    can_take(s, from, t) && can_take(s.after(mv), back, t)
}

/// Some capture of the piece `id` could be avenged.
pub open spec fn guarded(s: Setup, id: u32) -> bool {
    exists|from: (int, int), back: (int, int)| #[trigger] avenged(s, id, from, back)
}

/// A man of `color` of the same kind as the piece `id` may take it, and may be taken by it.
pub open spec fn exchange_open(s: Setup, color: Color, id: u32) -> bool {
    exists|from: (int, int)| #[trigger]
        hits(s, color, id, from) && s.cells[from].kind == s.cells[square_of(s, id)].kind && can_take(
            s,
            square_of(s, id),
            from,
        )
}

/// The piece `id` is a pawn on its own side of the river.
pub open spec fn pawn_at_home(s: Setup, id: u32) -> bool {
    let p = s.cells[square_of(s, id)];
    p.kind == PieceKind::Pawn && match p.color {
        Color::Red => square_of(s, id).1 >= 5,
        Color::Black => square_of(s, id).1 <= 4,
    }
}

/// Since `start` the side has chased the piece `id` as it must not: with every move it threatened to
/// take it, at least once with another man than a king or a pawn, at least once without offering an
/// exchange of equal men, and in the end it is no pawn on its own side of the river. The piece was
/// never guarded, or it is a rook that a horse or a cannon hit every time.
pub open spec fn chased(g: GameView, start: int, color: Color, id: u32) -> bool {
    &&& forall|k: int| #[trigger]
        made_by(g, start, color, k) ==> hit(g.position_at(k + 1), color, id)
    &&& exists|k: int| #[trigger]
        made_by(g, start, color, k) && {
            let s = g.position_at(k + 1);
            ||| hit_by(s, color, id, PieceKind::Rook)
            ||| hit_by(s, color, id, PieceKind::Horse)
            ||| hit_by(s, color, id, PieceKind::Cannon)
            ||| hit_by(s, color, id, PieceKind::Advisor)
            ||| hit_by(s, color, id, PieceKind::Elephant)
        }
    &&& exists|k: int| #[trigger]
        made_by(g, start, color, k) && !exchange_open(g.position_at(k + 1), color, id)
    &&& forall|k: int| #[trigger]
        last_by(g, start, color, k) ==> !pawn_at_home(g.position_at(k + 1), id)
    &&& {
        ||| forall|k: int| #[trigger]
            made_by(g, start, color, k) ==> !guarded(g.position_at(k + 1), id)
        ||| forall|k: int| #[trigger]
            made_by(g, start, color, k) ==> {
                let s = g.position_at(k + 1);
                &&& s.cells[square_of(s, id)].kind == PieceKind::Rook
                &&& hit_by(s, color, id, PieceKind::Horse) || hit_by(
                    s,
                    color,
                    id,
                    PieceKind::Cannon,
                )
            }
    }
}

/// Since `start` the side has chased some piece as it must not.
pub open spec fn kept_chasing(g: GameView, start: int, color: Color) -> bool {
    exists|id: u32| #[trigger] chased(g, start, color, id)
}

/// A filter keeps the `j`-th part of a sequence as the `i`-th.
spec fn keeps<A>(s: Seq<A>, p: spec_fn(A) -> bool, i: int, j: int) -> bool {
    &&& 0 <= i < s.filter(p).len()
    &&& 0 <= j < s.len()
    &&& p(s[j])
    &&& s.filter(p)[i] == s[j]
}

/// The `j`-th part is the last that satisfies `p`.
spec fn is_last<A>(s: Seq<A>, p: spec_fn(A) -> bool, j: int) -> bool {
    &&& 0 <= j < s.len()
    &&& p(s[j])
    &&& forall|l: int| j < l < s.len() ==> !p(#[trigger] s[l])
}

proof fn lemma_kept_from<A>(s: Seq<A>, p: spec_fn(A) -> bool, i: int) -> (j: int)
    requires
        0 <= i < s.filter(p).len(),
    ensures
        keeps(s, p, i, j),
    decreases s.len(),
{
    reveal(Seq::filter);
    let f = s.drop_last();
    if i < f.filter(p).len() {
        let j = lemma_kept_from(f, p, i);
        assert(s[j] == f[j]);
        assert(s.filter(p)[i] == f.filter(p)[i]);
        j
    } else {
        s.len() - 1
    }
}

proof fn lemma_kept_as<A>(s: Seq<A>, p: spec_fn(A) -> bool, j: int) -> (i: int)
    requires
        0 <= j < s.len(),
        p(s[j]),
    ensures
        keeps(s, p, i, j),
    decreases s.len(),
{
    reveal(Seq::filter);
    let f = s.drop_last();
    if j < s.len() - 1 {
        assert(s[j] == f[j]);
        let i = lemma_kept_as(f, p, j);
        assert(s.filter(p)[i] == f.filter(p)[i]);
        i
    } else {
        s.filter(p).len() - 1
    }
}

proof fn lemma_kept_last<A>(s: Seq<A>, p: spec_fn(A) -> bool) -> (j: int)
    requires
        s.filter(p).len() > 0,
    ensures
        is_last(s, p, j),
        s.filter(p).last() == s[j],
    decreases s.len(),
{
    reveal(Seq::filter);
    let f = s.drop_last();
    let n = s.len() - 1;
    if p(s[n]) {
        n
    } else {
        let j = lemma_kept_last(f, p);
        assert(s[j] == f[j]);
        assert forall|l: int| j < l < s.len() implies !p(#[trigger] s[l]) by {
            if l < n {
                assert(s[l] == f[l]);
            }
        }
        j
    }
}

/// The moves that a side made in the cycle.
spec fn own_moves(g: GameView, color: Color) -> Seq<RecordView> {
    g.cycle().filter(by_actor(color))
}

proof fn lemma_linked(g: GameView, k: int)
    requires
        g.wf(),
        0 <= k < g.history.len(),
    ensures
        g.history[k].actor == g.position_at(k).side,
        g.history[k].after == g.position_at(k + 1),
        g.history[k].after.wf(),
{
    assert(g.linked(k));
    assert(g.position_at(k + 1).wf());
}

proof fn lemma_own_from(g: GameView, start: int, color: Color, i: int) -> (k: int)
    requires
        g.wf(),
        cycle_start(g, start),
        0 <= i < own_moves(g, color).len(),
    ensures
        made_by(g, start, color, k),
        own_moves(g, color)[i] == g.history[k],
{
    lemma_cycle(g, start, g.history.len());
    let j = lemma_kept_from(g.cycle(), by_actor(color), i);
    assert(g.cycle()[j] == g.history[start + j]);
    lemma_linked(g, start + j);
    start + j
}

proof fn lemma_own_as(g: GameView, start: int, color: Color, k: int) -> (i: int)
    requires
        g.wf(),
        cycle_start(g, start),
        made_by(g, start, color, k),
    ensures
        0 <= i < own_moves(g, color).len(),
        own_moves(g, color)[i] == g.history[k],
{
    lemma_cycle(g, start, g.history.len());
    lemma_linked(g, k);
    assert(g.cycle()[k - start] == g.history[k]);
    lemma_kept_as(g.cycle(), by_actor(color), k - start)
}

proof fn lemma_own_last(g: GameView, start: int, color: Color) -> (k: int)
    requires
        g.wf(),
        cycle_start(g, start),
        own_moves(g, color).len() > 0,
    ensures
        last_by(g, start, color, k),
        own_moves(g, color).last() == g.history[k],
{
    lemma_cycle(g, start, g.history.len());
    let c = g.cycle();
    let p = by_actor(color);
    let j = lemma_kept_last(c, p);
    let k = start + j;
    assert(c[j] == g.history[k]);
    lemma_linked(g, k);
    assert forall|l: int| k < l implies !(#[trigger] made_by(g, start, color, l)) by {
        if made_by(g, start, color, l) {
            lemma_linked(g, l);
            assert(c[l - start] == g.history[l]);
            assert(!p(c[l - start]));
        }
    }
    k
}

proof fn lemma_record(r: RecordView, id: u32)
    requires
        r.after.wf(),
    ensures
        forall|ax: int, ay: int| #[trigger]
            r.attacks(id, ax, ay) == hits(r.after, r.actor, id, (ax, ay)),
        r.attacked(id) == hit(r.after, r.actor, id),
        exchange_offered(r, id) == exchange_open(r.after, r.actor, id),
{
    let s = r.after;
    let t = square_of(s, id);
    assert(place(s, id) == t);
    assert forall|ax: int, ay: int| #[trigger]
        r.attacks(id, ax, ay) == hits(s, r.actor, id, (ax, ay)) by {
        if s.places.contains_key(id) && s.cells.contains_key((ax, ay)) {
            assert(s.cells.contains_key(t));
            let mv = step((ax, ay), t);
            assert((mv.sx as int, mv.sy as int) == (ax, ay));
            lemma_refusal(s, mv, None);
            assert(s.grid().contains_key(t));
            assert(s.grid()[t].color == s.cells[t].color);
        }
    }
    if r.attacked(id) {
        let (ax, ay) = choose|ax: int, ay: int| #[trigger] r.attacks(id, ax, ay);
        assert(hits(s, r.actor, id, (ax, ay)));
    }
    if hit(s, r.actor, id) {
        let f = choose|f: (int, int)| #[trigger] hits(s, r.actor, id, f);
        assert(r.attacks(id, f.0, f.1));
    }
    assert forall|ax: int, ay: int| #[trigger] offers_exchange(r, id, ax, ay) == (hits(
        s,
        r.actor,
        id,
        (ax, ay),
    ) && s.cells[(ax, ay)].kind == s.cells[t].kind && can_take(s, t, (ax, ay))) by {
        assert(r.attacks(id, ax, ay) == hits(s, r.actor, id, (ax, ay)));
        if r.attacks(id, ax, ay) {
            assert(s.cells.contains_key(t));
            let mv = step(t, (ax, ay));
            assert((mv.tx as int, mv.ty as int) == (ax, ay));
            lemma_refusal(s, mv, None);
        }
    }
    if exchange_offered(r, id) {
        let (ax, ay) = choose|ax: int, ay: int| #[trigger] offers_exchange(r, id, ax, ay);
        assert(hits(s, r.actor, id, (ax, ay)));
    }
    if exchange_open(s, r.actor, id) {
        let f = choose|f: (int, int)| #[trigger]
            hits(s, r.actor, id, f) && s.cells[f].kind == s.cells[t].kind && can_take(s, t, f);
        assert(offers_exchange(r, id, f.0, f.1));
    }
}

proof fn lemma_guarded(r: RecordView, id: u32)
    requires
        r.after.wf(),
        r.after.places.contains_key(id),
    ensures
        r.rooted(id) == guarded(r.after, id),
{
    let s = r.after;
    let t = square_of(s, id);
    assert(place(s, id) == t);
    assert(s.cells.contains_key(t));
    assert forall|ax: int, ay: int, dx: int, dy: int| #[trigger]
        r.retakes(id, ax, ay, dx, dy) == avenged(s, id, (ax, ay), (dx, dy)) by {
        let mv = step((ax, ay), t);
        if s.cells.contains_key((ax, ay)) {
            assert((mv.sx as int, mv.sy as int) == (ax, ay));
            assert((mv.tx as int, mv.ty as int) == t);
            lemma_refusal(s, mv, None);
            assert(s.grid().contains_key(t));
            assert(s.grid()[t].color == s.cells[t].color);
            if can_take(s, (ax, ay), t) {
                assert(s.pseudo_legal(mv, None)) by {
                    let p = s.cells[(ax, ay)];
                    assert(p.man() == (Man { color: p.color, kind: p.kind }));
                }
                law_moves_keep_positions_well_formed(s, mv, None);
                let n = s.after(mv);
                assert(n.cells.contains_key(t));
                assert(n.cells[t] == s.cells[(ax, ay)]);
                if n.cells.contains_key((dx, dy)) {
                    let back = step((dx, dy), t);
                    assert((back.sx as int, back.sy as int) == (dx, dy));
                    lemma_refusal(n, back, None);
                    assert(n.grid().contains_key(t));
                    assert(n.grid()[t].color == n.cells[t].color);
                }
            }
        }
    }
    if r.rooted(id) {
        let (ax, ay, dx, dy) = choose|ax: int, ay: int, dx: int, dy: int| #[trigger]
            r.retakes(id, ax, ay, dx, dy);
        assert(avenged(s, id, (ax, ay), (dx, dy)));
    }
    if guarded(s, id) {
        let (f, b) = choose|f: (int, int), b: (int, int)| #[trigger] avenged(s, id, f, b);
        assert(r.retakes(id, f.0, f.1, b.0, b.1));
    }
}

/// A man other than a king or a pawn may take the piece `id`.
spec fn hit_by_other(s: Setup, color: Color, id: u32) -> bool {
    ||| hit_by(s, color, id, PieceKind::Rook)
    ||| hit_by(s, color, id, PieceKind::Horse)
    ||| hit_by(s, color, id, PieceKind::Cannon)
    ||| hit_by(s, color, id, PieceKind::Advisor)
    ||| hit_by(s, color, id, PieceKind::Elephant)
}

proof fn lemma_hit_by_other(s: Setup, color: Color, id: u32, from: (int, int))
    requires
        hits(s, color, id, from),
    ensures
        s.cells[from].kind != PieceKind::King && s.cells[from].kind != PieceKind::Pawn
            ==> hit_by_other(s, color, id),
        hit_by(s, color, id, s.cells[from].kind),
{
    let kind = s.cells[from].kind;
    assert(hit_by(s, color, id, kind));
}

proof fn lemma_chase_found(g: GameView, start: int, color: Color, id: u32)
    requires
        g.wf(),
        cycle_start(g, start),
        own_moves(g, color).len() > 0,
        chased(g, start, color, id),
    ensures
        forbidden_chase(own_moves(g, color), id),
{
    let own = own_moves(g, color);
    assert forall|i: int| 0 <= i < own.len() implies (#[trigger] own[i]).attacked(id) by {
        let k = lemma_own_from(g, start, color, i);
        lemma_linked(g, k);
        lemma_record(own[i], id);
        assert(hit(g.position_at(k + 1), color, id));
    }
    assert(!chase_exempt(own, id)) by {
        let last = lemma_own_last(g, start, color);
        lemma_linked(g, last);
        let s = own.last().after;
        assert(!pawn_at_home(g.position_at(last + 1), id));
        assert(place(s, id) == square_of(s, id));
        let k = choose|k: int| #[trigger]
            made_by(g, start, color, k) && hit_by_other(g.position_at(k + 1), color, id);
        let i = lemma_own_as(g, start, color, k);
        lemma_linked(g, k);
        lemma_record(own[i], id);
        let a = own[i].after;
        let kind = choose|kind: PieceKind|
            kind != PieceKind::King && kind != PieceKind::Pawn && #[trigger] hit_by(
                a,
                color,
                id,
                kind,
            );
        let f = choose|f: (int, int)| #[trigger] hits(a, color, id, f) && a.cells[f].kind == kind;
        assert(own[i].attacks(id, f.0, f.1));
        let e = choose|e: int| #[trigger]
            made_by(g, start, color, e) && !exchange_open(g.position_at(e + 1), color, id);
        let j = lemma_own_as(g, start, color, e);
        lemma_linked(g, e);
        lemma_record(own[j], id);
        assert(!exchange_offered(own[j], id));
    }
    if forall|k: int| #[trigger]
        made_by(g, start, color, k) ==> !guarded(g.position_at(k + 1), id) {
        assert forall|i: int| 0 <= i < own.len() implies !(#[trigger] own[i]).rooted(id) by {
            let k = lemma_own_from(g, start, color, i);
            lemma_linked(g, k);
            assert(hit(g.position_at(k + 1), color, id));
            lemma_guarded(own[i], id);
        }
    } else {
        assert forall|i: int| 0 <= i < own.len() implies (#[trigger] own[i]).after.cells[place(
            own[i].after,
            id,
        )].kind == PieceKind::Rook && exists|ax: int, ay: int| #[trigger]
            crate::kernel::game::attacked_by_horse_or_cannon(own[i], id, ax, ay) by {
            let k = lemma_own_from(g, start, color, i);
            lemma_linked(g, k);
            lemma_record(own[i], id);
            let a = own[i].after;
            assert(place(a, id) == square_of(a, id));
            let kind = if hit_by(a, color, id, PieceKind::Horse) {
                PieceKind::Horse
            } else {
                PieceKind::Cannon
            };
            let f = choose|f: (int, int)| #[trigger] hits(a, color, id, f) && a.cells[f].kind == kind;
            assert(own[i].attacks(id, f.0, f.1));
            assert(crate::kernel::game::attacked_by_horse_or_cannon(own[i], id, f.0, f.1));
        }
        assert(rook_chased_by_lesser(own, id));
    }
}

proof fn lemma_found_chase(g: GameView, start: int, color: Color, id: u32)
    requires
        g.wf(),
        cycle_start(g, start),
        own_moves(g, color).len() > 0,
        forbidden_chase(own_moves(g, color), id),
    ensures
        chased(g, start, color, id),
{
    let own = own_moves(g, color);
    assert forall|k: int| #[trigger] made_by(g, start, color, k) implies hit(
        g.position_at(k + 1),
        color,
        id,
    ) by {
        let i = lemma_own_as(g, start, color, k);
        lemma_linked(g, k);
        lemma_record(own[i], id);
        assert(own[i].attacked(id));
    }
    assert forall|k: int| #[trigger] last_by(g, start, color, k) implies !pawn_at_home(
        g.position_at(k + 1),
        id,
    ) by {
        let last = lemma_own_last(g, start, color);
        if last < k {
            assert(!made_by(g, start, color, k));
        } else if k < last {
            assert(!made_by(g, start, color, last));
        }
        lemma_linked(g, k);
        assert(place(own.last().after, id) == square_of(own.last().after, id));
    }
    assert(exists|i: int, ax: int, ay: int|
        0 <= i < own.len() && #[trigger] own[i].attacks(id, ax, ay)
            && !crate::kernel::game::may_chase(own[i].after.cells[(ax, ay)].kind));
    let (i, ax, ay) = choose|i: int, ax: int, ay: int|
        0 <= i < own.len() && #[trigger] own[i].attacks(id, ax, ay)
            && !crate::kernel::game::may_chase(own[i].after.cells[(ax, ay)].kind);
    let k = lemma_own_from(g, start, color, i);
    lemma_linked(g, k);
    lemma_record(own[i], id);
    assert(hits(g.position_at(k + 1), color, id, (ax, ay)));
    lemma_hit_by_other(g.position_at(k + 1), color, id, (ax, ay));
    assert(made_by(g, start, color, k) && hit_by_other(g.position_at(k + 1), color, id));
    let e = choose|e: int| 0 <= e < own.len() && !exchange_offered(#[trigger] own[e], id);
    let m = lemma_own_from(g, start, color, e);
    lemma_linked(g, m);
    lemma_record(own[e], id);
    assert(made_by(g, start, color, m) && !exchange_open(g.position_at(m + 1), color, id));
    if rook_chased_by_lesser(own, id) {
        assert forall|k: int| #[trigger] made_by(g, start, color, k) implies ({
            let s = g.position_at(k + 1);
            &&& s.cells[square_of(s, id)].kind == PieceKind::Rook
            &&& hit_by(s, color, id, PieceKind::Horse) || hit_by(s, color, id, PieceKind::Cannon)
        }) by {
            let i = lemma_own_as(g, start, color, k);
            lemma_linked(g, k);
            lemma_record(own[i], id);
            let s = own[i].after;
            assert(own[i].after.cells[place(own[i].after, id)].kind == PieceKind::Rook);
            assert(place(s, id) == square_of(s, id));
            let (ax, ay) = choose|ax: int, ay: int| #[trigger]
                crate::kernel::game::attacked_by_horse_or_cannon(own[i], id, ax, ay);
            assert(own[i].attacks(id, ax, ay));
            assert(hits(s, color, id, (ax, ay)));
            lemma_hit_by_other(s, color, id, (ax, ay));
        }
    } else {
        assert forall|k: int| #[trigger] made_by(g, start, color, k) implies !guarded(
            g.position_at(k + 1),
            id,
        ) by {
            let i = lemma_own_as(g, start, color, k);
            lemma_linked(g, k);
            assert(own[i].attacked(id));
            assert(!own[i].rooted(id));
            lemma_record(own[i], id);
            assert(hit(own[i].after, color, id));
            lemma_guarded(own[i], id);
        }
    }
}

/// In a cycle a side is guilty of perpetual check exactly when each of its moves gave check, and else
/// of a perpetual chase exactly when it kept chasing some piece.
pub proof fn law_guilt(g: GameView, start: int, color: Color)
    requires
        g.wf(),
        g.repeated(),
        cycle_start(g, start),
    ensures
        violation(g.cycle(), color) == Some(Violation::Check) <==> kept_checking(g, start, color),
        violation(g.cycle(), color) == Some(Violation::Chase) <==> !kept_checking(g, start, color)
            && kept_chasing(g, start, color),
{
    let own = own_moves(g, color);
    law_cycle_has_moves_of_both_sides(g, color);
    let m = choose|i: int| 0 <= i < g.cycle().len() && (#[trigger] g.cycle()[i]).actor == color;
    let first = lemma_kept_as(g.cycle(), by_actor(color), m);
    assert(own.len() > 0);
    if kept_checking(g, start, color) {
        assert forall|i: int| 0 <= i < own.len() implies (#[trigger] own[i]).after.in_check(
            color.opposite(),
        ) by {
            let k = lemma_own_from(g, start, color, i);
            lemma_linked(g, k);
        }
    }
    if crate::kernel::game::always_checks(own, color) {
        assert forall|k: int| #[trigger] made_by(g, start, color, k) implies g.position_at(
            k + 1,
        ).in_check(color.opposite()) by {
            let i = lemma_own_as(g, start, color, k);
            lemma_linked(g, k);
            assert(own[i].after.in_check(color.opposite()));
        }
    }
    if kept_chasing(g, start, color) {
        let id = choose|id: u32| #[trigger] chased(g, start, color, id);
        lemma_chase_found(g, start, color, id);
        assert(perpetual_chase(own));
    }
    if perpetual_chase(own) {
        let id = choose|id: u32| #[trigger] forbidden_chase(own, id);
        lemma_found_chase(g, start, color, id);
    }
}

/// When a position with a legal move stands for the third time, the moves since it last stood decide.
/// A side that gave check with each of them loses to one that did not. If neither did, a side that
/// kept chasing a piece loses to one that did not. Otherwise the game is drawn.
pub proof fn law_repetition_is_judged(g: GameView, start: int, color: Color)
    requires
        g.wf(),
        exists|mv: Move| #[trigger] g.position.legal(mv),
        cycle_start(g, start),
        exists|i: int| 0 <= i < start && #[trigger] stood(g, i),
    ensures
        ({
            let other = match color {
                Color::Red => Color::Black,
                Color::Black => Color::Red,
            };
            let checks = kept_checking(g, start, color);
            let other_checks = kept_checking(g, start, other);
            let chases = kept_chasing(g, start, color);
            let other_chases = kept_chasing(g, start, other);
            &&& checks && !other_checks ==> g.outcome() == (GameStatus {
                is_terminal: true,
                reason: Some(GameStatusReason::PerpetualCheck),
                winner: Some(other),
            })
            &&& !checks && !other_checks && chases && !other_chases ==> g.outcome() == (GameStatus {
                is_terminal: true,
                reason: Some(GameStatusReason::PerpetualChase),
                winner: Some(other),
            })
            &&& checks == other_checks && (checks || chases == other_chases) ==> g.outcome() == (
            GameStatus {
                is_terminal: true,
                reason: Some(GameStatusReason::MutualPerpetual),
                winner: None,
            })
        }),
{
    let i = choose|i: int| 0 <= i < start && #[trigger] stood(g, i);
    assert(stood(g, start));
    law_threefold(g);
    assert(g.position_at(g.history.len() as int).wf());
    law_board_result(g.position);
    law_guilt(g, start, color);
    law_guilt(g, start, color.opposite());
}

/// Chasing a piece with one and the same kind of man loses, be it a rook, a horse, a cannon, an
/// advisor or an elephant: when with every move such a man threatened to take the piece, which was
/// never guarded nor open to an exchange of equal men and is no pawn on its own side of the river,
/// and nobody else broke the rules of repetition.
pub proof fn law_chase_loses(g: GameView, start: int, color: Color, id: u32, kind: PieceKind)
    requires
        g.wf(),
        exists|mv: Move| #[trigger] g.position.legal(mv),
        cycle_start(g, start),
        exists|i: int| 0 <= i < start && #[trigger] stood(g, i),
        kind == PieceKind::Rook || kind == PieceKind::Horse || kind == PieceKind::Cannon || kind
            == PieceKind::Advisor || kind == PieceKind::Elephant,
        forall|k: int| #[trigger]
            made_by(g, start, color, k) ==> hit_by(g.position_at(k + 1), color, id, kind)
                && !guarded(g.position_at(k + 1), id) && !exchange_open(
                g.position_at(k + 1),
                color,
                id,
            ) && !pawn_at_home(g.position_at(k + 1), id),
        !kept_checking(g, start, color),
        !kept_checking(g, start, color.opposite()),
        !kept_chasing(g, start, color.opposite()),
    ensures
        g.outcome().is_terminal,
        g.outcome().reason == Some(GameStatusReason::PerpetualChase),
        color == Color::Red ==> g.outcome().winner == Some(Color::Black),
        color == Color::Black ==> g.outcome().winner == Some(Color::Red),
{
    let m = choose|k: int| #[trigger]
        made_by(g, start, color, k) && !g.position_at(k + 1).in_check(color.opposite());
    assert(made_by(g, start, color, m));
    assert(hit_by(g.position_at(m + 1), color, id, kind));
    assert forall|k: int| #[trigger] made_by(g, start, color, k) implies hit(
        g.position_at(k + 1),
        color,
        id,
    ) by {
        let s = g.position_at(k + 1);
        let f = choose|f: (int, int)| #[trigger] hits(s, color, id, f) && s.cells[f].kind == kind;
        assert(hits(s, color, id, f));
    }
    assert(chased(g, start, color, id));
    law_repetition_is_judged(g, start, color);
}

/// Kings and pawns may chase: a side that threatened with nothing else to take any piece is not
/// guilty of a chase.
pub proof fn law_kings_and_pawns_may_chase(g: GameView, start: int, color: Color)
    requires
        g.wf(),
        g.repeated(),
        cycle_start(g, start),
        forall|k: int, id: u32, kind: PieceKind| #[trigger]
            made_by(g, start, color, k) && #[trigger] hit_by(g.position_at(k + 1), color, id, kind)
                ==> kind == PieceKind::King || kind == PieceKind::Pawn,
    ensures
        violation(g.cycle(), color) != Some(Violation::Chase),
{
    law_guilt(g, start, color);
}

/// Without a repetition the game goes on as long as the side to move has a legal move, fewer than a
/// hundred plies were played since the last capture and fewer than three hundred in all.
pub proof fn law_game_goes_on(g: GameView)
    requires
        g.wf(),
    ensures
        !g.outcome().is_terminal <==> {
            &&& exists|mv: Move| #[trigger] g.position.legal(mv)
            &&& !(exists|i: int, j: int|
                0 <= i < j < g.history.len() && #[trigger] stood(g, i) && #[trigger] stood(g, j))
            &&& g.position.quiet < 100
            &&& g.history.len() < 300
        },
        !(exists|mv: Move| #[trigger] g.position.legal(mv)) ==> g.outcome() == g.position.outcome(),
        g.outcome().reason == Some(GameStatusReason::FiftyMove) ==> g.position.quiet >= 100
            && g.outcome().winner is None,
        g.outcome().reason == Some(GameStatusReason::MaxMoves) ==> g.history.len() >= 300
            && g.position.quiet < 100 && g.outcome().winner is None,
{
    assert(g.position_at(g.history.len() as int).wf());
    law_board_result(g.position);
    law_threefold(g);
}

} // verus!

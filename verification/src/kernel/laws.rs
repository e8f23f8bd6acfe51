//! Properties of the rules as a whole.

use vstd::prelude::*;

use crate::fen::{lemma_rank_texts_read_back, rank_texts};
use crate::grid::{at, on_board, palace, stands, threatens, Grid, Man};
use crate::kernel::game::{verdict, GameView, RecordView, Violation};
use crate::kernel::setup::{checked, gives_check, lemma_fen_fields, Setup};
use crate::kernel::types::{Color, GameStatusReason, Move, PieceKind};

verus! {

/// A king in its palace is in check exactly when a man of the other side could capture it or the
/// other king faces it along an open line. Advisors and elephants therefore need not be looked at,
/// nor whether a pawn beside the king has crossed the river.
pub proof fn law_check_is_threat_of_capture(g: Grid, color: Color, kx: int, ky: int)
    requires
        palace(color, kx, ky),
        stands(g, color, PieceKind::King, kx, ky),
    ensures
        checked(g, color, kx, ky) <==> exists|ax: int, ay: int| #[trigger]
            threatens(g, color.opposite(), ax, ay, kx, ky),
{
    let enemy = color.opposite();
    assert forall|ax: int, ay: int| #[trigger]
        gives_check(g, enemy, ax, ay, kx, ky) <==> #[trigger] threatens(
            g,
            enemy,
            ax,
            ay,
            kx,
            ky,
        ) by {}
    if checked(g, color, kx, ky) {
        let (ax, ay) = choose|ax: int, ay: int| #[trigger]
            gives_check(g, enemy, ax, ay, kx, ky);
        assert(threatens(g, enemy, ax, ay, kx, ky));
    }
    if exists|ax: int, ay: int| #[trigger] threatens(g, enemy, ax, ay, kx, ky) {
        let (ax, ay) = choose|ax: int, ay: int| #[trigger] threatens(g, enemy, ax, ay, kx, ky);
        assert(gives_check(g, enemy, ax, ay, kx, ky));
    }
}

/// A legal move never leaves the king of the side that moved in check.
pub proof fn law_legal_moves_leave_king_safe(s: Setup, mv: Move)
    requires
        s.legal(mv),
    ensures
        !s.after(mv).in_check(s.side),
{
}

/// The king of `color` stands where the position says, inside its palace.
pub open spec fn king_at_home(s: Setup, color: Color) -> bool {
    &&& s.king(color) matches Some(k)
    &&& palace(color, k.0 as int, k.1 as int)
    &&& stands(s.grid(), color, PieceKind::King, k.0 as int, k.1 as int)
    &&& forall|x: int, y: int| #[trigger]
        s.cells.contains_key((x, y)) && s.cells[(x, y)].man() == (Man {
            color,
            kind: PieceKind::King,
        }) ==> (x, y) == (k.0 as int, k.1 as int)
}

/// A legal move keeps each side's only king known and in its palace, unless it captures it.
pub proof fn law_kings_stay_home(s: Setup, mv: Move, color: Color)
    requires
        s.wf(),
        s.legal(mv),
        king_at_home(s, color),
        (mv.tx, mv.ty) != s.king(color).unwrap() || s.side == color,
    ensures
        king_at_home(s.after(mv), color),
{
    let k = s.king(color).unwrap();
    let n = s.after(mv);
    let from = (mv.sx as int, mv.sy as int);
    let piece = s.mover(mv);
    assert(s.cells.contains_key(from));
    if piece.kind == PieceKind::King && piece.color == color {
        assert(n.king(color) == Some((mv.tx, mv.ty)));
    } else {
        assert(n.king(color) == s.king(color));
        assert((mv.sx, mv.sy) != k);
    }
    assert forall|x: int, y: int| #[trigger]
        n.cells.contains_key((x, y)) && n.cells[(x, y)].man() == (Man {
            color,
            kind: PieceKind::King,
        }) implies (x, y) == (
        n.king(color).unwrap().0 as int,
        n.king(color).unwrap().1 as int,
    ) by {
        if (x, y) != (mv.tx as int, mv.ty as int) {
            assert(s.cells.contains_key((x, y)));
        }
    }
}

/// Two positions have the same repetition key exactly when the same men stand on the same squares
/// and the same side is to move; the counters and the identities of the pieces do not matter.
pub proof fn law_key_identifies_position(s: Setup, t: Setup)
    requires
        s.wf(),
        t.wf(),
    ensures
        s.fen() == t.fen() <==> s.grid() == t.grid() && s.side == t.side,
{
    if s.fen() == t.fen() {
        lemma_rank_texts_read_back(s.grid());
        lemma_rank_texts_read_back(t.grid());
        crate::fen::lemma_row_text_nonempty(s.grid(), 0);
        crate::fen::lemma_row_text_nonempty(t.grid(), 0);
        lemma_fen_fields(rank_texts(s.grid()), s.side);
        lemma_fen_fields(rank_texts(t.grid()), t.side);
        assert(rank_texts(s.grid()) == rank_texts(t.grid()));
        assert forall|x: int, y: int| at(s.grid(), x, y) == #[trigger] at(t.grid(), x, y) by {
            assert(s.cells.contains_key((x, y)) ==> on_board(x, y));
            assert(t.cells.contains_key((x, y)) ==> on_board(x, y));
            if on_board(x, y) {
                let c = crate::fen::board_cell(
                    crate::fen::Letters::Narrow,
                    rank_texts(s.grid()),
                    x,
                    y,
                );
                assert(match c {
                    Some((id, m)) => at(s.grid(), x, y) == Some(m),
                    None => at(s.grid(), x, y) is None,
                });
            }
        }
        assert forall|k: (int, int)| #[trigger] s.grid().contains_key(k) == t.grid().contains_key(k) && (
        s.grid().contains_key(k) ==> s.grid()[k] == t.grid()[k]) by {
            assert(at(s.grid(), k.0, k.1) == at(t.grid(), k.0, k.1));
        }
        assert(s.grid() =~= t.grid());
    }
}

/// A move takes its piece, with its identity, from its source to its target, removes at most the
/// piece captured there, and leaves every other piece where it was.
pub proof fn law_pieces_keep_identity(s: Setup, mv: Move, id: u32)
    requires
        s.wf(),
        s.legal(mv),
    ensures
        s.after(mv).places.contains_key(s.mover(mv).piece_id),
        s.after(mv).places[s.mover(mv).piece_id] == (mv.tx, mv.ty),
        id != s.mover(mv).piece_id && !(s.captures(mv) && s.cells[(
            mv.tx as int,
            mv.ty as int,
        )].piece_id == id) ==> s.after(mv).places.contains_key(id) == s.places.contains_key(id) && (
        s.places.contains_key(id) ==> s.after(mv).places[id] == s.places[id]),
{
    let t = (mv.tx as int, mv.ty as int);
    let f = (mv.sx as int, mv.sy as int);
    assert(s.cells.contains_key(f));
    if s.captures(mv) {
        assert(s.cells.contains_key(t));
        assert(s.cells[t].piece_id != s.cells[f].piece_id);
    }
}

/// In a cycle both sides have moved, so that the conduct of each can be judged.
pub proof fn law_cycle_has_moves_of_both_sides(g: GameView, color: Color)
    requires
        g.wf(),
        g.repeated(),
    ensures
        exists|i: int| 0 <= i < g.cycle().len() && (#[trigger] g.cycle()[i]).actor == color,
{
    let n = g.history.len();
    lemma_previous(g, n);
    assert(g.occurrences(n + 1) <= g.occurrences(n) + 1);
    let start = g.previous(n);
    let c = g.cycle();
    assert(g.position_at(start).wf());
    assert(g.position_at(n as int).wf());
    assert(g.position_at(n as int) == g.position);
    law_key_identifies_position(g.position_at(start), g.position);
    assert(g.linked(start));
    assert(g.linked(n - 1));
    assert(g.position_at(n as int) == g.position);
    assert(c[0].actor == g.position.side);
    assert(c[c.len() - 1] == g.history[n - 1]);
    assert(c[c.len() - 1].actor == g.position.side.opposite());
}

pub(crate) proof fn lemma_previous(g: GameView, n: nat)
    requires
        n <= g.history.len(),
    ensures
        g.occurrences(n) > 0 ==> 0 <= g.previous(n) < n && g.position_at(g.previous(n)).fen()
            == g.position.fen(),
    decreases n,
{
    if n > 0 {
        lemma_previous(g, (n - 1) as nat);
    }
}

/// The verdict on a repetition does not favour a side: exchanging the conduct of the sides
/// exchanges the winner. The side whose conduct was worse loses.
pub proof fn law_verdict_is_even_handed(red: Option<Violation>, black: Option<Violation>)
    ensures
        verdict(red, black).reason == verdict(black, red).reason,
        match verdict(red, black).winner {
            None => red == black && verdict(black, red).winner is None,
            Some(w) => verdict(black, red).winner == Some(w.opposite()),
        },
        red is Some && black is None ==> verdict(red, black).winner == Some(Color::Black),
        red == Some(Violation::Check) && black == Some(Violation::Chase) ==> verdict(
            red,
            black,
        ).winner == Some(Color::Black),
{
    match red {
        None => {},
        Some(Violation::Check) => {},
        Some(Violation::Chase) => {},
    }
    match black {
        None => {},
        Some(Violation::Check) => {},
        Some(Violation::Chase) => {},
    }
}

/// A game has ended exactly when there is a reason; only checkmate, stalemate, perpetual check and
/// perpetual chase have a winner.
pub proof fn law_outcome_consistent(g: GameView)
    ensures
        g.outcome().is_terminal == g.outcome().reason is Some,
        g.outcome().winner is Some <==> (g.outcome().reason matches Some(r) && (r
            == GameStatusReason::Checkmate || r == GameStatusReason::Stalemate || r
            == GameStatusReason::PerpetualCheck || r == GameStatusReason::PerpetualChase)),
{
}

/// Positions with both kings and room in the counters can always be judged.
pub proof fn law_ordinary_positions_judgeable(s: Setup)
    requires
        s.king(Color::Red) is Some,
        s.king(Color::Black) is Some,
        s.quiet < u32::MAX,
        s.fullmove < u32::MAX,
    ensures
        s.all_judgeable(),
        forall|mv: Move, c: Option<Color>| #[trigger] s.judgeable(mv, c),
{
}

/// A recorded move can be analysed when both kings were known after it and the number of moves has
/// room.
pub proof fn law_ordinary_records_analysable(r: RecordView)
    requires
        r.after.wf(),
        r.after.king(Color::Red) is Some,
        r.after.king(Color::Black) is Some,
        r.after.fullmove < u32::MAX,
    ensures
        r.analysable(),
{
    assert forall|mv: Move, reply: Move|
        r.after.captures(mv) && r.after.pseudo_legal(mv, None) implies #[trigger] r.after.after(
        mv,
    ).judgeable(reply, None) by {
        assert(r.after.after(mv).quiet == 0);
        assert(r.after.after(mv).king(Color::Red) is Some);
        assert(r.after.after(mv).king(Color::Black) is Some);
    }
}

} // verus!

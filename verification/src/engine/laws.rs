//! Properties of the mutable board and its games as a whole.

use vstd::prelude::*;

use crate::engine::game::{severity, verdict, Play};
use crate::engine::layout::{keys_upto, law_moves_keep_boards_well_formed, nth_square, Layout};
use crate::engine::tactics::attacks;
use crate::engine::types::{Color, GameStatusReason, Move, Piece, PieceKind};
use crate::engine::zobrist::{law_keys_make_one_table, small_rng_numbers, ZobristTable, KEY_COUNT, SEED};
use crate::grid::{at, could_capture, faces, palace, stands, threatens};
use crate::kernel::setup::Setup;

verus! {

/// The king of `color` stands where it is noted, inside its palace.
pub open spec fn king_at_home(l: Layout, color: Color) -> bool {
    let k = l.king(color);
    palace(color, k.x as int, k.y as int) && stands(
        l.grid(),
        color,
        PieceKind::King,
        k.x as int,
        k.y as int,
    )
}

/// With both kings in their palaces, one of them is in check exactly when a man of the other side
/// could capture it or the other king faces it along an open line.
pub proof fn law_check_is_threat_of_capture(l: Layout, color: Color)
    requires
        l.wf(),
        king_at_home(l, color),
        king_at_home(l, color.opposite()),
    ensures
        l.in_check(color) <==> exists|ax: int, ay: int| #[trigger]
            threatens(
                l.grid(),
                color.opposite(),
                ax,
                ay,
                l.king(color).x as int,
                l.king(color).y as int,
            ),
{
    let g = l.grid();
    let enemy = color.opposite();
    let kx = l.king(color).x as int;
    let ky = l.king(color).y as int;
    let ex = l.king(enemy).x as int;
    let ey = l.king(enemy).y as int;
    assert forall|ax: int, ay: int| #[trigger] attacks(g, enemy, ax, ay, kx, ky)
        == #[trigger] could_capture(g, enemy, ax, ay, kx, ky) by {}
    assert forall|ax: int, ay: int| #[trigger] faces(g, enemy, ax, ay, kx, ky) implies (ax, ay) == (
        ex,
        ey,
    ) by {
        assert(l.cells.contains_key((ax, ay)));
    }
    if l.in_check(color) {
        if l.king_attacked(color) {
            let (ax, ay) = choose|ax: int, ay: int| #[trigger]
                attacks(g, enemy, ax, ay, kx, ky);
            assert(could_capture(g, enemy, ax, ay, kx, ky));
            assert(threatens(g, enemy, ax, ay, kx, ky));
        } else {
            assert(faces(g, enemy, ex, ey, kx, ky));
            assert(threatens(g, enemy, ex, ey, kx, ky));
        }
    }
    if exists|ax: int, ay: int| #[trigger] threatens(g, enemy, ax, ay, kx, ky) {
        let (ax, ay) = choose|ax: int, ay: int| #[trigger] threatens(g, enemy, ax, ay, kx, ky);
        if could_capture(g, enemy, ax, ay, kx, ky) {
            assert(attacks(g, enemy, ax, ay, kx, ky));
        } else {
            assert(faces(g, enemy, ax, ay, kx, ky));
        }
    }
}

/// The same men stand on both boards, and both note the same squares for the kings.
pub open spec fn same_position(l: Layout, s: Setup) -> bool {
    &&& l.grid() == s.grid()
    &&& l.side == s.side
    &&& forall|c: Color| (#[trigger] s.king(c)) matches Some(k) && (k.0 as int, k.1 as int)
        == l.king(c).at()
}

/// The mutable board and the immutable position judge checks alike.
pub proof fn law_both_boards_agree_on_check(l: Layout, s: Setup, color: Color)
    requires
        l.wf(),
        s.wf(),
        same_position(l, s),
        king_at_home(l, color),
        king_at_home(l, color.opposite()),
    ensures
        l.in_check(color) == s.in_check(color),
{
    law_check_is_threat_of_capture(l, color);
    let k = s.king(color).unwrap();
    crate::kernel::laws::law_check_is_threat_of_capture(
        s.grid(),
        color,
        k.0 as int,
        k.1 as int,
    );
}

/// The two moves lead from the same square to the same square.
pub open spec fn same_move(a: Move, b: crate::kernel::types::Move) -> bool {
    a.from.x == b.sx && a.from.y == b.sy && a.to.x == b.tx && a.to.y == b.ty
}

/// The mutable board and the immutable position allow the same moves, as long as both kings stand in
/// their palaces and none is captured.
pub proof fn law_both_boards_agree_on_legality(
    l: Layout,
    s: Setup,
    a: Move,
    b: crate::kernel::types::Move,
)
    requires
        l.wf(),
        s.wf(),
        same_position(l, s),
        forall|c: Color| #[trigger] king_at_home(l, c),
        same_move(a, b),
        l.captured(a) matches Some(p) ==> p.kind != PieceKind::King,
    ensures
        l.legal(a, l.side) == s.legal(b),
{
    let g = l.grid();
    assert(forall|x: int, y: int| l.cells.contains_key((x, y)) <==> #[trigger] g.contains_key((x, y)));
    assert(forall|x: int, y: int| s.cells.contains_key((x, y)) <==> #[trigger] g.contains_key((x, y)));
    let from = a.from.at();
    let to = a.to.at();
    if a.valid() && g.contains_key(from) {
        assert(g[from] == l.mover(a).man());
        assert(g[from] == s.mover(b).man());
        if g.contains_key(to) {
            assert(g[to] == l.cells[to].man());
            assert(g[to] == s.cells[to].man());
        }
        if l.pseudo_legal(a, Some(l.side)) {
            let l2 = l.after(a);
            let s2 = s.after(b);
            assert(l2.grid() =~= g.remove(from).insert(to, g[from]));
            assert(s2.grid() =~= g.remove(from).insert(to, g[from]));
            law_moves_keep_boards_well_formed(l, a);
            crate::kernel::setup::law_moves_keep_positions_well_formed(s, b, Some(s.side));
            assert forall|c: Color| #[trigger] king_at_home(l2, c) by {
                assert(king_at_home(l, c));
                let k = l.king(c);
                assert(l.cells.contains_key(k.at()));
                assert(g[k.at()] == l.cells[k.at()].man());
            }
            assert(same_position(l2, s2)) by {
                assert forall|c: Color| (#[trigger] s2.king(c)) matches Some(k) && (
                    k.0 as int,
                    k.1 as int,
                ) == l2.king(c).at() by {
                    assert(s.king(c) is Some);
                }
            }
            law_both_boards_agree_on_check(l2, s2, l.side);
        }
    }
}

/// Taking back a move just made restores the board, the moves and the history of the game.
pub proof fn law_undo_after_make(p: Play, mv: Move, next: Play)
    requires
        p.wf(),
        p.board.can_make(mv),
        p.extended(mv, next),
    ensures
        next.layout_at(next.infos.len() - 1) == p.board,
        next.infos.drop_last() == p.infos,
        next.history.drop_last() == p.history,
{
    crate::engine::game::law_move_extends_game(p, mv, next);
    assert(p.layout_at(p.infos.len() as int) == p.board);
    assert(next.infos.drop_last() =~= p.infos);
}

proof fn lemma_keys_by_type(
    table: ZobristTable,
    a: Map<(int, int), Piece>,
    b: Map<(int, int), Piece>,
    n: nat,
)
    requires
        forall|x: int, y: int| #[trigger] a.contains_key((x, y)) == b.contains_key((x, y)),
        forall|x: int, y: int| #[trigger]
            a.contains_key((x, y)) ==> a[(x, y)].man() == b[(x, y)].man(),
    ensures
        keys_upto(table, a, n) == keys_upto(table, b, n),
    decreases n,
{
    if n > 0 {
        lemma_keys_by_type(table, a, b, (n - 1) as nat);
        let s = nth_square(n - 1);
        assert(a.contains_key((s.0, s.1)) == b.contains_key((s.0, s.1)));
        if a.contains_key(s) {
            assert(a[(s.0, s.1)].man() == b[(s.0, s.1)].man());
            assert(a[s].number() == b[s].number());
        }
    }
}

proof fn lemma_grid_cells(l: Layout)
    ensures
        forall|x: int, y: int| #[trigger]
            l.cells.contains_key((x, y)) == l.grid().contains_key((x, y)),
        forall|x: int, y: int| #[trigger]
            l.cells.contains_key((x, y)) ==> l.cells[(x, y)].man() == l.grid()[(x, y)],
{
}

/// Boards with the same men on the same squares and the same side to move have the same hash, so
/// that no repetition is missed. That the tables agree holds in particular of any two boards with
/// the shared one.
pub proof fn law_equal_positions_have_equal_hashes(a: Layout, b: Layout)
    requires
        a.consistent(),
        b.consistent(),
        a.table == b.table || (a.table.is_shared() && b.table.is_shared()),
        a.grid() == b.grid(),
        a.side == b.side,
    ensures
        a.hash == b.hash,
{
    if a.table.is_shared() && b.table.is_shared() {
        law_keys_make_one_table(
            a.table,
            b.table,
            small_rng_numbers(SEED, usize::BITS as nat, KEY_COUNT as nat),
        );
    }
    lemma_grid_cells(a);
    lemma_grid_cells(b);
    lemma_keys_by_type(a.table, a.cells, b.cells, 90);
}

/// The verdict on a cycle does not favour a side, and the worse conduct loses.
pub proof fn law_verdict_is_even_handed(
    red: Option<GameStatusReason>,
    black: Option<GameStatusReason>,
)
    ensures
        verdict(red, black).reason == verdict(black, red).reason,
        match verdict(red, black).winner {
            None => severity(red) == severity(black) && verdict(black, red).winner is None,
            Some(w) => verdict(black, red).winner == Some(w.opposite()),
        },
        severity(red) > severity(black) ==> verdict(red, black).winner == Some(Color::Black),
{
}

/// A game has ended exactly when there is a reason; only checkmate, stalemate, perpetual check and
/// perpetual chase have a winner.
pub proof fn law_outcome_consistent(p: Play)
    ensures
        p.outcome().is_terminal == p.outcome().reason is Some,
        p.outcome().winner is Some <==> (p.outcome().reason matches Some(r) && (r
            == GameStatusReason::Checkmate || r == GameStatusReason::Stalemate || r
            == GameStatusReason::PerpetualCheck || r == GameStatusReason::PerpetualChase)),
{
}

} // verus!

//! The game goes on from the starting board.

use vstd::prelude::*;

use crate::engine::game::Play;
use crate::engine::layout::{fen_cells, fen_describes, lemma_start_fen, start_rows, Layout};
use crate::engine::mcts::ordinary;
use crate::engine::tactics::{attacks, law_legal_list_exact};
use crate::engine::types::{Color, Move, PieceKind, Position};
use crate::fen::{lemma_row_cell_source, row_cell, row_width};
use crate::grid::{lemma_col_counts, vacant, Man};

verus! {

/// What the rows of the starting board say of some squares.
proof fn lemma_start_letters()
    ensures
        row_cell(start_rows()[6], 0) matches Some((c, k)) && c == 'P',
        row_cell(start_rows()[6], 4) matches Some((c, k)) && c == 'P',
        row_cell(start_rows()[3], 4) matches Some((c, k)) && c == 'p',
        row_cell(start_rows()[5], 0) is None,
        row_cell(start_rows()[2], 4) is None,
{
    let rows = start_rows();
    assert(row_cell(rows[6], 0) matches Some((c, k)) && c == 'P') by {
        reveal_with_fuel(row_width, 10);
        reveal_with_fuel(row_cell, 10);
    }
    assert(row_cell(rows[6], 4) matches Some((c, k)) && c == 'P') by {
        reveal_with_fuel(row_width, 10);
        reveal_with_fuel(row_cell, 10);
    }
    assert(row_cell(rows[3], 4) matches Some((c, k)) && c == 'p') by {
        reveal_with_fuel(row_width, 10);
        reveal_with_fuel(row_cell, 10);
    }
    assert(row_cell(rows[5], 0) is None) by {
        reveal_with_fuel(row_cell, 2);
    }
    assert(row_cell(rows[2], 4) is None) by {
        reveal_with_fuel(row_width, 6);
        reveal_with_fuel(row_cell, 6);
    }
}

/// Where the rows of the starting board put the kings.
proof fn lemma_start_king_letters()
    ensures
        row_cell(start_rows()[0], 4) matches Some((c, k)) && c == 'k',
        row_cell(start_rows()[9], 4) matches Some((c, k)) && c == 'K',
{
    let rows = start_rows();
    assert(row_cell(rows[0], 4) matches Some((c, k)) && c == 'k') by {
        reveal_with_fuel(row_width, 10);
        reveal_with_fuel(row_cell, 10);
    }
    assert(row_cell(rows[9], 4) matches Some((c, k)) && c == 'K') by {
        reveal_with_fuel(row_width, 10);
        reveal_with_fuel(row_cell, 10);
    }
}

/// What stands on some squares of the starting board.
proof fn lemma_start_squares()
    ensures
        ({
            let c = fen_cells(start_rows());
            &&& c.contains_key((0, 6)) && c[(0, 6)].man() == (Man {
                color: Color::Red,
                kind: PieceKind::Pawn,
            })
            &&& c.contains_key((4, 6))
            &&& !c.contains_key((0, 5))
            &&& c.contains_key((4, 3)) && c[(4, 3)].kind == PieceKind::Pawn
            &&& !c.contains_key((4, 2))
            &&& c.contains_key((4, 0)) && c[(4, 0)].man() == (Man {
                color: Color::Black,
                kind: PieceKind::King,
            })
            &&& c.contains_key((4, 9)) && c[(4, 9)].man() == (Man {
                color: Color::Red,
                kind: PieceKind::King,
            })
        }),
{
    lemma_start_letters();
    lemma_start_king_letters();
}

/// Black stands on the first, third and fourth ranks.
proof fn lemma_start_sides(x: int, y: int)
    requires
        fen_cells(start_rows()).contains_key((x, y)),
    ensures
        fen_cells(start_rows())[(x, y)].color == Color::Black ==> y == 0 || y == 2 || y == 3,
{
    let rows = start_rows();
    lemma_row_cell_source(rows[y], x);
}

/// From the starting board a pawn may advance.
proof fn lemma_start_move(l: Layout)
    requires
        fen_describes(
            "rnbakabnr/9/1c5c1/p1p1p1p1p/9/9/P1P1P1P1P/1C5C1/9/RNBAKABNR w - - 0 1"@,
            l,
        ),
    ensures
        l.legal(Move { from: Position { x: 0, y: 6 }, to: Position { x: 0, y: 5 } }, Color::Red),
        l.side == Color::Red,
        l.quiet == 0,
        l.fullmove == 1,
{
    let mv = Move { from: Position { x: 0, y: 6 }, to: Position { x: 0, y: 5 } };
    lemma_start_fen();
    lemma_start_squares();
    assert(l.wf());
    assert(l.cells.contains_key((4, 9)) && l.cells.contains_key((4, 0)));
    assert(l.king(Color::Red).at() == (4int, 9int));
    assert(l.king(Color::Black).at() == (4int, 0int));
    assert(l.mover(mv).man() == (Man { color: Color::Red, kind: PieceKind::Pawn }));
    assert(l.pseudo_legal(mv, Some(Color::Red)));
    let n = l.after(mv);
    let g = n.grid();
    assert(!vacant(g, 4, 6));
    assert(n.king(Color::Red) == l.king(Color::Red));
    assert(n.king(Color::Black) == l.king(Color::Black));
    lemma_col_counts(g, 4, 1, 9, 6);
    assert forall|ax: int, ay: int| !(#[trigger] attacks(g, Color::Black, ax, ay, 4, 9)) by {
        if attacks(g, Color::Black, ax, ay, 4, 9) {
            assert(n.cells.contains_key((ax, ay)));
            assert((ax, ay) != (0int, 5int));
            assert(l.cells.contains_key((ax, ay)));
            lemma_start_sides(ax, ay);
        }
    }
}

/// The starting game is ordinary, and the side to move has a legal move.
pub proof fn law_start_goes_on(p: Play)
    requires
        p.wf(),
        p.infos.len() == 0,
        fen_describes(
            "rnbakabnr/9/1c5c1/p1p1p1p1p/9/9/P1P1P1P1P/1C5C1/9/RNBAKABNR w - - 0 1"@,
            p.board,
        ),
    ensures
        ordinary(p),
        p.plies() == 0,
        !p.stuck(),
        !p.outcome().is_terminal,
{
    let l = p.board;
    let mv = Move { from: Position { x: 0, y: 6 }, to: Position { x: 0, y: 5 } };
    lemma_start_move(l);
    lemma_start_fen();
    assert(l.wf());
    law_legal_list_exact(l, Color::Red, false);
    assert(l.legal_list(Color::Red, false).contains(mv));
    assert(p.recurrences().len() <= 1) by {
        reveal_with_fuel(Play::indices, 3);
    }
}

} // verus!

//! The starting position has a legal move.

use vstd::prelude::*;

use crate::fen::{lemma_row_cell_source, row_cell, row_width};
use crate::grid::{lemma_col_counts, vacant, Man};
use crate::kernel::game::GameView;
use crate::kernel::setup::{
    fen_cells, fen_describes, gives_check, law_legal_list_exact, lemma_last_king,
    lemma_starting_fen, starting_rows, Setup,
};
use crate::kernel::types::{Color, Move, PieceKind};

verus! {

/// What the rows of the starting position say of the squares where a pawn stands.
proof fn lemma_start_pawn_letters()
    ensures
        row_cell(starting_rows()[6], 0) matches Some((c, k)) && c == 'P',
        row_cell(starting_rows()[6], 4) matches Some((c, k)) && c == 'P',
        row_cell(starting_rows()[3], 4) matches Some((c, k)) && c == 'p',
{
    let rows = starting_rows();
    assert(row_cell(rows[6], 0) matches Some((c, k)) && c == 'P') by {
        reveal_with_fuel(row_width, 10);
        reveal_with_fuel(row_cell, 10);
    }
    assert(row_cell(rows[6], 4) matches Some((c, k)) && c == 'P') by {
        reveal_with_fuel(row_width, 10);
        reveal_with_fuel(row_cell, 10);
    }
    assert(row_cell(rows[3], 4) matches Some((c, k)) && c == 'p') by {
        reveal_with_fuel(row_width, 10);
        reveal_with_fuel(row_cell, 10);
    }
}

/// What they say of a king's square and of some that are empty.
proof fn lemma_start_other_letters()
    ensures
        row_cell(starting_rows()[0], 4) matches Some((c, k)) && c == 'k',
        row_cell(starting_rows()[5], 0) is None,
        row_cell(starting_rows()[2], 4) is None,
{
    let rows = starting_rows();
    assert(row_cell(rows[0], 4) matches Some((c, k)) && c == 'k') by {
        reveal_with_fuel(row_width, 10);
        reveal_with_fuel(row_cell, 10);
    }
    assert(row_cell(rows[5], 0) is None) by {
        reveal_with_fuel(row_cell, 2);
    }
    assert(row_cell(rows[2], 4) is None) by {
        reveal_with_fuel(row_width, 6);
        reveal_with_fuel(row_cell, 6);
    }
}

/// What stands on some squares of the starting position.
proof fn lemma_start_squares()
    ensures
        ({
            let c = fen_cells(starting_rows());
            &&& c.contains_key((0, 6)) && c[(0, 6)].man() == (Man {
                color: Color::Red,
                kind: PieceKind::Pawn,
            })
            &&& c.contains_key((4, 6))
            &&& !c.contains_key((0, 5))
            &&& c.contains_key((4, 3)) && c[(4, 3)].kind == PieceKind::Pawn
            &&& c.contains_key((4, 0)) && c[(4, 0)].kind == PieceKind::King
            &&& !c.contains_key((4, 2))
        }),
{
    lemma_start_pawn_letters();
    lemma_start_other_letters();
}

/// Black stands on the first, third and fourth ranks, and each side has one king.
proof fn lemma_start_sides(x: int, y: int)
    requires
        fen_cells(starting_rows()).contains_key((x, y)),
    ensures
        ({
            let p = fen_cells(starting_rows())[(x, y)];
            &&& p.color == Color::Black ==> y == 0 || y == 2 || y == 3
            &&& p.kind == PieceKind::King && p.color == Color::Red ==> (x, y) == (4int, 9int)
        }),
{
    let rows = starting_rows();
    lemma_row_cell_source(rows[y], x);
    let c = row_cell(rows[y], x).unwrap().0;
    let i = choose|i: int|
        0 <= i < rows[y].len() && #[trigger] rows[y][i] == c && row_width(rows[y].take(i)) == x;
    if c == 'K' {
        assert(y == 9 && i == 4);
        assert(row_width(rows[9].take(4)) == 4) by {
            reveal_with_fuel(row_width, 5);
        }
    }
}

/// From the starting position a pawn may advance.
proof fn lemma_start_move(s: Setup)
    requires
        fen_describes("rheakaehr/9/1c5c1/p1p1p1p1p/9/9/P1P1P1P1P/1C5C1/9/RHEAKAEHR r"@, s),
    ensures
        s.legal(Move { sx: 0, sy: 6, tx: 0, ty: 5 }),
{
    let mv = Move { sx: 0, sy: 6, tx: 0, ty: 5 };
    lemma_starting_fen();
    lemma_start_squares();
    lemma_last_king(s.cells, Color::Red, 90);
    let k = s.red_king.unwrap();
    assert(s.cells.contains_key((4, 9)));
    assert(s.red_king is Some);
    lemma_start_sides(k.0 as int, k.1 as int);
    assert(k == (4i32, 9i32));
    assert(s.side == Color::Red);
    assert(s.mover(mv).man() == (Man { color: Color::Red, kind: PieceKind::Pawn }));
    assert(s.pseudo_legal(mv, Some(Color::Red)));
    let n = s.after(mv);
    let g = n.grid();
    assert(!vacant(g, 4, 6));
    assert(n.king(Color::Red) == Some((4i32, 9i32)));
    assert forall|ax: int, ay: int| !(#[trigger] gives_check(g, Color::Black, ax, ay, 4, 9)) by {
        if gives_check(g, Color::Black, ax, ay, 4, 9) {
            assert(n.cells.contains_key((ax, ay)));
            assert((ax, ay) != (0int, 5int));
            assert(s.cells.contains_key((ax, ay)));
            lemma_start_sides(ax, ay);
            if ax == 4 {
                lemma_col_counts(g, 4, ay + 1, 9, 6);
            }
        }
    }
}

/// The game goes on from the starting position.
pub proof fn law_start_goes_on(g: GameView)
    requires
        g.wf(),
        g.history.len() == 0,
        fen_describes(
            "rheakaehr/9/1c5c1/p1p1p1p1p/9/9/P1P1P1P1P/1C5C1/9/RHEAKAEHR r"@,
            g.position,
        ),
    ensures
        !g.outcome().is_terminal,
{
    let s = g.position;
    let mv = Move { sx: 0, sy: 6, tx: 0, ty: 5 };
    lemma_start_move(s);
    assert(g.position_at(0) == s);
    assert(s.wf());
    law_legal_list_exact(s);
    assert(s.legal_list().contains(mv));
    lemma_starting_fen();
    assert(s.quiet == 0);
    assert(g.occurrences(0) == 0);
    assert(g.occurrences(1) <= 1);
}

} // verus!

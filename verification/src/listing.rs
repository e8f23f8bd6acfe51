//! The order in which moves are listed, and which kings are noted.

use vstd::prelude::*;

use crate::engine::layout::Layout;
use crate::fen::{board_cell, board_fault, men_before, men_left, row_cell, Letters};
use crate::grid::{candidates, lines, on_board, ray, Man, Sweep};
use crate::kernel::setup::Setup;
use crate::types::{Color, PieceKind};

verus! {

/// The squares that a man may step to are tried in a fixed order. A king looks along the ranks before
/// it looks along the files; which side comes first depends on the sweep. A pawn looks ahead first,
/// and looks left and right once it has crossed the river.
pub proof fn law_order_of_steps(sweep: Sweep, color: Color, x: int, y: int)
    requires
        on_board(x, y),
    ensures
        ({
            let s = if sweep == Sweep::NegativeFirst {
                -1int
            } else {
                1
            };
            let king = candidates(sweep, Man { color, kind: PieceKind::King }, x, y);
            &&& king.len() == 4
            &&& king[0].0 == x + s && king[0].1 == y
            &&& king[1].0 == x - s && king[1].1 == y
            &&& king[2].0 == x && king[2].1 == y + s
            &&& king[3].0 == x && king[3].1 == y - s
        }),
        ({
            let advisor = candidates(sweep, Man { color, kind: PieceKind::Advisor }, x, y);
            &&& advisor.len() == 4
            &&& advisor[0].0 == x + 1 && advisor[0].1 == y + 1
            &&& advisor[1].0 == x + 1 && advisor[1].1 == y - 1
            &&& advisor[2].0 == x - 1 && advisor[2].1 == y + 1
            &&& advisor[3].0 == x - 1 && advisor[3].1 == y - 1
        }),
        ({
            let elephant = candidates(sweep, Man { color, kind: PieceKind::Elephant }, x, y);
            let (i, j) = if sweep == Sweep::NegativeFirst {
                (1int, 2int)
            } else {
                (2, 1)
            };
            &&& elephant.len() == 4
            &&& elephant[0].0 == x + 2 && elephant[0].1 == y + 2
            &&& elephant[i].0 == x - 2 && elephant[i].1 == y + 2
            &&& elephant[j].0 == x + 2 && elephant[j].1 == y - 2
            &&& elephant[3].0 == x - 2 && elephant[3].1 == y - 2
        }),
        ({
            let horse = candidates(sweep, Man { color, kind: PieceKind::Horse }, x, y);
            &&& horse.len() == 8
            &&& horse[0].0 == x + 1 && horse[0].1 == y + 2
            &&& horse[1].0 == x - 1 && horse[1].1 == y + 2
            &&& horse[2].0 == x + 1 && horse[2].1 == y - 2
            &&& horse[3].0 == x - 1 && horse[3].1 == y - 2
            &&& horse[4].0 == x + 2 && horse[4].1 == y + 1
            &&& horse[5].0 == x + 2 && horse[5].1 == y - 1
            &&& horse[6].0 == x - 2 && horse[6].1 == y + 1
            &&& horse[7].0 == x - 2 && horse[7].1 == y - 1
        }),
        ({
            let pawn = candidates(sweep, Man { color, kind: PieceKind::Pawn }, x, y);
            let crossed = if color == Color::Red {
                y < 5
            } else {
                y > 4
            };
            &&& pawn[0].0 == x && pawn[0].1 == if color == Color::Red {
                y - 1
            } else {
                y + 1
            }
            &&& pawn.len() == if crossed {
                3int
            } else {
                1
            }
            &&& crossed ==> pawn[1].0 == x - 1 && pawn[1].1 == y && pawn[2].0 == x + 1 && pawn[2].1
                == y
        }),
{
}

proof fn lemma_ray(x: int, y: int, dx: int, dy: int, n: nat, k: int)
    requires
        0 <= k < n,
        n - 30 <= x <= 30 - n,
        n - 30 <= y <= 30 - n,
        -1 <= dx <= 1,
        -1 <= dy <= 1,
    ensures
        ray(x, y, dx, dy, n).len() == n,
        ray(x, y, dx, dy, n)[k].0 == x + (k + 1) * dx,
        ray(x, y, dx, dy, n)[k].1 == y + (k + 1) * dy,
    decreases n,
{
    reveal_with_fuel(ray, 2);
    assert((k + 1) * dx == dx + k * dx && (k + 1) * dy == dy + k * dy) by (nonlinear_arith);
    if k > 0 {
        lemma_ray(x + dx, y + dy, dx, dy, (n - 1) as nat, k - 1);
    } else {
        assert(k * dx == 0 && k * dy == 0) by (nonlinear_arith)
            requires
                k == 0,
        ;
        if n > 1 {
            lemma_ray(x + dx, y + dy, dx, dy, (n - 1) as nat, 0);
        }
    }
}

/// Rooks and cannons look outwards, along the ranks before the files; which side comes first depends
/// on the sweep.
pub proof fn law_order_along_lines(sweep: Sweep, color: Color, cannon: bool, x: int, y: int, k: int)
    requires
        on_board(x, y),
        0 <= k < 9,
    ensures
        ({
            let kind = if cannon {
                PieceKind::Cannon
            } else {
                PieceKind::Rook
            };
            let to = candidates(sweep, Man { color, kind }, x, y);
            let s = if sweep == Sweep::NegativeFirst {
                -k - 1
            } else {
                k + 1
            };
            &&& to.len() == 36
            &&& to[k].0 == x + s && to[k].1 == y
            &&& to[9 + k].0 == x - s && to[9 + k].1 == y
            &&& to[18 + k].0 == x && to[18 + k].1 == y + s
            &&& to[27 + k].0 == x && to[27 + k].1 == y - s
        }),
{
    lemma_ray(x, y, 1, 0, 9, k);
    lemma_ray(x, y, -1, 0, 9, k);
    lemma_ray(x, y, 0, 1, 9, k);
    lemma_ray(x, y, 0, -1, 9, k);
    let to = lines(x, y, sweep);
    assert(to.len() == 36);
}

/// The legal moves are listed by the squares they start from, along the ranks from the top.
pub proof fn law_listed_by_square(s: Setup, i: int, j: int)
    requires
        s.wf(),
        0 <= i < j < s.legal_list().len(),
    ensures
        9 * s.legal_list()[i].sy + s.legal_list()[i].sx <= 9 * s.legal_list()[j].sy
            + s.legal_list()[j].sx,
{
    lemma_listed_by_square(s, 90, i, j);
}

proof fn lemma_listed_by_square(s: Setup, n: nat, i: int, j: int)
    requires
        n <= 90,
        s.wf(),
        0 <= i < j < s.legal_below(n).len(),
    ensures
        9 * s.legal_below(n)[i].sy + s.legal_below(n)[i].sx <= 9 * s.legal_below(n)[j].sy
            + s.legal_below(n)[j].sx,
    decreases n,
{
    let m = (n - 1) as nat;
    let a = s.legal_below(m);
    let b = s.legal_from(m as int);
    crate::kernel::setup::lemma_legal_below(s, m);
    crate::kernel::setup::lemma_legal_from(s, m as int);
    if j < a.len() {
        lemma_listed_by_square(s, m, i, j);
    } else {
        assert(b.contains(b[j - a.len()]));
        if i < a.len() {
            assert(a.contains(a[i]));
        } else {
            assert(b.contains(b[i - a.len()]));
        }
    }
}

/// The legal moves on the mutable board are listed by the squares they start from too.
pub proof fn law_listed_by_square_too(l: Layout, color: Color, captures_only: bool, i: int, j: int)
    requires
        l.wf(),
        0 <= i < j < l.legal_list(color, captures_only).len(),
    ensures
        ({
            let list = l.legal_list(color, captures_only);
            9 * list[i].from.y + list[i].from.x <= 9 * list[j].from.y + list[j].from.x
        }),
{
    lemma_listed_by_square_too(l, color, captures_only, 90, i, j);
}

proof fn lemma_listed_by_square_too(
    l: Layout,
    color: Color,
    captures_only: bool,
    n: nat,
    i: int,
    j: int,
)
    requires
        n <= 90,
        l.wf(),
        0 <= i < j < l.legal_below(color, captures_only, n).len(),
    ensures
        ({
            let list = l.legal_below(color, captures_only, n);
            9 * list[i].from.y + list[i].from.x <= 9 * list[j].from.y + list[j].from.x
        }),
    decreases n,
{
    let m = (n - 1) as nat;
    let s = crate::engine::layout::nth_square(m as int);
    let a = l.legal_below(color, captures_only, m);
    crate::engine::tactics::lemma_legal_below(l, color, captures_only, m);
    crate::engine::tactics::lemma_legal_below(l, color, captures_only, n);
    let list = l.legal_below(color, captures_only, n);
    if j < a.len() {
        lemma_listed_by_square_too(l, color, captures_only, m, i, j);
    } else {
        assert(l.cells.contains_key(s) && l.cells[s].color == color);
        crate::engine::tactics::lemma_safe_moves(l, s.0, s.1, captures_only);
        let b = l.safe_moves(s.0, s.1, captures_only);
        assert(b.contains(b[j - a.len()]));
        if i < a.len() {
            assert(a.contains(a[i]));
        } else {
            assert(b.contains(b[i - a.len()]));
        }
    }
}

proof fn lemma_filter_order<A>(s: Seq<A>, f: spec_fn(A) -> bool, i: int, j: int) -> (r: (int, int))
    requires
        0 <= i < j < s.filter(f).len(),
    ensures
        0 <= r.0 < r.1 < s.len(),
        s[r.0] == s.filter(f)[i],
        s[r.1] == s.filter(f)[j],
    decreases s.len(),
{
    reveal(Seq::filter);
    let front = s.drop_last();
    if j < front.filter(f).len() {
        lemma_filter_order(front, f, i, j)
    } else {
        let p = lemma_filter_place(front, f, i);
        (p, s.len() - 1)
    }
}

proof fn lemma_filter_place<A>(s: Seq<A>, f: spec_fn(A) -> bool, i: int) -> (p: int)
    requires
        0 <= i < s.filter(f).len(),
    ensures
        0 <= p < s.len(),
        s[p] == s.filter(f)[i],
    decreases s.len(),
{
    reveal(Seq::filter);
    let front = s.drop_last();
    if i < front.filter(f).len() {
        lemma_filter_place(front, f, i)
    } else {
        s.len() - 1
    }
}

/// Square `a` comes before square `b` among those that a man looks at.
pub open spec fn looks_first(
    sweep: Sweep,
    man: Man,
    x: int,
    y: int,
    a: (int, int),
    b: (int, int),
) -> bool {
    exists|p: int, q: int| #[trigger]
        stand_at(candidates(sweep, man, x, y), p, q, a, b)
}

/// The squares stand at places `p` and `q` of the list, in this order.
pub open spec fn stand_at(
    to: Seq<(i32, i32)>,
    p: int,
    q: int,
    a: (int, int),
    b: (int, int),
) -> bool {
    &&& 0 <= p < q < to.len()
    &&& to[p].0 == a.0 && to[p].1 == a.1
    &&& to[q].0 == b.0 && to[q].1 == b.1
}

/// The legal moves of one man are listed in the order in which it looks at their targets, the right
/// and the bottom first.
pub proof fn law_listed_by_target(s: Setup, k: int, i: int, j: int)
    requires
        0 <= k < 90,
        0 <= i < j < s.legal_from(k).len(),
    ensures
        s.cells.contains_key((k % 9, k / 9)),
        looks_first(
            Sweep::PositiveFirst,
            s.cells[(k % 9, k / 9)].man(),
            k % 9,
            k / 9,
            (s.legal_from(k)[i].tx as int, s.legal_from(k)[i].ty as int),
            (s.legal_from(k)[j].tx as int, s.legal_from(k)[j].ty as int),
        ),
{
    let (x, y) = (k % 9, k / 9);
    let man = s.cells[(x, y)].man();
    let to = crate::grid::targets(Sweep::PositiveFirst, s.grid(), man, x, y, false);
    let moves = crate::kernel::setup::moves_from(x, y, to);
    let (a, b) = lemma_filter_order(moves, s.is_legal(), i, j);
    let all = candidates(Sweep::PositiveFirst, man, x, y);
    let (p, q) = lemma_filter_order(all, crate::grid::goes(s.grid(), man, x, y, false), a, b);
    assert(all[p] == to[a] && all[q] == to[b]);
    let list = s.legal_from(k);
    assert(stand_at(
        all,
        p,
        q,
        (list[i].tx as int, list[i].ty as int),
        (list[j].tx as int, list[j].ty as int),
    ));
}

/// The legal moves of one man on the mutable board are listed in the order in which it looks at their
/// targets, the left and the top first.
pub proof fn law_listed_by_target_too(l: Layout, x: int, y: int, captures_only: bool, i: int, j: int)
    requires
        l.wf(),
        l.cells.contains_key((x, y)),
        0 <= i < j < l.safe_moves(x, y, captures_only).len(),
    ensures
        ({
            let list = l.safe_moves(x, y, captures_only);
            looks_first(
                Sweep::NegativeFirst,
                l.cells[(x, y)].man(),
                x,
                y,
                (list[i].to.x as int, list[i].to.y as int),
                (list[j].to.x as int, list[j].to.y as int),
            )
        }),
{
    let man = l.cells[(x, y)].man();
    let goes = crate::grid::goes(l.grid(), man, x, y, captures_only);
    let to = crate::grid::targets(Sweep::NegativeFirst, l.grid(), man, x, y, captures_only);
    let moves = l.pseudo_list(x, y, captures_only);
    let (a, b) = lemma_filter_order(moves, l.leaves_safe(man.color), i, j);
    let all = candidates(Sweep::NegativeFirst, man, x, y);
    let (p, q) = lemma_filter_order(all, goes, a, b);
    broadcast use vstd::seq_lib::group_filter_ensures;
    assert(all[p] == to[a] && all[q] == to[b]);
    assert(goes(to[a]) && goes(to[b]));
    let list = l.safe_moves(x, y, captures_only);
    assert(stand_at(
        all,
        p,
        q,
        (list[i].to.x as int, list[i].to.y as int),
        (list[j].to.x as int, list[j].to.y as int),
    ));
}

/// How many of the first `n` squares, counted along the ranks from the top, are among the given.
pub open spec fn taken_upto(squares: Set<(int, int)>, n: nat) -> nat
    decreases n,
{
    if n == 0 {
        0
    } else {
        taken_upto(squares, (n - 1) as nat) + if squares.contains(((n - 1) % 9, (n - 1) / 9)) {
            1nat
        } else {
            0
        }
    }
}

proof fn lemma_taken_bound(squares: Set<(int, int)>, n: nat)
    ensures
        taken_upto(squares, n) <= n,
    decreases n,
{
    if n > 0 {
        lemma_taken_bound(squares, (n - 1) as nat);
    }
}

proof fn lemma_cell_read(letters: Letters, rows: Seq<Seq<char>>, x: int, y: int)
    requires
        rows.len() == 10,
        board_fault(letters, rows, 0) is None,
        0 <= y < 10,
    ensures
        row_cell(rows[y], x) is Some == board_cell(letters, rows, x, y) is Some,
{
    crate::fen::lemma_faultless_board(letters, rows, 0, y);
    crate::fen::lemma_faultless_row(letters, rows[y], 0);
    crate::fen::lemma_row_cell_source(rows[y], x);
}

proof fn lemma_taken(
    letters: Letters,
    rows: Seq<Seq<char>>,
    squares: Set<(int, int)>,
    x: int,
    y: int,
)
    requires
        rows.len() == 10,
        board_fault(letters, rows, 0) is None,
        forall|i: int, j: int|
            on_board(i, j) ==> (#[trigger] squares.contains((i, j)) <==> board_cell(
                letters,
                rows,
                i,
                j,
            ) is Some),
        0 <= x <= 9,
        0 <= y < 10,
    ensures
        taken_upto(squares, (9 * y + x) as nat) == men_before(rows, y) + men_left(rows[y], x),
    decreases y, x,
{
    if x > 0 {
        lemma_taken(letters, rows, squares, x - 1, y);
        lemma_cell_read(letters, rows, x - 1, y);
        let n = 9 * y + x - 1;
        assert(n % 9 == x - 1 && n / 9 == y);
        assert(on_board(x - 1, y));
        assert(squares.contains((x - 1, y)) <==> row_cell(rows[y], x - 1) is Some);
    } else if y > 0 {
        lemma_taken(letters, rows, squares, 9, y - 1);
        crate::fen::lemma_faultless_board(letters, rows, 0, y - 1);
        crate::fen::lemma_faultless_row(letters, rows[y - 1], 0);
        crate::fen::lemma_row_numbers(rows[y - 1], 9);
    }
}

/// The men of a text are numbered along the ranks from the top, from zero on.
pub proof fn law_men_numbered(fen: Seq<char>, s: Setup, x: int, y: int)
    requires
        crate::kernel::setup::fen_describes(fen, s),
        s.cells.contains_key((x, y)),
    ensures
        s.cells[(x, y)].piece_id == taken_upto(s.cells.dom(), (9 * y + x) as nat),
{
    let rows = crate::kernel::setup::fen_rows(fen);
    lemma_taken(Letters::Narrow, rows, s.cells.dom(), x, y);
    lemma_taken_bound(s.cells.dom(), (9 * y + x) as nat);
    crate::fen::lemma_row_numbers(rows[y], x);
}

/// The men of a text are numbered along the ranks from the top on the mutable board too, from one on.
pub proof fn law_men_numbered_too(fen: Seq<char>, l: Layout, x: int, y: int)
    requires
        crate::engine::layout::fen_fits(fen),
        crate::engine::layout::fen_describes(fen, l),
        l.cells.contains_key((x, y)),
    ensures
        l.cells[(x, y)].piece_id == taken_upto(l.cells.dom(), (9 * y + x) as nat) + 1,
{
    let rows = crate::engine::layout::fen_rows(fen);
    assert(on_board(x, y));
    assert(board_fault(Letters::Wide, rows, 0) is None);
    lemma_taken(Letters::Wide, rows, l.cells.dom(), x, y);
    lemma_taken_bound(l.cells.dom(), (9 * y + x) as nat);
    crate::fen::lemma_row_numbers(rows[y], x);
}

/// The king that is noted for a side when a text is read is the last one in it, if there is any.
pub proof fn law_kings_noted(fen: Seq<char>, s: Setup, color: Color, x: int, y: int)
    requires
        crate::kernel::setup::fen_describes(fen, s),
        0 <= x < 9,
        0 <= y < 10,
        s.cells.contains_key((x, y)),
        s.cells[(x, y)].kind == PieceKind::King,
        s.cells[(x, y)].color == color,
    ensures
        s.king(color) is Some,
        ({
            let k = (s.king(color).unwrap().0 as int, s.king(color).unwrap().1 as int);
            &&& s.cells.contains_key(k)
            &&& s.cells[k].kind == PieceKind::King && s.cells[k].color == color
            &&& 9 * y + x <= 9 * k.1 + k.0
        }),
{
    crate::kernel::setup::lemma_last_king(s.cells, color, 90);
    lemma_king_is_last(s, color, 90, x, y);
}

proof fn lemma_king_is_last(s: Setup, color: Color, n: nat, x: int, y: int)
    requires
        n <= 90,
        0 <= x < 9,
        0 <= y < 10,
        9 * y + x < n,
        s.cells.contains_key((x, y)),
        s.cells[(x, y)].kind == PieceKind::King,
        s.cells[(x, y)].color == color,
    ensures
        crate::kernel::setup::last_king(s.cells, color, n) is Some,
        ({
            let k = crate::kernel::setup::last_king(s.cells, color, n).unwrap();
            9 * y + x <= 9 * k.1 + k.0
        }),
    decreases n,
{
    crate::kernel::setup::lemma_last_king(s.cells, color, n);
    if 9 * y + x < n - 1 {
        lemma_king_is_last(s, color, (n - 1) as nat, x, y);
    }
}

/// The king that is noted for a side on the mutable board is the last one in the text too.
pub proof fn law_kings_noted_too(fen: Seq<char>, l: Layout, color: Color, x: int, y: int)
    requires
        crate::engine::layout::fen_describes(fen, l),
        0 <= x < 9,
        0 <= y < 10,
        l.cells.contains_key((x, y)),
        l.cells[(x, y)].kind == PieceKind::King,
        l.cells[(x, y)].color == color,
    ensures
        ({
            let k = (l.king(color).x as int, l.king(color).y as int);
            &&& l.cells.contains_key(k)
            &&& l.cells[k].kind == PieceKind::King && l.cells[k].color == color
            &&& 9 * y + x <= 9 * k.1 + k.0
        }),
{
    crate::engine::layout::lemma_last_king(l.cells, color, 90);
    lemma_king_is_last_too(l, color, 90, x, y);
}

proof fn lemma_king_is_last_too(l: Layout, color: Color, n: nat, x: int, y: int)
    requires
        n <= 90,
        0 <= x < 9,
        0 <= y < 10,
        9 * y + x < n,
        l.cells.contains_key((x, y)),
        l.cells[(x, y)].kind == PieceKind::King,
        l.cells[(x, y)].color == color,
    ensures
        ({
            let k = crate::engine::layout::last_king(l.cells, color, n);
            9 * y + x <= 9 * k.y + k.x
        }),
    decreases n,
{
    if 9 * y + x < n - 1 {
        lemma_king_is_last_too(l, color, (n - 1) as nat, x, y);
    }
}

} // verus!

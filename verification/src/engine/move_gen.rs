//! Attackers, checks and legal moves, found by making moves on the board and taking them back.

use vstd::prelude::*;

use crate::engine::board::{in_board, Board};
use crate::engine::layout::{
    law_moves_keep_boards_well_formed, law_undo_restores, nth_square, Layout,
};
use crate::engine::tactics::{
    attacks, hop, hops, law_attackers_have_captures, law_pseudo_list_exact,
};
use crate::engine::types::{Color, Move, MoveFilter, Piece, PieceKind, Position};
use crate::grid::{
    at, crossed_river, dist, forward, in_palace, lemma_targets_exact, met, on_board, on_ray,
    ray_hits, straight, Cells, Grid, Man, Sweep,
};

pub use crate::engine::tactics::MoveValidationReason;

verus! {

/// The list names the square.
pub open spec fn names(list: Seq<(Piece, Position)>, x: int, y: int) -> bool {
    exists|i: int| 0 <= i < list.len() && (#[trigger] list[i]).1.at() == (x, y)
}

/// The list holds squares of the board, each once, with the pieces that stand there.
pub open spec fn faithful(l: Layout, list: Seq<(Piece, Position)>) -> bool {
    &&& forall|i: int|
        0 <= i < list.len() ==> l.cells.contains_key((#[trigger] list[i]).1.at())
            && l.cells[list[i].1.at()] == list[i].0
    &&& forall|i: int, j: int|
        0 <= i < j < list.len() ==> (#[trigger] list[i]).1 != (#[trigger] list[j]).1
}

/// The list holds the men of `color` that attack a square, each once with its square.
pub open spec fn lists_attackers(
    l: Layout,
    color: Color,
    target: Position,
    list: Seq<(Piece, Position)>,
) -> bool {
    &&& faithful(l, list)
    &&& forall|a: int, b: int| #[trigger]
        names(list, a, b) <==> attacks(l.grid(), color, a, b, target.x as int, target.y as int)
}

/// The list holds, each once, the men of `color` on their squares among whose captures, the safety
/// of their king left aside, is one on the target.
pub open spec fn lists_capturers(
    l: Layout,
    color: Color,
    target: Position,
    list: Seq<(Piece, Position)>,
) -> bool {
    &&& list.no_duplicates()
    &&& forall|p: Piece, s: Position| #[trigger]
        list.contains((p, s)) <==> l.cells.contains_key(s.at()) && l.cells[s.at()] == p && p.color
            == color && l.pseudo_list(s.x as int, s.y as int, true).contains(
            (Move { from: s, to: target }),
        )
}

/// The listed attackers of a square on which a man of the other side stands are exactly the men
/// whose listed captures reach it.
pub proof fn law_attackers_are_capturers(
    l: Layout,
    color: Color,
    target: Position,
    list: Seq<(Piece, Position)>,
)
    requires
        l.wf(),
        target.valid(),
        l.cells.contains_key(target.at()),
        l.cells[target.at()].color == color.opposite(),
        lists_attackers(l, color, target, list),
    ensures
        lists_capturers(l, color, target, list),
{
    let g = l.grid();
    let (tx, ty) = (target.x as int, target.y as int);
    assert forall|i: int, j: int|
        0 <= i < list.len() && 0 <= j < list.len() && i != j implies list[i] != list[j] by {
        if i < j {
            assert(list[i].1 != list[j].1);
        } else {
            assert(list[j].1 != list[i].1);
        }
    }
    assert forall|p: Piece, s: Position| #[trigger]
        list.contains((p, s)) <==> l.cells.contains_key(s.at()) && l.cells[s.at()] == p && p.color
            == color && l.pseudo_list(s.x as int, s.y as int, true).contains(
            (Move { from: s, to: target }),
        ) by {
        let (x, y) = (s.x as int, s.y as int);
        let mv = Move { from: s, to: target };
        law_attackers_have_captures(g, color, x, y, tx, ty);
        if l.cells.contains_key(s.at()) {
            law_pseudo_list_exact(l, x, y, true);
            assert(on_board(x, y));
            assert(g[(x, y)] == l.cells[(x, y)].man());
        }
        if list.contains((p, s)) {
            let i = choose|i: int| 0 <= i < list.len() && list[i] == (p, s);
            assert(list[i].1.at() == (x, y));
            assert(names(list, x, y));
        }
        if attacks(g, color, x, y, tx, ty) {
            assert(names(list, x, y));
            let i = choose|i: int| 0 <= i < list.len() && (#[trigger] list[i]).1.at() == (x, y);
            assert(list[i].1 == s);
        }
    }
}

/// The order in which kinds of attackers are looked for.
spec fn phase(kind: PieceKind) -> int {
    match kind {
        PieceKind::King => 1,
        PieceKind::Rook | PieceKind::Cannon => 2,
        PieceKind::Horse => 3,
        PieceKind::Pawn => 4,
        PieceKind::Advisor => 5,
        PieceKind::Elephant => 6,
    }
}

/// The attackers of `(tx, ty)` of the kinds up to phase `n`.
spec fn attacks_upto(g: Grid, color: Color, ax: int, ay: int, tx: int, ty: int, n: int) -> bool {
    attacks(g, color, ax, ay, tx, ty) && phase(g[(ax, ay)].kind) <= n
}

proof fn lemma_names_push(list: Seq<(Piece, Position)>, e: (Piece, Position), x: int, y: int)
    ensures
        names(list.push(e), x, y) <==> names(list, x, y) || e.1.at() == (x, y),
{
    let more = list.push(e);
    if names(list, x, y) {
        let i = choose|i: int| 0 <= i < list.len() && (#[trigger] list[i]).1.at() == (x, y);
        assert(more[i].1.at() == (x, y));
    }
    if names(more, x, y) {
        let i = choose|i: int| 0 <= i < more.len() && (#[trigger] more[i]).1.at() == (x, y);
        if i < list.len() {
            assert(list[i].1.at() == (x, y));
        }
    }
    if e.1.at() == (x, y) {
        assert(more[list.len() as int].1.at() == (x, y));
    }
}

/// Appends the piece on a square that the list does not name yet.
fn push_square(board: &Board, x: i32, y: i32, out: &mut Vec<(Piece, Position)>)
    requires
        on_board(x as int, y as int),
        board@.cells.contains_key((x as int, y as int)),
        faithful(board@, old(out)@),
        !names(old(out)@, x as int, y as int),
    ensures
        faithful(board@, final(out)@),
        forall|a: int, b: int| #[trigger]
            names(final(out)@, a, b) <==> names(old(out)@, a, b) || (a, b) == (x as int, y as int),
{
    let pos = Position::new(x as i8, y as i8);
    if let Some(piece) = board.get_piece_at(pos) {
        let ghost before = out@;
        out.push((piece, pos));
        proof {
            assert forall|a: int, b: int| #[trigger]
                names(out@, a, b) <==> names(before, a, b) || (a, b) == (x as int, y as int) by {
                lemma_names_push(before, (piece, pos), a, b);
            }
            assert forall|i: int, j: int| 0 <= i < j < out@.len() implies (#[trigger] out@[i]).1
                != (#[trigger] out@[j]).1 by {
                if j == before.len() {
                    assert(before[i].1.at() != (x as int, y as int));
                }
            }
        }
    }
}

/// Whether a king, horse, pawn, advisor or elephant of `color` on `(ax, ay)` attacks `(tx, ty)`.
fn strikes(board: &Board, color: Color, kind: PieceKind, ax: i32, ay: i32, tx: i32, ty: i32) -> (r:
    bool)
    requires
        on_board(tx as int, ty as int),
        phase(kind) != 2,
        -2 <= ax - tx <= 2,
        -2 <= ay - ty <= 2,
    ensures
        r == (attacks(board@.grid(), color, ax as int, ay as int, tx as int, ty as int)
            && board@.grid()[(ax as int, ay as int)].kind == kind),
{
    if !crate::grid::in_board(ax, ay) {
        return false;
    }
    match board.man_at(ax, ay) {
        None => false,
        Some(m) => {
            if m.color != color || m.kind != kind {
                return false;
            }
            let dx: i32 = if ax <= tx { tx - ax } else { ax - tx };
            let dy: i32 = if ay <= ty { ty - ay } else { ay - ty };
            match kind {
                PieceKind::King => dx + dy == 1 && in_palace(color, tx, ty),
                PieceKind::Horse => (dx == 1 && dy == 2 && board.man_at(
                    ax,
                    (ay + ty) / 2,
                ).is_none()) || (dx == 2 && dy == 1 && board.man_at((ax + tx) / 2, ay).is_none()),
                PieceKind::Pawn => {
                    let ahead: i32 = match color {
                        Color::Red => -1,
                        Color::Black => 1,
                    };
                    (ax == tx && ty == ay + ahead) || (ay == ty && dx == 1 && crossed_river(
                        color,
                        ay,
                    ))
                },
                PieceKind::Advisor => dx == 1 && dy == 1 && in_palace(color, tx, ty),
                PieceKind::Elephant => dx == 2 && dy == 2 && !crossed_river(color, ty)
                    && board.man_at((ax + tx) / 2, (ay + ty) / 2).is_none(),
                _ => false,
            }
        },
    }
}

/// `steps` lead from a square to every square from which a man of `kind` can attack it, each once.
spec fn covers(color: Color, kind: PieceKind, steps: Seq<(i32, i32)>) -> bool {
    &&& forall|i: int|
        0 <= i < steps.len() ==> -2 <= (#[trigger] steps[i]).0 <= 2 && -2 <= steps[i].1 <= 2
    &&& steps.no_duplicates()
    &&& forall|dx: i32, dy: i32| #[trigger]
        reaches(color, kind, dx as int, dy as int) ==> steps.contains((dx, dy))
}

/// A man of `kind` standing at this offset from a square can attack it on some board.
spec fn reaches(color: Color, kind: PieceKind, dx: int, dy: int) -> bool {
    match kind {
        PieceKind::King => dist(dx, 0) + dist(dy, 0) == 1,
        PieceKind::Horse => (dist(dx, 0) == 1 && dist(dy, 0) == 2) || (dist(dx, 0) == 2 && dist(
            dy,
            0,
        ) == 1),
        PieceKind::Pawn => (dx == 0 && dy == -forward(color)) || (dist(dx, 0) == 1 && dy == 0),
        PieceKind::Advisor => dist(dx, 0) == 1 && dist(dy, 0) == 1,
        PieceKind::Elephant => dist(dx, 0) == 2 && dist(dy, 0) == 2,
        _ => false,
    }
}

/// Appends the attackers of one kind, looked for at each of the steps.
fn add_near(
    board: &Board,
    color: Color,
    kind: PieceKind,
    tx: i32,
    ty: i32,
    steps: &[(i32, i32)],
    out: &mut Vec<(Piece, Position)>,
)
    requires
        on_board(tx as int, ty as int),
        phase(kind) != 2,
        covers(color, kind, steps@),
        faithful(board@, old(out)@),
        forall|a: int, b: int| #[trigger]
            names(old(out)@, a, b) <==> attacks_upto(
                board@.grid(),
                color,
                a,
                b,
                tx as int,
                ty as int,
                phase(kind) - 1,
            ),
    ensures
        faithful(board@, final(out)@),
        forall|a: int, b: int| #[trigger]
            names(final(out)@, a, b) <==> attacks_upto(
                board@.grid(),
                color,
                a,
                b,
                tx as int,
                ty as int,
                phase(kind),
            ),
{
    let ghost g = board@.grid();
    let ghost (x, y) = (tx as int, ty as int);
    let ghost n = phase(kind);
    let mut i: usize = 0;
    while i < steps.len()
        invariant
            i <= steps@.len(),
            g == board@.grid(),
            x == tx,
            y == ty,
            n == phase(kind),
            n != 2,
            on_board(x, y),
            covers(color, kind, steps@),
            faithful(board@, out@),
            forall|a: int, b: int| #[trigger]
                names(out@, a, b) <==> attacks_upto(g, color, a, b, x, y, n - 1) || (attacks_upto(
                    g,
                    color,
                    a,
                    b,
                    x,
                    y,
                    n,
                ) && exists|j: int|
                    0 <= j < i && (#[trigger] steps@[j]) == ((a - x) as i32, (b - y) as i32)),
        decreases steps@.len() - i,
    {
        let (dx, dy) = steps[i];
        let ax: i32 = tx + dx;
        let ay: i32 = ty + dy;
        let ghost before = out@;
        if strikes(board, color, kind, ax, ay, tx, ty) {
            proof {
                assert(!names(out@, ax as int, ay as int));
                assert(g.contains_key((ax as int, ay as int)));
            }
            push_square(board, ax, ay, out);
        }
        proof {
            assert forall|a: int, b: int| #[trigger]
                names(out@, a, b) <==> attacks_upto(g, color, a, b, x, y, n - 1) || (attacks_upto(
                    g,
                    color,
                    a,
                    b,
                    x,
                    y,
                    n,
                ) && exists|j: int|
                    0 <= j < i + 1 && (#[trigger] steps@[j]) == ((a - x) as i32, (b - y) as i32)) by {
                assert(names(before, a, b) ==> names(out@, a, b));
                if (a, b) == (ax as int, ay as int) {
                    assert(steps@[i as int] == ((a - x) as i32, (b - y) as i32));
                }
            }
        }
        i += 1;
    }
    proof {
        assert forall|a: int, b: int| #[trigger]
            names(out@, a, b) <==> attacks_upto(g, color, a, b, x, y, n) by {
            if attacks_upto(g, color, a, b, x, y, n) && !attacks_upto(g, color, a, b, x, y, n - 1) {
                lemma_only_kind(kind, g[(a, b)].kind);
                let d = ((a - x) as i32, (b - y) as i32);
                assert(reaches(color, kind, d.0 as int, d.1 as int));
                assert(steps@.contains(d));
                let j = choose|j: int| 0 <= j < steps@.len() && steps@[j] == d;
                assert(steps@[j] == d);
            }
        }
    }
}

proof fn lemma_only_kind(kind: PieceKind, other: PieceKind)
    requires
        phase(kind) != 2,
        phase(other) == phase(kind),
    ensures
        other == kind,
{
}

/// Appends the rook and the cannon that attack from one direction.
fn add_line(
    board: &Board,
    color: Color,
    tx: i32,
    ty: i32,
    dx: i32,
    dy: i32,
    out: &mut Vec<(Piece, Position)>,
)
    requires
        on_board(tx as int, ty as int),
        straight(dx as int, dy as int),
        faithful(board@, old(out)@),
        forall|a: int, b: int|
            on_ray(tx as int, ty as int, dx as int, dy as int, a, b) && #[trigger] names(
                old(out)@,
                a,
                b,
            ) ==> phase(board@.grid()[(a, b)].kind) != 2,
    ensures
        faithful(board@, final(out)@),
        forall|a: int, b: int| #[trigger]
            names(final(out)@, a, b) <==> names(old(out)@, a, b) || (on_ray(
                tx as int,
                ty as int,
                dx as int,
                dy as int,
                a,
                b,
            ) && attacks(board@.grid(), color, a, b, tx as int, ty as int) && phase(
                board@.grid()[(a, b)].kind,
            ) == 2),
{
    let ghost g = board@.grid();
    let ghost (x, y, ex, ey) = (tx as int, ty as int, dx as int, dy as int);
    let ghost before = out@;
    let (first, second) = ray_hits(board, tx, ty, dx, dy);
    proof {
        assert(board.grid() == g);
        assert forall|a: int, b: int| on_ray(x, y, ex, ey, a, b) && #[trigger] attacks(
            g,
            color,
            a,
            b,
            x,
            y,
        ) && phase(g[(a, b)].kind) == 2 implies if g[(a, b)].kind == PieceKind::Rook {
            first == Some((a as i32, b as i32))
        } else {
            second == Some((a as i32, b as i32))
        } by {
            if g[(a, b)].kind == PieceKind::Rook {
                assert(met(g, x, y, ex, ey, a, b, 0));
            } else {
                assert(met(g, x, y, ex, ey, a, b, 1));
            }
        }
    }
    if let Some((ax, ay)) = first {
        if let Some(m) = board.man_at(ax, ay) {
            if m.color == color && m.kind == PieceKind::Rook {
                proof {
                    assert(attacks(g, color, ax as int, ay as int, x, y));
                    assert(!names(out@, ax as int, ay as int));
                }
                push_square(board, ax, ay, out);
            }
        }
    }
    let ghost middle = out@;
    if let Some((ax, ay)) = second {
        if let Some(m) = board.man_at(ax, ay) {
            if m.color == color && m.kind == PieceKind::Cannon {
                proof {
                    assert(attacks(g, color, ax as int, ay as int, x, y));
                    assert(!names(before, ax as int, ay as int));
                    assert(!names(out@, ax as int, ay as int));
                }
                push_square(board, ax, ay, out);
            }
        }
    }
    proof {
        assert forall|a: int, b: int| #[trigger]
            names(out@, a, b) <==> names(before, a, b) || (on_ray(x, y, ex, ey, a, b) && attacks(
                g,
                color,
                a,
                b,
                x,
                y,
            ) && phase(g[(a, b)].kind) == 2) by {
            assert(names(middle, a, b) ==> names(out@, a, b));
            assert(names(before, a, b) ==> names(middle, a, b));
        }
    }
}

/// The men of `attacker_color` that attack a square, the safety of their king left aside. Where a
/// man of the other side stands, they are those whose listed captures reach it.
pub fn pseudo_attackers_of(board: &Board, target_pos: Position, attacker_color: Color) -> (r: Vec<
    (Piece, Position),
>)
    requires
        target_pos.valid(),
    ensures
        lists_attackers(board@, attacker_color, target_pos, r@),
        board@.wf() && board@.cells.contains_key(target_pos.at())
            && board@.cells[target_pos.at()].color == attacker_color.opposite() ==> lists_capturers(
            board@,
            attacker_color,
            target_pos,
            r@,
        ),
{
    let tx: i32 = target_pos.x as i32;
    let ty: i32 = target_pos.y as i32;
    let color = attacker_color;
    let ghost g = board@.grid();
    let ghost (x, y) = (tx as int, ty as int);
    let mut out: Vec<(Piece, Position)> = Vec::new();

    let king: [(i32, i32); 4] = [(-1, 0), (1, 0), (0, -1), (0, 1)];
    assert(covers(color, PieceKind::King, king@)) by {
        lemma_four(king@);
    }
    add_near(board, color, PieceKind::King, tx, ty, &king, &mut out);

    let ghost kings = out@;
    add_line(board, color, tx, ty, -1, 0, &mut out);
    add_line(board, color, tx, ty, 1, 0, &mut out);
    add_line(board, color, tx, ty, 0, -1, &mut out);
    add_line(board, color, tx, ty, 0, 1, &mut out);
    assert forall|a: int, b: int| #[trigger]
        names(out@, a, b) <==> attacks_upto(g, color, a, b, x, y, 2) by {
        assert(names(kings, a, b) ==> attacks_upto(g, color, a, b, x, y, 1));
        if attacks(g, color, a, b, x, y) && phase(g[(a, b)].kind) == 2 {
            assert(on_ray(x, y, 1, 0, a, b) || on_ray(x, y, -1, 0, a, b) || on_ray(
                x,
                y,
                0,
                1,
                a,
                b,
            ) || on_ray(x, y, 0, -1, a, b));
        }
    }

    let horse: [(i32, i32); 8] = [
        (1, 2),
        (-1, 2),
        (1, -2),
        (-1, -2),
        (2, 1),
        (2, -1),
        (-2, 1),
        (-2, -1),
    ];
    assert(covers(color, PieceKind::Horse, horse@)) by {
        lemma_eight(horse@);
    }
    add_near(board, color, PieceKind::Horse, tx, ty, &horse, &mut out);

    let pawn: [(i32, i32); 3] = match color {
        Color::Red => [(0, 1), (-1, 0), (1, 0)],
        Color::Black => [(0, -1), (1, 0), (-1, 0)],
    };
    assert(covers(color, PieceKind::Pawn, pawn@)) by {
        lemma_three(pawn@);
    }
    add_near(board, color, PieceKind::Pawn, tx, ty, &pawn, &mut out);

    let advisor: [(i32, i32); 4] = [(1, 1), (1, -1), (-1, 1), (-1, -1)];
    assert(covers(color, PieceKind::Advisor, advisor@)) by {
        lemma_four(advisor@);
    }
    add_near(board, color, PieceKind::Advisor, tx, ty, &advisor, &mut out);

    let elephant: [(i32, i32); 4] = [(2, 2), (-2, 2), (2, -2), (-2, -2)];
    assert(covers(color, PieceKind::Elephant, elephant@)) by {
        lemma_four(elephant@);
    }
    add_near(board, color, PieceKind::Elephant, tx, ty, &elephant, &mut out);
    assert forall|a: int, b: int| #[trigger]
        names(out@, a, b) <==> attacks(g, color, a, b, x, y) by {
        assert(names(out@, a, b) <==> attacks_upto(g, color, a, b, x, y, 6));
    }
    proof {
        if board@.wf() && board@.cells.contains_key(target_pos.at())
            && board@.cells[target_pos.at()].color == attacker_color.opposite() {
            law_attackers_are_capturers(board@, attacker_color, target_pos, out@);
        }
    }
    out
}

proof fn lemma_eight(s: Seq<(i32, i32)>)
    requires
        s.len() == 8,
    ensures
        forall|d: (i32, i32)| #[trigger]
            s.contains(d) <==> d == s[0] || d == s[1] || d == s[2] || d == s[3] || d == s[4] || d
                == s[5] || d == s[6] || d == s[7],
{
}

proof fn lemma_four(s: Seq<(i32, i32)>)
    requires
        s.len() == 4,
    ensures
        forall|d: (i32, i32)| #[trigger]
            s.contains(d) <==> d == s[0] || d == s[1] || d == s[2] || d == s[3],
{
}

proof fn lemma_three(s: Seq<(i32, i32)>)
    requires
        s.len() == 3,
    ensures
        forall|d: (i32, i32)| #[trigger] s.contains(d) <==> d == s[0] || d == s[1] || d == s[2],
{
}

/// Whether the king of `color` is attacked or faces the other king.
pub fn is_in_check(board: &Board, color: Color) -> (r: bool)
    requires
        board@.wf(),
    ensures
        r == board@.in_check(color),
{
    let king_pos = board.king_pos(color);
    let enemy = color.opposite();
    proof {
        assert(board@.king(color).valid());
        assert(board@.king(enemy).valid());
    }
    let attackers = pseudo_attackers_of(board, king_pos, enemy);
    let ghost g = board@.grid();
    if attackers.len() > 0 {
        proof {
            let a = attackers@[0].1.at();
            assert(names(attackers@, a.0, a.1));
            assert(attacks(g, enemy, a.0, a.1, king_pos.x as int, king_pos.y as int));
        }
        return true;
    }
    proof {
        assert forall|ax: int, ay: int| !(#[trigger] attacks(
            g,
            enemy,
            ax,
            ay,
            king_pos.x as int,
            king_pos.y as int,
        )) by {
            assert(!names(attackers@, ax, ay));
        }
    }
    match board.count_pieces_between(king_pos, board.king_pos(enemy)) {
        Some(n) => n == 0,
        None => false,
    }
}

/// Whether a move that can be made leaves the king of `color` out of check; the board is as before.
fn leaves_king_safe(board: &mut Board, mv: Move, color: Color) -> (r: bool)
    requires
        old(board)@.wf(),
        old(board)@.can_make(mv),
    ensures
        final(board)@ == old(board)@,
        r == !old(board)@.after(mv).in_check(color),
{
    let ghost before = board@;
    let move_info = board.make_move(mv);
    proof {
        law_moves_keep_boards_well_formed(before, mv);
        law_undo_restores(before, mv);
    }
    let check = is_in_check(board, color);
    board.undo_move(&move_info);
    !check
}

/// Every capture on `to` by an attacker of `color` leaves room in the counters.
pub open spec fn attacks_fit(l: Layout, color: Color, to: Position) -> bool {
    forall|ax: int, ay: int| #[trigger]
        attacks(l.grid(), color, ax, ay, to.x as int, to.y as int) ==> l.counts_fit(
            hop(ax, ay, to),
        )
}

/// The men of `attacker_color` that may take on a square without leaving their king in check.
pub fn attackers_of(board: &mut Board, target_pos: Position, attacker_color: Color) -> (r:
    Vec<(Piece, Position)>)
    requires
        old(board)@.wf(),
        target_pos.valid(),
        attacks_fit(old(board)@, attacker_color, target_pos),
    ensures
        final(board)@ == old(board)@,
        faithful(old(board)@, r@),
        forall|a: int, b: int| #[trigger]
            names(r@, a, b) <==> old(board)@.may_attack(attacker_color, a, b, target_pos),
{
    let ghost l = board@;
    let candidates = pseudo_attackers_of(board, target_pos, attacker_color);
    let mut result: Vec<(Piece, Position)> = Vec::new();
    let mut i: usize = 0;
    while i < candidates.len()
        invariant
            i <= candidates@.len(),
            board@ == l,
            l.wf(),
            target_pos.valid(),
            attacks_fit(l, attacker_color, target_pos),
            faithful(l, candidates@),
            faithful(l, result@),
            forall|a: int, b: int| #[trigger]
                names(candidates@, a, b) <==> attacks(
                    l.grid(),
                    attacker_color,
                    a,
                    b,
                    target_pos.x as int,
                    target_pos.y as int,
                ),
            forall|a: int, b: int| #[trigger]
                names(result@, a, b) <==> names(candidates@.take(i as int), a, b) && l.may_attack(
                    attacker_color,
                    a,
                    b,
                    target_pos,
                ),
        decreases candidates@.len() - i,
    {
        let (piece, pos) = candidates[i];
        let ghost before = result@;
        let ghost done = candidates@.take(i as int);
        proof {
            assert(candidates@[i as int].1.at() == pos.at());
            assert(names(candidates@, pos.x as int, pos.y as int));
            assert(l.cells.contains_key(pos.at()));
            assert(on_board(pos.x as int, pos.y as int));
            assert(hop(pos.x as int, pos.y as int, target_pos) == (Move {
                from: pos,
                to: target_pos,
            }));
            assert(candidates@.take(i + 1) =~= done.push((piece, pos)));
            assert forall|j: int| 0 <= j < before.len() implies (#[trigger] before[j]).1 != pos by {
                assert(names(before, before[j].1.x as int, before[j].1.y as int));
                assert(names(done, before[j].1.x as int, before[j].1.y as int));
                let q = choose|q: int|
                    0 <= q < done.len() && (#[trigger] done[q]).1.at() == before[j].1.at();
                assert(candidates@[q].1 == done[q].1);
            }
        }
        if leaves_king_safe(board, Move::new(pos, target_pos), attacker_color) {
            result.push((piece, pos));
        }
        proof {
            assert forall|a: int, b: int| #[trigger]
                names(result@, a, b) <==> names(candidates@.take(i + 1), a, b) && l.may_attack(
                    attacker_color,
                    a,
                    b,
                    target_pos,
                ) by {
                lemma_names_push(done, (piece, pos), a, b);
                lemma_names_push(before, (piece, pos), a, b);
            }
        }
        i += 1;
    }
    proof {
        assert(candidates@.take(candidates@.len() as int) =~= candidates@);
    }
    result
}

/// The moves of the piece on a square, the safety of its king left aside.
pub fn pseudo_moves_for_piece(
    board: &Board,
    source_pos: Position,
    piece: Piece,
    filter: MoveFilter,
) -> (r: Vec<Move>)
    requires
        source_pos.valid(),
        board@.wf(),
        board@.cells.contains_key(source_pos.at()),
        board@.cells[source_pos.at()] == piece,
    ensures
        r@ == board@.pseudo_list(
            source_pos.x as int,
            source_pos.y as int,
            filter == MoveFilter::CaptureOnly,
        ),
        r@.no_duplicates(),
        forall|mv: Move| #[trigger]
            r@.contains(mv) <==> mv.from == source_pos && board@.pseudo_legal(
                mv,
                Some(piece.color),
            ) && (filter == MoveFilter::CaptureOnly ==> board@.captured(mv) is Some),
{
    let man = Man { color: piece.color, kind: piece.kind };
    let captures_only = filter == MoveFilter::CaptureOnly;
    let ghost (x, y) = (source_pos.x as int, source_pos.y as int);
    let to = crate::grid::pseudo_moves_for_piece(
        board,
        Sweep::NegativeFirst,
        man,
        source_pos.x as i32,
        source_pos.y as i32,
        captures_only,
    );
    proof {
        lemma_targets_exact(Sweep::NegativeFirst, board@.grid(), man, x, y, captures_only);
        assert forall|i: int| 0 <= i < to@.len() implies on_board(
            (#[trigger] to@[i]).0 as int,
            to@[i].1 as int,
        ) by {
            assert(to@.contains(to@[i]));
        }
    }
    let mut r: Vec<Move> = Vec::new();
    let mut i: usize = 0;
    while i < to.len()
        invariant
            i <= to@.len(),
            x == source_pos.x,
            y == source_pos.y,
            forall|i: int|
                0 <= i < to@.len() ==> on_board((#[trigger] to@[i]).0 as int, to@[i].1 as int),
            r@ == hops(x, y, to@.take(i as int)),
        decreases to@.len() - i,
    {
        assert(on_board(to@[i as int].0 as int, to@[i as int].1 as int));
        r.push(Move::new(source_pos, Position::new(to[i].0 as i8, to[i].1 as i8)));
        i += 1;
        assert(r@ =~= hops(x, y, to@.take(i as int)));
    }
    proof {
        assert(to@.take(to@.len() as int) =~= to@);
        law_pseudo_list_exact(board@, x, y, captures_only);
    }
    r
}

/// Why a move is refused; `None` if it is legal. With `side_to_move`, only a piece of that side may
/// move.
pub fn validate_move(board: &mut Board, mv: Move, side_to_move: Option<Color>) -> (r: Option<
    MoveValidationReason,
>)
    requires
        old(board)@.wf(),
        old(board)@.judgeable(mv, side_to_move),
    ensures
        final(board)@ == old(board)@,
        r == old(board)@.refusal(mv, side_to_move),
{
    if !in_board(mv.from) || !in_board(mv.to) {
        return Some(MoveValidationReason::OutsideBoard);
    }
    let piece = match board.get_piece_at(mv.from) {
        None => {
            return Some(MoveValidationReason::NoPiece);
        },
        Some(p) => p,
    };
    if let Some(color) = side_to_move {
        if piece.color != color {
            return Some(MoveValidationReason::WrongSide);
        }
    }
    if let Some(captured) = board.get_piece_at(mv.to) {
        if captured.color == piece.color {
            return Some(MoveValidationReason::CaptureOwnPiece);
        }
    }
    let moves = pseudo_moves_for_piece(board, mv.from, piece, MoveFilter::All);
    if !contains_move(&moves, mv) {
        return Some(MoveValidationReason::InvalidPieceMove);
    }
    assert(board@.pseudo_legal(mv, side_to_move));
    if leaves_king_safe(board, mv, piece.color) {
        None
    } else {
        Some(MoveValidationReason::LeavesKingInCheck)
    }
}

fn contains_move(moves: &Vec<Move>, mv: Move) -> (r: bool)
    ensures
        r == moves@.contains(mv),
{
    let mut i: usize = 0;
    while i < moves.len()
        invariant
            i <= moves@.len(),
            forall|j: int| 0 <= j < i ==> moves@[j] != mv,
        decreases moves@.len() - i,
    {
        if moves[i] == mv {
            assert(moves@[i as int] == mv);
            return true;
        }
        i += 1;
    }
    false
}

pub fn is_legal_move(board: &mut Board, mv: Move, side_to_move: Option<Color>) -> (r: bool)
    requires
        old(board)@.wf(),
        old(board)@.judgeable(mv, side_to_move),
    ensures
        final(board)@ == old(board)@,
        r == (old(board)@.refusal(mv, side_to_move) is None),
{
    validate_move(board, mv, side_to_move).is_none()
}

/// The legal moves of a side, square by square from the top left.
pub fn legal_moves(board: &mut Board, side_to_move: Color) -> (r: Vec<Move>)
    requires
        old(board)@.wf(),
        old(board)@.all_judgeable(side_to_move),
    ensures
        final(board)@ == old(board)@,
        r@ == old(board)@.legal_list(side_to_move, false),
{
    legal_moves_filtered(board, side_to_move, MoveFilter::All)
}

/// The legal captures of a side, square by square from the top left.
pub fn legal_capture_moves(board: &mut Board, side_to_move: Color) -> (r: Vec<Move>)
    requires
        old(board)@.wf(),
        old(board)@.all_judgeable(side_to_move),
    ensures
        final(board)@ == old(board)@,
        r@ == old(board)@.legal_list(side_to_move, true),
{
    legal_moves_filtered(board, side_to_move, MoveFilter::CaptureOnly)
}

/// The legal moves of the piece on a square, whichever side it belongs to.
pub fn legal_moves_for_piece(board: &mut Board, pos: Position) -> (r: Vec<Move>)
    requires
        old(board)@.wf(),
        pos.valid(),
        old(board)@.cells.contains_key(pos.at()) ==> old(board)@.all_judgeable(
            old(board)@.cells[pos.at()].color,
        ),
    ensures
        final(board)@ == old(board)@,
        r@ == if old(board)@.cells.contains_key(pos.at()) {
            old(board)@.safe_moves(pos.x as int, pos.y as int, false)
        } else {
            Seq::empty()
        },
{
    let piece = match board.get_piece_at(pos) {
        None => {
            return Vec::new();
        },
        Some(p) => p,
    };
    let mut moves: Vec<Move> = Vec::new();
    add_safe_moves(board, pos, piece, MoveFilter::All, &mut moves);
    moves
}

/// Appends the moves of the piece on a square that leave its king safe.
fn add_safe_moves(
    board: &mut Board,
    pos: Position,
    piece: Piece,
    filter: MoveFilter,
    out: &mut Vec<Move>,
)
    requires
        old(board)@.wf(),
        pos.valid(),
        old(board)@.cells.contains_key(pos.at()),
        old(board)@.cells[pos.at()] == piece,
        old(board)@.all_judgeable(piece.color),
    ensures
        final(board)@ == old(board)@,
        final(out)@ == old(out)@ + old(board)@.safe_moves(
            pos.x as int,
            pos.y as int,
            filter == MoveFilter::CaptureOnly,
        ),
{
    let ghost l = board@;
    let ghost start = out@;
    let ghost p = l.leaves_safe(piece.color);
    let reached = pseudo_moves_for_piece(board, pos, piece, filter);
    let mut j: usize = 0;
    proof {
        reveal(Seq::filter);
        assert(reached@.take(0) =~= Seq::empty());
        assert(out@ =~= start + reached@.take(0).filter(p));
    }
    while j < reached.len()
        invariant
            j <= reached@.len(),
            board@ == l,
            l.wf(),
            pos.valid(),
            l.all_judgeable(piece.color),
            p == l.leaves_safe(piece.color),
            forall|mv: Move| #[trigger]
                reached@.contains(mv) ==> l.pseudo_legal(mv, Some(piece.color)),
            out@ == start + reached@.take(j as int).filter(p),
        decreases reached@.len() - j,
    {
        let mv = reached[j];
        proof {
            assert(reached@.contains(mv));
            assert(l.judgeable(mv, Some(piece.color)));
            assert(reached@.take(j + 1) =~= reached@.take(j as int).push(mv));
            reached@.take(j as int).lemma_filter_push(mv, p);
        }
        if leaves_king_safe(board, mv, piece.color) {
            out.push(mv);
        }
        j += 1;
        assert(out@ =~= start + reached@.take(j as int).filter(p));
    }
    assert(reached@.take(reached@.len() as int) =~= reached@);
}

fn legal_moves_filtered(board: &mut Board, side_to_move: Color, filter: MoveFilter) -> (r: Vec<
    Move,
>)
    requires
        old(board)@.wf(),
        old(board)@.all_judgeable(side_to_move),
    ensures
        final(board)@ == old(board)@,
        r@ == old(board)@.legal_list(side_to_move, filter == MoveFilter::CaptureOnly),
{
    let ghost l = board@;
    let ghost only = filter == MoveFilter::CaptureOnly;
    let mut moves: Vec<Move> = Vec::new();
    let mut k: usize = 0;
    while k < 90
        invariant
            k <= 90,
            board@ == l,
            l.wf(),
            l.all_judgeable(side_to_move),
            only == (filter == MoveFilter::CaptureOnly),
            moves@ == l.legal_below(side_to_move, only, k as nat),
        decreases 90 - k,
    {
        let pos = Position::new((k % 9) as i8, (k / 9) as i8);
        assert(nth_square(k as int) == pos.at());
        if let Some(piece) = board.get_piece_at(pos) {
            if piece.color == side_to_move {
                add_safe_moves(board, pos, piece, filter, &mut moves);
            }
        }
        k += 1;
    }
    moves
}

} // verus!

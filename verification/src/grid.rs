//! The geometry of the board and how each kind of man moves, stated once for every board type.

use vstd::prelude::*;

use crate::types::{Color, PieceKind};

verus! {

/// A man on the board, regardless of which of several equal men it is.
#[derive(Debug, Clone, Copy, PartialEq, Eq, Hash, Structural)]
pub struct Man {
    pub color: Color,
    pub kind: PieceKind,
}

/// The men on the board, by square `(x, y)`; `x` grows to the right, `y` downwards.
pub type Grid = Map<(int, int), Man>;

/// The square lies on the board of nine files and ten ranks.
pub open spec fn on_board(x: int, y: int) -> bool {
    0 <= x < 9 && 0 <= y < 10
}

pub open spec fn vacant(g: Grid, x: int, y: int) -> bool {
    !g.contains_key((x, y))
}

/// The man on a square, if there is one.
pub open spec fn at(g: Grid, x: int, y: int) -> Option<Man> {
    if vacant(g, x, y) {
        None
    } else {
        Some(g[(x, y)])
    }
}

/// The square holds a man of that side and kind.
pub open spec fn stands(g: Grid, color: Color, kind: PieceKind, x: int, y: int) -> bool {
    at(g, x, y) == Some(Man { color, kind })
}

/// The square belongs to the palace of `color`.
pub open spec fn palace(color: Color, x: int, y: int) -> bool {
    3 <= x <= 5 && match color {
        Color::Red => 7 <= y <= 9,
        Color::Black => 0 <= y <= 2,
    }
}

/// Rank `y` lies beyond the river as seen from `color`.
pub open spec fn over_river(color: Color, y: int) -> bool {
    match color {
        Color::Red => y <= 4,
        Color::Black => y >= 5,
    }
}

pub open spec fn dist(a: int, b: int) -> int {
    if a <= b {
        b - a
    } else {
        a - b
    }
}

/// How `y` changes when a pawn of `color` advances.
pub open spec fn forward(color: Color) -> int {
    match color {
        Color::Red => -1,
        Color::Black => 1,
    }
}

/// Number of men on rank `y` with `a <= x < b`.
pub open spec fn row_men(g: Grid, y: int, a: int, b: int) -> int
    decreases b - a,
{
    if b <= a {
        0
    } else {
        row_men(g, y, a, b - 1) + if vacant(g, b - 1, y) {
            0int
        } else {
            1
        }
    }
}

/// Number of men on file `x` with `a <= y < b`.
pub open spec fn col_men(g: Grid, x: int, a: int, b: int) -> int
    decreases b - a,
{
    if b <= a {
        0
    } else {
        col_men(g, x, a, b - 1) + if vacant(g, x, b - 1) {
            0int
        } else {
            1
        }
    }
}

/// The two squares differ and share a rank or a file.
pub open spec fn in_line(ax: int, ay: int, bx: int, by: int) -> bool {
    (ax == bx) != (ay == by)
}

/// Number of men strictly between two squares of one rank or file.
pub open spec fn men_between(g: Grid, ax: int, ay: int, bx: int, by: int) -> int {
    if ax == bx {
        if ay <= by {
            col_men(g, ax, ay + 1, by)
        } else {
            col_men(g, ax, by + 1, ay)
        }
    } else if ax <= bx {
        row_men(g, ay, ax + 1, bx)
    } else {
        row_men(g, ay, bx + 1, ax)
    }
}

/// The way of moving of `man` leads from `(sx, sy)` to `(tx, ty)`.
pub open spec fn strides(g: Grid, man: Man, sx: int, sy: int, tx: int, ty: int) -> bool {
    let dx = dist(sx, tx);
    let dy = dist(sy, ty);
    match man.kind {
        PieceKind::King => dx + dy == 1 && palace(man.color, tx, ty),
        PieceKind::Advisor => dx == 1 && dy == 1 && palace(man.color, tx, ty),
        PieceKind::Elephant => dx == 2 && dy == 2 && !over_river(man.color, ty) && vacant(
            g,
            (sx + tx) / 2,
            (sy + ty) / 2,
        ),
        PieceKind::Horse => {
            ||| dx == 1 && dy == 2 && vacant(g, sx, (sy + ty) / 2)
            ||| dx == 2 && dy == 1 && vacant(g, (sx + tx) / 2, sy)
        },
        PieceKind::Rook => in_line(sx, sy, tx, ty) && men_between(g, sx, sy, tx, ty) == 0,
        PieceKind::Cannon => in_line(sx, sy, tx, ty) && men_between(g, sx, sy, tx, ty) == if vacant(
            g,
            tx,
            ty,
        ) {
            0int
        } else {
            1
        },
        PieceKind::Pawn => {
            ||| tx == sx && ty == sy + forward(man.color)
            ||| over_river(man.color, sy) && ty == sy && dx == 1
        },
    }
}

/// `man` may go from `(sx, sy)` to `(tx, ty)` when the safety of its king is left aside.
pub open spec fn moves_to(g: Grid, man: Man, sx: int, sy: int, tx: int, ty: int) -> bool {
    &&& on_board(tx, ty)
    &&& !vacant(g, tx, ty) ==> g[(tx, ty)].color != man.color
    &&& strides(g, man, sx, sy, tx, ty)
}

/// The squares that `man` may go to from `(x, y)`; only those it captures on, if so asked.
pub open spec fn goes(g: Grid, man: Man, x: int, y: int, captures_only: bool) -> spec_fn(
    (i32, i32),
) -> bool {
    |t: (i32, i32)|
        moves_to(g, man, x, y, t.0 as int, t.1 as int) && (captures_only ==> !vacant(
            g,
            t.0 as int,
            t.1 as int,
        ))
}

/// A man of `enemy` on `(ax, ay)` could capture on `(kx, ky)`.
pub open spec fn could_capture(g: Grid, enemy: Color, ax: int, ay: int, kx: int, ky: int) -> bool {
    &&& on_board(ax, ay)
    &&& at(g, ax, ay) matches Some(m)
    &&& m.color == enemy
    &&& moves_to(g, m, ax, ay, kx, ky)
}

/// The king of `enemy` on `(ax, ay)` faces `(kx, ky)` along an open line.
pub open spec fn faces(g: Grid, enemy: Color, ax: int, ay: int, kx: int, ky: int) -> bool {
    &&& on_board(ax, ay)
    &&& stands(g, enemy, PieceKind::King, ax, ay)
    &&& in_line(kx, ky, ax, ay)
    &&& men_between(g, kx, ky, ax, ay) == 0
}

/// A man of `enemy` on `(ax, ay)` could capture on `(kx, ky)`, or is the king facing it.
pub open spec fn threatens(g: Grid, enemy: Color, ax: int, ay: int, kx: int, ky: int) -> bool {
    could_capture(g, enemy, ax, ay, kx, ky) || faces(g, enemy, ax, ay, kx, ky)
}

/// The order in which directions are tried when moves are listed.
#[derive(Debug, Clone, Copy, PartialEq, Eq, Structural)]
pub enum Sweep {
    /// Left before right, up before down.
    NegativeFirst,
    /// Right before left, down before up.
    PositiveFirst,
}

pub open spec fn straight_steps(sweep: Sweep) -> Seq<(i32, i32)> {
    match sweep {
        Sweep::NegativeFirst => seq![(-1i32, 0i32), (1i32, 0i32), (0i32, -1i32), (0i32, 1i32)],
        Sweep::PositiveFirst => seq![(1i32, 0i32), (-1i32, 0i32), (0i32, 1i32), (0i32, -1i32)],
    }
}

pub open spec fn diagonal_steps() -> Seq<(i32, i32)> {
    seq![(1i32, 1i32), (1i32, -1i32), (-1i32, 1i32), (-1i32, -1i32)]
}

pub open spec fn elephant_steps(sweep: Sweep) -> Seq<(i32, i32)> {
    match sweep {
        Sweep::NegativeFirst => seq![(2i32, 2i32), (-2i32, 2i32), (2i32, -2i32), (-2i32, -2i32)],
        Sweep::PositiveFirst => seq![(2i32, 2i32), (2i32, -2i32), (-2i32, 2i32), (-2i32, -2i32)],
    }
}

pub open spec fn horse_steps() -> Seq<(i32, i32)> {
    seq![
        (1i32, 2i32),
        (-1i32, 2i32),
        (1i32, -2i32),
        (-1i32, -2i32),
        (2i32, 1i32),
        (2i32, -1i32),
        (-2i32, 1i32),
        (-2i32, -1i32),
    ]
}

pub open spec fn pawn_steps(color: Color, y: int) -> Seq<(i32, i32)> {
    if over_river(color, y) {
        seq![(0i32, forward(color) as i32), (-1i32, 0i32), (1i32, 0i32)]
    } else {
        seq![(0i32, forward(color) as i32)]
    }
}

/// The squares reached from `(x, y)` by each of `steps`.
pub open spec fn around(x: int, y: int, steps: Seq<(i32, i32)>) -> Seq<(i32, i32)> {
    steps.map_values(|d: (i32, i32)| ((x + d.0) as i32, (y + d.1) as i32))
}

/// The `n` squares met when walking from `(x, y)` in direction `(dx, dy)`.
#[verifier::opaque]
pub open spec fn ray(x: int, y: int, dx: int, dy: int, n: nat) -> Seq<(i32, i32)>
    decreases n,
{
    if n == 0 {
        Seq::empty()
    } else {
        seq![((x + dx) as i32, (y + dy) as i32)] + ray(x + dx, y + dy, dx, dy, (n - 1) as nat)
    }
}

/// The squares in line with `(x, y)`, one direction after the other, outwards.
pub open spec fn lines(x: int, y: int, sweep: Sweep) -> Seq<(i32, i32)> {
    let d = straight_steps(sweep);
    ray(x, y, d[0].0 as int, d[0].1 as int, 9) + ray(x, y, d[1].0 as int, d[1].1 as int, 9) + ray(
        x,
        y,
        d[2].0 as int,
        d[2].1 as int,
        9,
    ) + ray(x, y, d[3].0 as int, d[3].1 as int, 9)
}

/// Every square that `man` could reach from `(x, y)` on some board, in the order of the sweep.
pub open spec fn candidates(sweep: Sweep, man: Man, x: int, y: int) -> Seq<(i32, i32)> {
    match man.kind {
        PieceKind::King => around(x, y, straight_steps(sweep)),
        PieceKind::Advisor => around(x, y, diagonal_steps()),
        PieceKind::Elephant => around(x, y, elephant_steps(sweep)),
        PieceKind::Horse => around(x, y, horse_steps()),
        PieceKind::Rook => lines(x, y, sweep),
        PieceKind::Cannon => lines(x, y, sweep),
        PieceKind::Pawn => around(x, y, pawn_steps(man.color, y)),
    }
}

/// The squares that `man` may go to from `(x, y)`, listed in the order of the sweep.
pub open spec fn targets(
    sweep: Sweep,
    g: Grid,
    man: Man,
    x: int,
    y: int,
    captures_only: bool,
) -> Seq<(i32, i32)> {
    candidates(sweep, man, x, y).filter(goes(g, man, x, y, captures_only))
}

/// A board whose squares can be looked up.
pub trait Cells {
    /// The men on the board.
    spec fn grid(&self) -> Grid;

    fn man_at(&self, x: i32, y: i32) -> (r: Option<Man>)
        requires
            on_board(x as int, y as int),
        ensures
            r == at(self.grid(), x as int, y as int),
    ;
}

pub fn in_board(x: i32, y: i32) -> (r: bool)
    ensures
        r == on_board(x as int, y as int),
{
    x >= 0 && x < 9 && y >= 0 && y < 10
}

pub fn in_palace(color: Color, x: i32, y: i32) -> (r: bool)
    ensures
        r == palace(color, x as int, y as int),
{
    if x < 3 || x > 5 {
        return false;
    }
    match color {
        Color::Red => 7 <= y && y <= 9,
        Color::Black => 0 <= y && y <= 2,
    }
}

pub fn crossed_river(color: Color, y: i32) -> (r: bool)
    ensures
        r == over_river(color, y as int),
{
    match color {
        Color::Red => y <= 4,
        Color::Black => y >= 5,
    }
}

pub(crate) fn straight_directions(sweep: Sweep) -> (r: [(i32, i32); 4])
    ensures
        r@ == straight_steps(sweep),
{
    let r: [(i32, i32); 4] = match sweep {
        Sweep::NegativeFirst => [(-1, 0), (1, 0), (0, -1), (0, 1)],
        Sweep::PositiveFirst => [(1, 0), (-1, 0), (0, 1), (0, -1)],
    };
    assert(r@ =~= straight_steps(sweep));
    r
}

/// The steps of a man that does not slide, in the order of the sweep.
fn steps_of(sweep: Sweep, man: Man, y: i32) -> (r: Vec<(i32, i32)>)
    requires
        man.kind != PieceKind::Rook,
        man.kind != PieceKind::Cannon,
    ensures
        forall|x: int| candidates(sweep, man, x, y as int) == around(x, y as int, r@),
        forall|i: int| 0 <= i < r@.len() ==> -2 <= (#[trigger] r@[i]).0 <= 2 && -2 <= r@[i].1 <= 2,
{
    match man.kind {
        PieceKind::King => {
            let r: Vec<(i32, i32)> = match sweep {
                Sweep::NegativeFirst => vec![(-1, 0), (1, 0), (0, -1), (0, 1)],
                Sweep::PositiveFirst => vec![(1, 0), (-1, 0), (0, 1), (0, -1)],
            };
            assert(r@ =~= straight_steps(sweep));
            r
        },
        PieceKind::Advisor => {
            let r: Vec<(i32, i32)> = vec![(1, 1), (1, -1), (-1, 1), (-1, -1)];
            assert(r@ =~= diagonal_steps());
            r
        },
        PieceKind::Elephant => {
            let r: Vec<(i32, i32)> = match sweep {
                Sweep::NegativeFirst => vec![(2, 2), (-2, 2), (2, -2), (-2, -2)],
                Sweep::PositiveFirst => vec![(2, 2), (2, -2), (-2, 2), (-2, -2)],
            };
            assert(r@ =~= elephant_steps(sweep));
            r
        },
        PieceKind::Horse => {
            let r: Vec<(i32, i32)> = vec![
                (1, 2),
                (-1, 2),
                (1, -2),
                (-1, -2),
                (2, 1),
                (2, -1),
                (-2, 1),
                (-2, -1),
            ];
            assert(r@ =~= horse_steps());
            r
        },
        PieceKind::Rook | PieceKind::Cannon => Vec::new(),
        PieceKind::Pawn => {
            let mut r: Vec<(i32, i32)> = match man.color {
                Color::Red => vec![(0, -1)],
                Color::Black => vec![(0, 1)],
            };
            if crossed_river(man.color, y) {
                r.push((-1, 0));
                r.push((1, 0));
            }
            assert(r@ =~= pawn_steps(man.color, y as int));
            r
        },
    }
}

/// No man of `color` stands on the square.
fn can_land<B: Cells>(b: &B, x: i32, y: i32, color: Color) -> (r: bool)
    requires
        on_board(x as int, y as int),
    ensures
        r == (!vacant(b.grid(), x as int, y as int) ==> b.grid()[(x as int, y as int)].color
            != color),
{
    match b.man_at(x, y) {
        None => true,
        Some(m) => m.color != color,
    }
}

/// Whether a man that does not slide may go from one square to another.
fn can_step<B: Cells>(b: &B, man: Man, sx: i32, sy: i32, tx: i32, ty: i32) -> (r: bool)
    requires
        on_board(sx as int, sy as int),
        man.kind != PieceKind::Rook,
        man.kind != PieceKind::Cannon,
    ensures
        r == moves_to(b.grid(), man, sx as int, sy as int, tx as int, ty as int),
{
    if !in_board(tx, ty) || !can_land(b, tx, ty, man.color) {
        return false;
    }
    let dx: i32 = if sx <= tx { tx - sx } else { sx - tx };
    let dy: i32 = if sy <= ty { ty - sy } else { sy - ty };
    match man.kind {
        PieceKind::King => dx + dy == 1 && in_palace(man.color, tx, ty),
        PieceKind::Advisor => dx == 1 && dy == 1 && in_palace(man.color, tx, ty),
        PieceKind::Elephant => dx == 2 && dy == 2 && !crossed_river(man.color, ty) && b.man_at(
            (sx + tx) / 2,
            (sy + ty) / 2,
        ).is_none(),
        PieceKind::Horse => (dx == 1 && dy == 2 && b.man_at(sx, (sy + ty) / 2).is_none()) || (dx
            == 2 && dy == 1 && b.man_at((sx + tx) / 2, sy).is_none()),
        PieceKind::Rook | PieceKind::Cannon => false,
        PieceKind::Pawn => {
            let ahead: i32 = match man.color {
                Color::Red => -1,
                Color::Black => 1,
            };
            (tx == sx && ty == sy + ahead) || (crossed_river(man.color, sy) && ty == sy && dx == 1)
        },
    }
}

/// The squares that a man that does not slide may go to.
fn step_moves<B: Cells>(
    b: &B,
    sweep: Sweep,
    man: Man,
    x: i32,
    y: i32,
    captures_only: bool,
) -> (r: Vec<(i32, i32)>)
    requires
        on_board(x as int, y as int),
        man.kind != PieceKind::Rook,
        man.kind != PieceKind::Cannon,
    ensures
        r@ == targets(sweep, b.grid(), man, x as int, y as int, captures_only),
{
    let steps = steps_of(sweep, man, y);
    let ghost all = candidates(sweep, man, x as int, y as int);
    let ghost p = goes(b.grid(), man, x as int, y as int, captures_only);
    let mut r: Vec<(i32, i32)> = Vec::new();
    let mut i: usize = 0;
    proof {
        assert(all.take(0) =~= Seq::empty());
        reveal(Seq::filter);
    }
    while i < steps.len()
        invariant
            on_board(x as int, y as int),
            man.kind != PieceKind::Rook,
            man.kind != PieceKind::Cannon,
            i <= steps@.len(),
            all == around(x as int, y as int, steps@),
            all.len() == steps@.len(),
            p == goes(b.grid(), man, x as int, y as int, captures_only),
            forall|i: int|
                0 <= i < steps@.len() ==> -2 <= (#[trigger] steps@[i]).0 <= 2 && -2 <= steps@[i].1
                    <= 2,
            r@ == all.take(i as int).filter(p),
        decreases steps@.len() - i,
    {
        let (dx, dy) = steps[i];
        let tx: i32 = x + dx;
        let ty: i32 = y + dy;
        proof {
            assert(all[i as int] == (tx, ty));
            assert(all.take(i + 1) =~= all.take(i as int).push((tx, ty)));
            all.take(i as int).lemma_filter_push((tx, ty), p);
        }
        if can_step(b, man, x, y, tx, ty) && (!captures_only || b.man_at(tx, ty).is_some()) {
            r.push((tx, ty));
        }
        i += 1;
    }
    assert(all.take(all.len() as int) =~= all);
    r
}

/// One of the four directions along ranks and files.
pub open spec fn straight(dx: int, dy: int) -> bool {
    dist(dx, 0) + dist(dy, 0) == 1
}

/// `(cx, cy)` is `(sx, sy)` or is met when walking from it in direction `(dx, dy)`.
pub open spec fn on_ray(sx: int, sy: int, dx: int, dy: int, cx: int, cy: int) -> bool {
    if dx == 0 {
        cx == sx && if dy > 0 {
            cy >= sy
        } else {
            cy <= sy
        }
    } else {
        cy == sy && if dx > 0 {
            cx >= sx
        } else {
            cx <= sx
        }
    }
}

proof fn lemma_row_front(g: Grid, y: int, a: int, b: int)
    requires
        a < b,
    ensures
        row_men(g, y, a, b) == row_men(g, y, a + 1, b) + if vacant(g, a, y) {
            0int
        } else {
            1
        },
    decreases b - a,
{
    if b > a + 1 {
        lemma_row_front(g, y, a, b - 1);
    } else {
        assert(row_men(g, y, a, b - 1) == 0);
    }
}

proof fn lemma_col_front(g: Grid, x: int, a: int, b: int)
    requires
        a < b,
    ensures
        col_men(g, x, a, b) == col_men(g, x, a + 1, b) + if vacant(g, x, a) {
            0int
        } else {
            1
        },
    decreases b - a,
{
    if b > a + 1 {
        lemma_col_front(g, x, a, b - 1);
    } else {
        assert(col_men(g, x, a, b - 1) == 0);
    }
}

pub(crate) proof fn lemma_row_men_bounds(g: Grid, y: int, a: int, b: int)
    ensures
        0 <= row_men(g, y, a, b),
        a <= b ==> row_men(g, y, a, b) <= b - a,
    decreases b - a,
{
    if a < b {
        lemma_row_men_bounds(g, y, a, b - 1);
    }
}

pub(crate) proof fn lemma_col_men_bounds(g: Grid, x: int, a: int, b: int)
    ensures
        0 <= col_men(g, x, a, b),
        a <= b ==> col_men(g, x, a, b) <= b - a,
    decreases b - a,
{
    if a < b {
        lemma_col_men_bounds(g, x, a, b - 1);
    }
}

/// Walking one square further adds the man on the square that is left behind.
pub(crate) proof fn lemma_between_step(
    g: Grid,
    sx: int,
    sy: int,
    dx: int,
    dy: int,
    cx: int,
    cy: int,
)
    requires
        straight(dx, dy),
        on_ray(sx, sy, dx, dy, cx, cy),
    ensures
        on_ray(sx, sy, dx, dy, cx + dx, cy + dy),
        in_line(sx, sy, cx + dx, cy + dy),
        (cx, cy) == (sx, sy) ==> men_between(g, sx, sy, cx + dx, cy + dy) == 0,
        (cx, cy) != (sx, sy) ==> men_between(g, sx, sy, cx + dx, cy + dy) == men_between(
            g,
            sx,
            sy,
            cx,
            cy,
        ) + if vacant(g, cx, cy) {
            0int
        } else {
            1
        },
{
    if dx == -1 && cx < sx {
        lemma_row_front(g, sy, cx, sx);
    }
    if dy == -1 && cy < sy {
        lemma_col_front(g, sx, cy, sy);
    }
}

/// Beyond the edge, or once too many men have been passed, a slider reaches nothing.
proof fn lemma_ray_dead(
    g: Grid,
    man: Man,
    sx: int,
    sy: int,
    dx: int,
    dy: int,
    cx: int,
    cy: int,
    n: nat,
    captures_only: bool,
)
    requires
        man.kind == PieceKind::Rook || man.kind == PieceKind::Cannon,
        straight(dx, dy),
        on_board(sx, sy),
        -100 + n <= cx <= 100 - n,
        -100 + n <= cy <= 100 - n,
        on_ray(sx, sy, dx, dy, cx, cy),
        !on_board(cx + dx, cy + dy) || {
            &&& (cx, cy) != (sx, sy)
            &&& !vacant(g, cx, cy)
            &&& men_between(g, sx, sy, cx, cy) >= if man.kind == PieceKind::Rook {
                0int
            } else {
                1
            }
        } || {
            &&& (cx, cy) != (sx, sy)
            &&& men_between(g, sx, sy, cx, cy) >= if man.kind == PieceKind::Rook {
                1int
            } else {
                2
            }
        },
    ensures
        ray(cx, cy, dx, dy, n).filter(goes(g, man, sx, sy, captures_only)) == Seq::<
            (i32, i32),
        >::empty(),
    decreases n,
{
    reveal(Seq::filter);
    reveal(ray);
    if n > 0 {
        let p = goes(g, man, sx, sy, captures_only);
        lemma_between_step(g, sx, sy, dx, dy, cx, cy);
        let a = ((cx + dx) as i32, (cy + dy) as i32);
        assert(!p(a));
        let rest = ray(cx + dx, cy + dy, dx, dy, (n - 1) as nat);
        lemma_ray_dead(
            g,
            man,
            sx,
            sy,
            dx,
            dy,
            cx + dx,
            cy + dy,
            (n - 1) as nat,
            captures_only,
        );
        rest.lemma_filter_prepend(a, p);
    }
}

/// What a rook or cannon finds on the next square of a ray: whether it may go there, and what is
/// left to list.
proof fn lemma_slide_step(
    g: Grid,
    man: Man,
    sx: int,
    sy: int,
    dx: int,
    dy: int,
    cx: int,
    cy: int,
    n: nat,
    screened: bool,
    captures_only: bool,
)
    requires
        man.kind == PieceKind::Rook || man.kind == PieceKind::Cannon,
        straight(dx, dy),
        on_board(sx, sy),
        on_board(cx, cy),
        on_ray(sx, sy, dx, dy, cx, cy),
        on_ray(sx, sy, dx, dy, cx - dx, cy - dy),
        n + dist(sx, cx) + dist(sy, cy) == 10,
        men_between(g, sx, sy, cx, cy) == if screened {
            1int
        } else {
            0
        },
        man.kind == PieceKind::Rook ==> !screened,
    ensures
        ({
            let p = goes(g, man, sx, sy, captures_only);
            let c = (cx as i32, cy as i32);
            let cannon = man.kind == PieceKind::Cannon;
            let rest = ray(cx, cy, dx, dy, (n - 1) as nat);
            let hit = if vacant(g, cx, cy) {
                !screened && !captures_only
            } else {
                screened == cannon && g[(cx, cy)].color != man.color
            };
            &&& n >= 1
            &&& ray(cx - dx, cy - dy, dx, dy, n).filter(p) == if hit {
                seq![c] + rest.filter(p)
            } else {
                rest.filter(p)
            }
            &&& (!vacant(g, cx, cy) && screened == cannon) || !on_board(cx + dx, cy + dy)
                ==> rest.filter(p) == Seq::<(i32, i32)>::empty()
            &&& on_ray(sx, sy, dx, dy, cx + dx, cy + dy)
            &&& men_between(g, sx, sy, cx + dx, cy + dy) == if screened || !vacant(g, cx, cy) {
                if screened && !vacant(g, cx, cy) {
                    2int
                } else {
                    1
                }
            } else {
                0
            }
        }),
{
    let p = goes(g, man, sx, sy, captures_only);
    let c = (cx as i32, cy as i32);
    let rest = ray(cx, cy, dx, dy, (n - 1) as nat);
    assert(n >= 1);
    assert(ray(cx - dx, cy - dy, dx, dy, n) == seq![c] + rest) by {
        reveal(ray);
        assert(cx - dx + dx == cx && cy - dy + dy == cy);
    }
    assert(in_line(sx, sy, cx, cy)) by {
        lemma_between_step(g, sx, sy, dx, dy, cx - dx, cy - dy);
    }
    lemma_between_step(g, sx, sy, dx, dy, cx, cy);
    rest.lemma_filter_prepend(c, p);
    if (!vacant(g, cx, cy) && screened == (man.kind == PieceKind::Cannon)) || !on_board(
        cx + dx,
        cy + dy,
    ) {
        lemma_ray_dead(g, man, sx, sy, dx, dy, cx, cy, (n - 1) as nat, captures_only);
    }
}

/// Appends the squares that a rook or cannon reaches in one direction, nearest first.
fn slide<B: Cells>(
    b: &B,
    man: Man,
    x: i32,
    y: i32,
    dx: i32,
    dy: i32,
    captures_only: bool,
    out: &mut Vec<(i32, i32)>,
)
    requires
        on_board(x as int, y as int),
        straight(dx as int, dy as int),
        man.kind == PieceKind::Rook || man.kind == PieceKind::Cannon,
    ensures
        final(out)@ == old(out)@ + ray(x as int, y as int, dx as int, dy as int, 9).filter(
            goes(b.grid(), man, x as int, y as int, captures_only),
        ),
{
    let ghost g = b.grid();
    let ghost p = goes(g, man, x as int, y as int, captures_only);
    let ghost mut left = ray(x as int, y as int, dx as int, dy as int, 9).filter(p);
    let ghost whole = out@ + left;
    let ghost none = Seq::<(i32, i32)>::empty();
    let cannon = man.kind == PieceKind::Cannon;
    let mut tx: i32 = x + dx;
    let mut ty: i32 = y + dy;
    let mut seen_screen = false;
    let ghost mut n: nat = 9;
    proof {
        lemma_between_step(g, x as int, y as int, dx as int, dy as int, x as int, y as int);
        if !on_board(tx as int, ty as int) {
            lemma_ray_dead(
                g,
                man,
                x as int,
                y as int,
                dx as int,
                dy as int,
                x as int,
                y as int,
                n,
                captures_only,
            );
        }
    }
    while in_board(tx, ty)
        invariant_except_break
            left == ray(tx - dx, ty - dy, dx as int, dy as int, n).filter(p),
            !on_board(tx as int, ty as int) ==> left == none,
            n + dist(x as int, tx as int) + dist(y as int, ty as int) == 10,
        invariant
            straight(dx as int, dy as int),
            man.kind == PieceKind::Rook || man.kind == PieceKind::Cannon,
            cannon == (man.kind == PieceKind::Cannon),
            on_board(x as int, y as int),
            g == b.grid(),
            p == goes(g, man, x as int, y as int, captures_only),
            none == Seq::<(i32, i32)>::empty(),
            on_board(tx - dx, ty - dy),
            on_ray(x as int, y as int, dx as int, dy as int, tx - dx, ty - dy),
            on_ray(x as int, y as int, dx as int, dy as int, tx as int, ty as int),
            men_between(g, x as int, y as int, tx as int, ty as int) == if seen_screen {
                1int
            } else {
                0
            },
            !cannon ==> !seen_screen,
            out@ + left == whole,
        ensures
            left == none,
        decreases n,
    {
        let target = b.man_at(tx, ty);
        let hit = match target {
            None => !seen_screen && !captures_only,
            Some(m) => seen_screen == cannon && m.color != man.color,
        };
        proof {
            lemma_slide_step(
                g,
                man,
                x as int,
                y as int,
                dx as int,
                dy as int,
                tx as int,
                ty as int,
                n,
                seen_screen,
                captures_only,
            );
            n = (n - 1) as nat;
            let rest = ray(tx as int, ty as int, dx as int, dy as int, n).filter(p);
            assert(out@ + (seq![(tx, ty)] + rest) =~= out@.push((tx, ty)) + rest);
            left = rest;
        }
        if hit {
            out.push((tx, ty));
        }
        if target.is_some() {
            if seen_screen == cannon {
                break;
            }
            seen_screen = true;
        }
        tx = tx + dx;
        ty = ty + dy;
    }
    proof {
        assert(out@ + none =~= out@);
    }
}

/// The squares that `man`, standing on `(x, y)`, may go to, in the order of the sweep.
pub(crate) fn pseudo_moves_for_piece<B: Cells>(
    b: &B,
    sweep: Sweep,
    man: Man,
    x: i32,
    y: i32,
    captures_only: bool,
) -> (r: Vec<(i32, i32)>)
    requires
        on_board(x as int, y as int),
    ensures
        r@ == targets(sweep, b.grid(), man, x as int, y as int, captures_only),
{
    match man.kind {
        PieceKind::Rook | PieceKind::Cannon => {
            let d = straight_directions(sweep);
            let mut r: Vec<(i32, i32)> = Vec::new();
            slide(b, man, x, y, d[0].0, d[0].1, captures_only, &mut r);
            slide(b, man, x, y, d[1].0, d[1].1, captures_only, &mut r);
            slide(b, man, x, y, d[2].0, d[2].1, captures_only, &mut r);
            slide(b, man, x, y, d[3].0, d[3].1, captures_only, &mut r);
            proof {
                broadcast use Seq::filter_distributes_over_add;
                assert(r@ =~= targets(sweep, b.grid(), man, x as int, y as int, captures_only));
            }
            r
        },
        _ => step_moves(b, sweep, man, x, y, captures_only),
    }
}

/// The coordinate reached after `k` steps of sign `d`.
pub open spec fn along(c: int, d: int, k: int) -> int {
    if d > 0 {
        c + k
    } else if d < 0 {
        c - k
    } else {
        c
    }
}

pub(crate) proof fn lemma_ray_index(x: int, y: int, dx: int, dy: int, n: nat)
    requires
        straight(dx, dy),
    ensures
        ray(x, y, dx, dy, n).len() == n,
        forall|i: int|
            0 <= i < n ==> #[trigger] ray(x, y, dx, dy, n)[i] == (
                along(x, dx, i + 1) as i32,
                along(y, dy, i + 1) as i32,
            ),
    decreases n,
{
    reveal(ray);
    if n > 0 {
        lemma_ray_index(x + dx, y + dy, dx, dy, (n - 1) as nat);
        let rest = ray(x + dx, y + dy, dx, dy, (n - 1) as nat);
        assert forall|i: int| 0 <= i < n implies #[trigger] ray(x, y, dx, dy, n)[i] == (
            along(x, dx, i + 1) as i32,
            along(y, dy, i + 1) as i32,
        ) by {
            if i > 0 {
                assert(ray(x, y, dx, dy, n)[i] == rest[i - 1]);
            }
        }
    }
}

/// The squares in line with a square of the board are exactly those of `lines` on the board, and
/// none of them is listed twice.
pub(crate) proof fn lemma_lines(x: int, y: int, sweep: Sweep)
    requires
        on_board(x, y),
    ensures
        lines(x, y, sweep).no_duplicates(),
        forall|tx: i32, ty: i32|
            on_board(tx as int, ty as int) && in_line(x, y, tx as int, ty as int)
                ==> #[trigger] lines(x, y, sweep).contains((tx, ty)),
{
    let d = straight_steps(sweep);
    let l = lines(x, y, sweep);
    lemma_ray_index(x, y, d[0].0 as int, d[0].1 as int, 9);
    lemma_ray_index(x, y, d[1].0 as int, d[1].1 as int, 9);
    lemma_ray_index(x, y, d[2].0 as int, d[2].1 as int, 9);
    lemma_ray_index(x, y, d[3].0 as int, d[3].1 as int, 9);
    assert(l.len() == 36);
    assert forall|i: int| 0 <= i < 36 implies #[trigger] l[i] == (if i < 9 {
        (along(x, d[0].0 as int, i + 1) as i32, along(y, d[0].1 as int, i + 1) as i32)
    } else if i < 18 {
        (along(x, d[1].0 as int, i - 8) as i32, along(y, d[1].1 as int, i - 8) as i32)
    } else if i < 27 {
        (along(x, d[2].0 as int, i - 17) as i32, along(y, d[2].1 as int, i - 17) as i32)
    } else {
        (along(x, d[3].0 as int, i - 26) as i32, along(y, d[3].1 as int, i - 26) as i32)
    }) by {}
    assert(l.no_duplicates());
    assert forall|tx: i32, ty: i32|
        on_board(tx as int, ty as int) && in_line(x, y, tx as int, ty as int) implies #[trigger] l.contains(
        (tx, ty),
    ) by {
        let (negative, base) = match sweep {
            Sweep::NegativeFirst => (0int, 9int),
            Sweep::PositiveFirst => (9int, 0int),
        };
        let i: int = if ty == y {
            if tx < x {
                negative + x - tx - 1
            } else {
                base + tx - x - 1
            }
        } else if ty < y {
            18 + negative + y - ty - 1
        } else {
            18 + base + ty - y - 1
        };
        assert(l[i] == (tx, ty));
    }
}

pub(crate) proof fn lemma_filter_no_duplicates<A>(s: Seq<A>, p: spec_fn(A) -> bool)
    requires
        s.no_duplicates(),
    ensures
        s.filter(p).no_duplicates(),
    decreases s.len(),
{
    reveal(Seq::filter);
    if s.len() > 0 {
        let front = s.drop_last();
        lemma_filter_no_duplicates(front, p);
        if p(s.last()) {
            assert forall|i: int| 0 <= i < front.filter(p).len() implies front.filter(p)[i]
                != s.last() by {
                front.lemma_filter_contains_rev(p, front.filter(p)[i]);
            }
        }
    }
}

/// The listed targets are exactly the squares that the man may go to, each listed once.
pub proof fn lemma_targets_exact(
    sweep: Sweep,
    g: Grid,
    man: Man,
    x: int,
    y: int,
    captures_only: bool,
)
    requires
        on_board(x, y),
    ensures
        targets(sweep, g, man, x, y, captures_only).no_duplicates(),
        forall|t: (i32, i32)| #[trigger]
            targets(sweep, g, man, x, y, captures_only).contains(t) <==> moves_to(
                g,
                man,
                x,
                y,
                t.0 as int,
                t.1 as int,
            ) && (captures_only ==> !vacant(g, t.0 as int, t.1 as int)),
{
    let c = candidates(sweep, man, x, y);
    let p = goes(g, man, x, y, captures_only);
    let steps = match man.kind {
        PieceKind::King => straight_steps(sweep),
        PieceKind::Advisor => diagonal_steps(),
        PieceKind::Elephant => elephant_steps(sweep),
        PieceKind::Horse => horse_steps(),
        PieceKind::Pawn => pawn_steps(man.color, y),
        _ => Seq::empty(),
    };
    if man.kind == PieceKind::Rook || man.kind == PieceKind::Cannon {
        lemma_lines(x, y, sweep);
    } else {
        assert(c =~= around(x, y, steps));
        assert(forall|i: int| 0 <= i < steps.len() ==> -2 <= (#[trigger] steps[i]).0 <= 2 && -2 <= steps[i].1 <= 2);
        assert(steps.no_duplicates());
        assert(c.no_duplicates());
    }
    lemma_filter_no_duplicates(c, p);
    assert forall|t: (i32, i32)| p(t) implies #[trigger] c.contains(t) by {
        if man.kind != PieceKind::Rook && man.kind != PieceKind::Cannon {
            let d = ((t.0 - x) as i32, (t.1 - y) as i32);
            assert(c.len() == steps.len());
            let n = steps.len();
            assert(exists|i: int| 0 <= i < n && steps[i] == d) by {
                assert(n > 0 && steps[0] == d || n > 1 && steps[1] == d || n > 2 && steps[2] == d || n
                    > 3 && steps[3] == d || n > 4 && steps[4] == d || n > 5 && steps[5] == d || n > 6
                    && steps[6] == d || n > 7 && steps[7] == d);
            }
            let i = choose|i: int| 0 <= i < n && steps[i] == d;
            assert(c[i] == t);
        }
    }
    assert forall|t: (i32, i32)| #[trigger]
        targets(sweep, g, man, x, y, captures_only).contains(t) <==> p(t) by {
        if targets(sweep, g, man, x, y, captures_only).contains(t) {
            c.lemma_filter_contains_rev(p, t);
            broadcast use vstd::seq_lib::group_filter_ensures;
            let i = choose|i: int| 0 <= i < c.filter(p).len() && c.filter(p)[i] == t;
            assert(p(c.filter(p)[i]));
        }
        if p(t) {
            assert(c.contains(t));
            let i = choose|i: int| 0 <= i < c.len() && c[i] == t;
            c.lemma_filter_contains(p, i);
        }
    }
}

/// The first and the second man met when walking from a square in a straight direction.
pub(crate) fn ray_hits<B: Cells>(b: &B, x: i32, y: i32, dx: i32, dy: i32) -> (r: (
    Option<(i32, i32)>,
    Option<(i32, i32)>,
))
    requires
        on_board(x as int, y as int),
        straight(dx as int, dy as int),
    ensures
        r.0 matches Some(a) ==> met(b.grid(), x as int, y as int, dx as int, dy as int, a.0 as int, a.1 as int, 0),
        r.1 matches Some(a) ==> met(b.grid(), x as int, y as int, dx as int, dy as int, a.0 as int, a.1 as int, 1),
        forall|ax: int, ay: int| #[trigger]
            met(b.grid(), x as int, y as int, dx as int, dy as int, ax, ay, 0) ==> r.0 == Some(
                (ax as i32, ay as i32),
            ),
        forall|ax: int, ay: int| #[trigger]
            met(b.grid(), x as int, y as int, dx as int, dy as int, ax, ay, 1) ==> r.1 == Some(
                (ax as i32, ay as i32),
            ),
{
    let ghost g = b.grid();
    let ghost (sx, sy) = (x as int, y as int);
    let ghost (ex, ey) = (dx as int, dy as int);
    let mut first: Option<(i32, i32)> = None;
    let mut tx: i32 = x + dx;
    let mut ty: i32 = y + dy;
    proof {
        lemma_between_step(g, sx, sy, ex, ey, sx, sy);
    }
    while in_board(tx, ty)
        invariant
            straight(ex, ey),
            sx == x,
            sy == y,
            ex == dx,
            ey == dy,
            on_board(sx, sy),
            g == b.grid(),
            on_board(tx - dx, ty - dy),
            on_ray(sx, sy, ex, ey, tx - dx, ty - dy),
            on_ray(sx, sy, ex, ey, tx as int, ty as int),
            in_line(sx, sy, tx as int, ty as int),
            men_between(g, sx, sy, tx as int, ty as int) == if first.is_some() {
                1int
            } else {
                0
            },
            first matches Some(a) ==> met(g, sx, sy, ex, ey, a.0 as int, a.1 as int, 0) && on_ray(
                a.0 as int,
                a.1 as int,
                ex,
                ey,
                tx as int,
                ty as int,
            ),
        decreases 10 - dist(sx, tx as int) - dist(sy, ty as int),
    {
        proof {
            lemma_between_step(g, sx, sy, ex, ey, tx as int, ty as int);
        }
        if b.man_at(tx, ty).is_some() {
            if first.is_some() {
                proof {
                    assert forall|ax: int, ay: int, k: int| #[trigger]
                        met(g, sx, sy, ex, ey, ax, ay, k) && k == 1 implies (ax, ay) == (
                        tx as int,
                        ty as int,
                    ) by {
                        lemma_met_unique(g, sx, sy, ex, ey, ax, ay, tx as int, ty as int, k);
                    }
                    assert forall|ax: int, ay: int, k: int| #[trigger]
                        met(g, sx, sy, ex, ey, ax, ay, k) && k == 0 implies first == Some(
                        (ax as i32, ay as i32),
                    ) by {
                        let f = first.unwrap();
                        lemma_met_unique(g, sx, sy, ex, ey, ax, ay, f.0 as int, f.1 as int, k);
                    }
                }
                return (first, Some((tx, ty)));
            }
            first = Some((tx, ty));
        }
        tx = tx + dx;
        ty = ty + dy;
    }
    proof {
        assert forall|ax: int, ay: int, k: int| #[trigger] met(g, sx, sy, ex, ey, ax, ay, k) && (k
            == 0 || k == 1) implies k == 0 && first == Some((ax as i32, ay as i32)) by {
            lemma_between_mono(g, sx, sy, ex, ey, ax, ay, tx as int, ty as int);
            if first.is_some() {
                let f = first.unwrap();
                lemma_met_unique(g, sx, sy, ex, ey, ax, ay, f.0 as int, f.1 as int, 0);
            }
        }
    }
    (first, None)
}

/// A man stands on `(ax, ay)`, which lies in the given direction with `k` men in between.
pub open spec fn met(
    g: Grid,
    x: int,
    y: int,
    dx: int,
    dy: int,
    ax: int,
    ay: int,
    k: int,
) -> bool {
    &&& on_board(ax, ay)
    &&& (ax, ay) != (x, y)
    &&& on_ray(x, y, dx, dy, ax, ay)
    &&& !vacant(g, ax, ay)
    &&& men_between(g, x, y, ax, ay) == k
}

/// Going further along a ray passes at least the men passed before, and the man started from.
proof fn lemma_between_mono(
    g: Grid,
    sx: int,
    sy: int,
    dx: int,
    dy: int,
    ax: int,
    ay: int,
    cx: int,
    cy: int,
)
    requires
        straight(dx, dy),
        (ax, ay) != (sx, sy),
        (cx, cy) != (ax, ay),
        on_ray(sx, sy, dx, dy, ax, ay),
        on_ray(ax, ay, dx, dy, cx, cy),
    ensures
        men_between(g, sx, sy, cx, cy) >= men_between(g, sx, sy, ax, ay) + if vacant(g, ax, ay) {
            0int
        } else {
            1
        },
    decreases dist(ax, cx) + dist(ay, cy),
{
    let (px, py) = (cx - dx, cy - dy);
    lemma_between_step(g, sx, sy, dx, dy, px, py);
    if (px, py) != (ax, ay) {
        lemma_between_mono(g, sx, sy, dx, dy, ax, ay, px, py);
    }
}

/// At most one man stands in a direction with a given number of men in between.
pub(crate) proof fn lemma_met_unique(
    g: Grid,
    x: int,
    y: int,
    dx: int,
    dy: int,
    ax: int,
    ay: int,
    bx: int,
    by: int,
    k: int,
)
    requires
        straight(dx, dy),
        met(g, x, y, dx, dy, ax, ay, k),
        met(g, x, y, dx, dy, bx, by, k),
    ensures
        (ax, ay) == (bx, by),
{
    if (ax, ay) != (bx, by) {
        if on_ray(ax, ay, dx, dy, bx, by) {
            lemma_between_mono(g, x, y, dx, dy, ax, ay, bx, by);
        } else {
            lemma_between_mono(g, x, y, dx, dy, bx, by, ax, ay);
        }
    }
}

/// A man on the file between two ranks is counted.
pub(crate) proof fn lemma_col_counts(g: Grid, x: int, a: int, b: int, y: int)
    requires
        a <= y < b,
        !vacant(g, x, y),
    ensures
        col_men(g, x, a, b) >= 1,
    decreases b - a,
{
    lemma_col_men_bounds(g, x, a, b - 1);
    if y < b - 1 {
        lemma_col_counts(g, x, a, b - 1, y);
    }
}

} // verus!

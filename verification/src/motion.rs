//! How each kind of man moves, square by square.

use vstd::prelude::*;

use crate::grid::{col_men, faces, men_between, moves_to, palace, row_men, Grid, Man};
use crate::types::{Color, PieceKind};

verus! {

/// The square lies strictly between two others of one rank or file.
pub open spec fn lies_between(ax: int, ay: int, bx: int, by: int, x: int, y: int) -> bool {
    ||| ax == bx && x == ax && (ay < y < by || by < y < ay)
    ||| ay == by && y == ay && (ax < x < bx || bx < x < ax)
}

/// The square lies between the two others, and a man stands on it.
pub open spec fn blocks(g: Grid, ax: int, ay: int, bx: int, by: int, x: int, y: int) -> bool {
    lies_between(ax, ay, bx, by, x, y) && g.contains_key((x, y))
}

/// Nothing stands between two squares of one rank or file.
pub open spec fn clear_way(g: Grid, ax: int, ay: int, bx: int, by: int) -> bool {
    forall|x: int, y: int| !(#[trigger] blocks(g, ax, ay, bx, by, x, y))
}

/// Exactly one man stands between two squares of one rank or file.
pub open spec fn one_screen(g: Grid, ax: int, ay: int, bx: int, by: int) -> bool {
    exists|x: int, y: int|
        #[trigger] blocks(g, ax, ay, bx, by, x, y) && forall|u: int, v: int| #[trigger]
            blocks(g, ax, ay, bx, by, u, v) ==> u == x && v == y
}

/// The squares differ and share a rank or a file.
pub open spec fn aligned(ax: int, ay: int, bx: int, by: int) -> bool {
    (ax == bx && ay != by) || (ay == by && ax != bx)
}

/// A man stands on the `k`-th square of a line from `(ax, ay)` in the given direction.
spec fn manned(g: Grid, ax: int, ay: int, rank: bool, k: int) -> bool {
    if rank {
        g.contains_key((k, ay))
    } else {
        g.contains_key((ax, k))
    }
}

spec fn manned_in(g: Grid, ax: int, ay: int, rank: bool, a: int, b: int, k: int) -> bool {
    a <= k < b && manned(g, ax, ay, rank, k)
}

spec fn sole(g: Grid, ax: int, ay: int, rank: bool, a: int, b: int, k: int) -> bool {
    &&& manned_in(g, ax, ay, rank, a, b, k)
    &&& forall|j: int| #[trigger] manned_in(g, ax, ay, rank, a, b, j) ==> j == k
}

spec fn line_men(g: Grid, ax: int, ay: int, rank: bool, a: int, b: int) -> int {
    if rank {
        row_men(g, ay, a, b)
    } else {
        col_men(g, ax, a, b)
    }
}

proof fn lemma_line_men(g: Grid, ax: int, ay: int, rank: bool, a: int, b: int)
    ensures
        line_men(g, ax, ay, rank, a, b) >= 0,
        line_men(g, ax, ay, rank, a, b) == 0 <==> forall|k: int|
            !(#[trigger] manned_in(g, ax, ay, rank, a, b, k)),
        line_men(g, ax, ay, rank, a, b) == 1 <==> exists|k: int| #[trigger]
            sole(g, ax, ay, rank, a, b, k),
    decreases b - a,
{
    if a < b {
        let c = b - 1;
        lemma_line_men(g, ax, ay, rank, a, c);
        let before = line_men(g, ax, ay, rank, a, c);
        let last = manned(g, ax, ay, rank, c);
        assert(line_men(g, ax, ay, rank, a, b) == before + if last {
            1int
        } else {
            0
        });
        assert forall|k: int| #[trigger] manned_in(g, ax, ay, rank, a, b, k) <==> manned_in(
            g,
            ax,
            ay,
            rank,
            a,
            c,
            k,
        ) || (k == c && last) by {}
        if before == 0 && !last {
            assert forall|k: int| !(#[trigger] manned_in(g, ax, ay, rank, a, b, k)) by {
                assert(!manned_in(g, ax, ay, rank, a, c, k));
            }
            assert forall|k: int| !(#[trigger] sole(g, ax, ay, rank, a, b, k)) by {
                assert(!manned_in(g, ax, ay, rank, a, b, k));
            }
        } else if before == 0 {
            assert(manned_in(g, ax, ay, rank, a, b, c));
            assert(sole(g, ax, ay, rank, a, b, c)) by {
                assert forall|j: int| #[trigger] manned_in(g, ax, ay, rank, a, b, j) implies j == c by {
                    assert(!manned_in(g, ax, ay, rank, a, c, j));
                }
            }
        } else {
            let k = choose|k: int| #[trigger] manned_in(g, ax, ay, rank, a, c, k);
            assert(manned_in(g, ax, ay, rank, a, b, k));
            if last {
                assert(manned_in(g, ax, ay, rank, a, b, c));
                assert forall|j: int| !(#[trigger] sole(g, ax, ay, rank, a, b, j)) by {
                    assert(k != c);
                }
            } else {
                assert forall|j: int| #[trigger] sole(g, ax, ay, rank, a, b, j) <==> sole(
                    g,
                    ax,
                    ay,
                    rank,
                    a,
                    c,
                    j,
                ) by {
                    if sole(g, ax, ay, rank, a, b, j) {
                        assert forall|i: int| #[trigger] manned_in(g, ax, ay, rank, a, c, i) implies i
                            == j by {
                            assert(manned_in(g, ax, ay, rank, a, b, i));
                        }
                    }
                    if sole(g, ax, ay, rank, a, c, j) {
                        assert forall|i: int| #[trigger] manned_in(g, ax, ay, rank, a, b, i) implies i
                            == j by {
                            assert(manned_in(g, ax, ay, rank, a, c, i));
                        }
                    }
                }
                if before == 1 {
                    let j = choose|j: int| #[trigger] sole(g, ax, ay, rank, a, c, j);
                    assert(sole(g, ax, ay, rank, a, b, j));
                }
            }
        }
    } else {
        assert forall|k: int| !(#[trigger] sole(g, ax, ay, rank, a, b, k)) by {
            assert(!manned_in(g, ax, ay, rank, a, b, k));
        }
    }
}

/// Counting the men between two squares of one rank or file finds none exactly when the way is
/// clear, and one exactly when there is a single screen.
pub proof fn law_men_between(g: Grid, ax: int, ay: int, bx: int, by: int)
    requires
        aligned(ax, ay, bx, by),
    ensures
        men_between(g, ax, ay, bx, by) == 0 <==> clear_way(g, ax, ay, bx, by),
        men_between(g, ax, ay, bx, by) == 1 <==> one_screen(g, ax, ay, bx, by),
{
    let rank = ay == by;
    let (a, b) = if rank {
        if ax <= bx {
            (ax + 1, bx)
        } else {
            (bx + 1, ax)
        }
    } else if ay <= by {
        (ay + 1, by)
    } else {
        (by + 1, ay)
    };
    lemma_line_men(g, ax, ay, rank, a, b);
    let n = men_between(g, ax, ay, bx, by);
    assert(n == line_men(g, ax, ay, rank, a, b));
    assert forall|x: int, y: int| #[trigger] blocks(g, ax, ay, bx, by, x, y) <==> if rank {
        y == ay && manned_in(g, ax, ay, rank, a, b, x)
    } else {
        x == ax && manned_in(g, ax, ay, rank, a, b, y)
    } by {}
    assert forall|k: int| #[trigger] manned_in(g, ax, ay, rank, a, b, k) <==> if rank {
        blocks(g, ax, ay, bx, by, k, ay)
    } else {
        blocks(g, ax, ay, bx, by, ax, k)
    } by {}
    if n == 1 {
        let k = choose|k: int| #[trigger] sole(g, ax, ay, rank, a, b, k);
        assert(manned_in(g, ax, ay, rank, a, b, k));
        if rank {
            assert(blocks(g, ax, ay, bx, by, k, ay));
        } else {
            assert(blocks(g, ax, ay, bx, by, ax, k));
        }
    }
    if one_screen(g, ax, ay, bx, by) {
        let (x, y) = choose|x: int, y: int|
            #[trigger] blocks(g, ax, ay, bx, by, x, y) && forall|u: int, v: int| #[trigger]
                blocks(g, ax, ay, bx, by, u, v) ==> u == x && v == y;
        let k = if rank {
            x
        } else {
            y
        };
        assert(sole(g, ax, ay, rank, a, b, k)) by {
            assert forall|j: int| #[trigger] manned_in(g, ax, ay, rank, a, b, j) implies j == k by {
                if rank {
                    assert(blocks(g, ax, ay, bx, by, j, ay));
                } else {
                    assert(blocks(g, ax, ay, bx, by, ax, j));
                }
            }
        }
    }
    if clear_way(g, ax, ay, bx, by) {
        assert forall|k: int| !(#[trigger] manned_in(g, ax, ay, rank, a, b, k)) by {
            assert(!blocks(g, ax, ay, bx, by, k, ay));
            assert(!blocks(g, ax, ay, bx, by, ax, k));
        }
    }
}

/// The man may end its move there: on the board of nine files and ten ranks, and not on a man of its
/// own side.
pub open spec fn may_land(g: Grid, color: Color, tx: int, ty: int) -> bool {
    &&& 0 <= tx <= 8
    &&& 0 <= ty <= 9
    &&& g.contains_key((tx, ty)) ==> g[(tx, ty)].color != color
}

/// The square is next to the other along a rank or file.
pub open spec fn beside(ax: int, ay: int, bx: int, by: int) -> bool {
    (ax == bx && (by == ay + 1 || by == ay - 1)) || (ay == by && (bx == ax + 1 || bx == ax - 1))
}

/// The square is next to the other along a diagonal.
pub open spec fn diagonal(ax: int, ay: int, bx: int, by: int) -> bool {
    (bx == ax + 1 || bx == ax - 1) && (by == ay + 1 || by == ay - 1)
}

/// A rook goes along a rank or file as far as the way is clear.
pub proof fn law_rook_moves(g: Grid, color: Color, sx: int, sy: int, tx: int, ty: int)
    ensures
        moves_to(g, Man { color, kind: PieceKind::Rook }, sx, sy, tx, ty) <==> may_land(
            g,
            color,
            tx,
            ty,
        ) && aligned(sx, sy, tx, ty) && clear_way(g, sx, sy, tx, ty),
{
    if aligned(sx, sy, tx, ty) {
        law_men_between(g, sx, sy, tx, ty);
    }
}

/// A cannon goes where a rook would go to an empty square, and captures over exactly one screen.
pub proof fn law_cannon_moves(g: Grid, color: Color, sx: int, sy: int, tx: int, ty: int)
    ensures
        moves_to(g, Man { color, kind: PieceKind::Cannon }, sx, sy, tx, ty) <==> may_land(
            g,
            color,
            tx,
            ty,
        ) && aligned(sx, sy, tx, ty) && if g.contains_key((tx, ty)) {
            one_screen(g, sx, sy, tx, ty)
        } else {
            clear_way(g, sx, sy, tx, ty)
        },
{
    if aligned(sx, sy, tx, ty) {
        law_men_between(g, sx, sy, tx, ty);
    }
}

/// From one square over an empty one beside it to a third, one step further along a diagonal.
pub open spec fn horse_over(g: Grid, sx: int, sy: int, lx: int, ly: int, tx: int, ty: int) -> bool {
    &&& beside(sx, sy, lx, ly)
    &&& !g.contains_key((lx, ly))
    &&& diagonal(lx, ly, tx, ty)
    &&& !beside(sx, sy, tx, ty)
}

/// A horse goes one step along a rank or file, to a square that must be empty, and from there one
/// step along a diagonal, further away.
pub proof fn law_horse_moves(g: Grid, color: Color, sx: int, sy: int, tx: int, ty: int)
    ensures
        moves_to(g, Man { color, kind: PieceKind::Horse }, sx, sy, tx, ty) <==> may_land(
            g,
            color,
            tx,
            ty,
        ) && exists|lx: int, ly: int| #[trigger] horse_over(g, sx, sy, lx, ly, tx, ty),
{
    if moves_to(g, Man { color, kind: PieceKind::Horse }, sx, sy, tx, ty) {
        if tx == sx + 1 || tx == sx - 1 {
            assert(horse_over(g, sx, sy, sx, (sy + ty) / 2, tx, ty));
        } else {
            assert(horse_over(g, sx, sy, (sx + tx) / 2, sy, tx, ty));
        }
    }
}

/// An elephant goes two steps along a diagonal, over a square that must be empty, and never to the
/// other side of the river.
pub proof fn law_elephant_moves(g: Grid, color: Color, sx: int, sy: int, tx: int, ty: int)
    ensures
        moves_to(g, Man { color, kind: PieceKind::Elephant }, sx, sy, tx, ty) <==> may_land(
            g,
            color,
            tx,
            ty,
        ) && (tx - sx == 2 || sx - tx == 2) && (ty - sy == 2 || sy - ty == 2) && !g.contains_key(
            (sx + (tx - sx) / 2, sy + (ty - sy) / 2),
        ) && match color {
            Color::Red => ty >= 5,
            Color::Black => ty <= 4,
        },
{
}

/// The nine squares of a palace: the middle files, at the bottom for Red and at the top for Black.
pub open spec fn palace_square(color: Color, x: int, y: int) -> bool {
    (x == 3 || x == 4 || x == 5) && match color {
        Color::Red => y == 9 || y == 8 || y == 7,
        Color::Black => y == 0 || y == 1 || y == 2,
    }
}

/// A king goes one step along a rank or file, an advisor one step along a diagonal, both within
/// their palace.
pub proof fn law_palace_moves(g: Grid, color: Color, sx: int, sy: int, tx: int, ty: int)
    ensures
        palace(color, tx, ty) == palace_square(color, tx, ty),
        moves_to(g, Man { color, kind: PieceKind::King }, sx, sy, tx, ty) <==> may_land(
            g,
            color,
            tx,
            ty,
        ) && beside(sx, sy, tx, ty) && palace_square(color, tx, ty),
        moves_to(g, Man { color, kind: PieceKind::Advisor }, sx, sy, tx, ty) <==> may_land(
            g,
            color,
            tx,
            ty,
        ) && diagonal(sx, sy, tx, ty) && palace_square(color, tx, ty),
{
}

/// A pawn goes one step ahead, Red towards rank 0 and Black towards rank 9; once it stands beyond the
/// river, between ranks 4 and 5, also one step sideways; never back.
pub proof fn law_pawn_moves(g: Grid, color: Color, sx: int, sy: int, tx: int, ty: int)
    ensures
        moves_to(g, Man { color, kind: PieceKind::Pawn }, sx, sy, tx, ty) <==> may_land(
            g,
            color,
            tx,
            ty,
        ) && match color {
            Color::Red => (tx == sx && ty == sy - 1) || (sy <= 4 && ty == sy && (tx == sx + 1 || tx
                == sx - 1)),
            Color::Black => (tx == sx && ty == sy + 1) || (sy >= 5 && ty == sy && (tx == sx + 1 || tx
                == sx - 1)),
        },
{
}

/// The kings face each other when the one stands in line with the other and the way is clear.
pub proof fn law_kings_face(g: Grid, enemy: Color, ax: int, ay: int, kx: int, ky: int)
    ensures
        faces(g, enemy, ax, ay, kx, ky) <==> 0 <= ax <= 8 && 0 <= ay <= 9 && g.contains_key((ax, ay))
            && g[(ax, ay)] == (Man { color: enemy, kind: PieceKind::King }) && aligned(kx, ky, ax, ay)
            && clear_way(g, kx, ky, ax, ay),
{
    if aligned(kx, ky, ax, ay) {
        law_men_between(g, kx, ky, ax, ay);
    }
}

} // verus!

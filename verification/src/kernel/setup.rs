//! The mathematical model of a position: what stands where, who moves, and which moves are legal.

use vstd::prelude::*;

use crate::grid::{
    dist, forward, in_line, lemma_targets_exact, men_between, moves_to, on_board, targets, vacant,
    Grid, Man, Sweep,
};
use crate::fen::{
    board_cell, board_fault, canonical, lemma_canonical_row, lemma_no_board_fault, lemma_no_fault, lemma_rank_texts_read_back,
    lemma_same_numbers, rank_texts, row_cell, row_char, row_fault, row_width, squares_of,
    Letters, RowFault,
};
use crate::kernel::types::{
    Color, GameStatus, GameStatusReason, Move, Piece, PieceKind,
};
use crate::text::{
    is_char, joined, lemma_joined_chars, lemma_split_joined, lemma_two_words, parsed, split_by,
    white_space, words,
};

verus! {

#[derive(Debug, Clone, Copy, PartialEq, Eq, Structural)]
pub enum MoveValidationReason {
    OutsideBoard,
    NoPiece,
    WrongSide,
    CaptureOwnPiece,
    InvalidPieceMove,
    KingsFace,
    LeavesKingInCheck,
}

impl MoveValidationReason {
    pub open spec fn name(self) -> Seq<char> {
        match self {
            MoveValidationReason::OutsideBoard => "outside_board"@,
            MoveValidationReason::NoPiece => "no_piece"@,
            MoveValidationReason::WrongSide => "wrong_side"@,
            MoveValidationReason::CaptureOwnPiece => "capture_own_piece"@,
            MoveValidationReason::InvalidPieceMove => "invalid_piece_move"@,
            MoveValidationReason::KingsFace => "kings_face"@,
            MoveValidationReason::LeavesKingInCheck => "leaves_king_in_check"@,
        }
    }

    pub fn as_str(self) -> (r: &'static str)
        ensures
            r@ == self.name(),
    {
        match self {
            MoveValidationReason::OutsideBoard => "outside_board",
            MoveValidationReason::NoPiece => "no_piece",
            MoveValidationReason::WrongSide => "wrong_side",
            MoveValidationReason::CaptureOwnPiece => "capture_own_piece",
            MoveValidationReason::InvalidPieceMove => "invalid_piece_move",
            MoveValidationReason::KingsFace => "kings_face",
            MoveValidationReason::LeavesKingInCheck => "leaves_king_in_check",
        }
    }
}

/// A man of `enemy` on `(ax, ay)` gives check to a king on `(kx, ky)`. A king gives check along an
/// open line; advisors and elephants never do.
pub open spec fn gives_check(g: Grid, enemy: Color, ax: int, ay: int, kx: int, ky: int) -> bool {
    &&& on_board(ax, ay)
    &&& !vacant(g, ax, ay)
    &&& g[(ax, ay)].color == enemy
    &&& match g[(ax, ay)].kind {
        PieceKind::King | PieceKind::Rook => in_line(kx, ky, ax, ay) && men_between(
            g,
            kx,
            ky,
            ax,
            ay,
        ) == 0,
        PieceKind::Cannon => in_line(kx, ky, ax, ay) && men_between(g, kx, ky, ax, ay) == 1,
        PieceKind::Horse => {
            ||| dist(ax, kx) == 1 && dist(ay, ky) == 2 && vacant(g, ax, (ay + ky) / 2)
            ||| dist(ax, kx) == 2 && dist(ay, ky) == 1 && vacant(g, (ax + kx) / 2, ay)
        },
        PieceKind::Pawn => {
            ||| ax == kx && ky == ay + forward(enemy)
            ||| ay == ky && dist(ax, kx) == 1
        },
        PieceKind::Advisor | PieceKind::Elephant => false,
    }
}

/// The king of `color` on `(kx, ky)` is in check.
pub open spec fn checked(g: Grid, color: Color, kx: int, ky: int) -> bool {
    exists|ax: int, ay: int| #[trigger] gives_check(g, color.opposite(), ax, ay, kx, ky)
}

/// A position: the pieces by square, the side to move, the squares of the pieces by identity, the
/// squares of the kings, the number of plies since the last capture and the number of the move.
#[verifier::ext_equal]
pub struct Setup {
    pub cells: Map<(int, int), Piece>,
    pub side: Color,
    pub places: Map<u32, (i32, i32)>,
    pub red_king: Option<(i32, i32)>,
    pub black_king: Option<(i32, i32)>,
    pub quiet: u32,
    pub fullmove: u32,
}

impl Setup {
    pub open spec fn grid(self) -> Grid {
        self.cells.map_values(|p: Piece| p.man())
    }

    pub open spec fn king(self, color: Color) -> Option<(i32, i32)> {
        match color {
            Color::Red => self.red_king,
            Color::Black => self.black_king,
        }
    }

    /// Pieces stand on the board, `places` lists each of them by its identity and nothing else,
    /// and the squares of the kings are on the board.
    pub open spec fn wf(self) -> bool {
        &&& forall|x: int, y: int| #[trigger] self.cells.contains_key((x, y)) ==> on_board(x, y)
        &&& forall|x: int, y: int| #[trigger]
            self.cells.contains_key((x, y)) ==> self.places.contains_key(
                self.cells[(x, y)].piece_id,
            ) && self.places[self.cells[(x, y)].piece_id] == (x as i32, y as i32)
        &&& forall|id: u32| #[trigger]
            self.places.contains_key(id) ==> {
                let s = self.places[id];
                self.cells.contains_key((s.0 as int, s.1 as int)) && self.cells[(
                    s.0 as int,
                    s.1 as int,
                )].piece_id == id
            }
        &&& forall|c: Color| (#[trigger] self.king(c)) matches Some(k) ==> on_board(
            k.0 as int,
            k.1 as int,
        )
        &&& forall|x: int, y: int| #[trigger]
            self.cells.contains_key((x, y)) && self.cells[(x, y)].kind == PieceKind::King
                ==> self.king(self.cells[(x, y)].color) is Some
    }

    /// The piece that `mv` would move.
    pub open spec fn mover(self, mv: Move) -> Piece {
        self.cells[(mv.sx as int, mv.sy as int)]
    }

    pub open spec fn captures(self, mv: Move) -> bool {
        self.cells.contains_key((mv.tx as int, mv.ty as int))
    }

    /// The square of the king of `color` after `piece` has gone to the target of `mv`.
    pub open spec fn king_after(self, mv: Move, piece: Piece, color: Color) -> Option<(i32, i32)> {
        if piece.kind == PieceKind::King && piece.color == color {
            Some((mv.tx, mv.ty))
        } else {
            self.king(color)
        }
    }

    /// The position after the piece on the source of `mv` has gone to its target.
    pub open spec fn after(self, mv: Move) -> Setup {
        let piece = self.mover(mv);
        let s = (mv.sx as int, mv.sy as int);
        let t = (mv.tx as int, mv.ty as int);
        let placed = self.places.insert(piece.piece_id, (mv.tx, mv.ty));
        Setup {
            cells: self.cells.remove(s).insert(t, piece),
            side: self.side.opposite(),
            places: if self.captures(mv) {
                placed.remove(self.cells[t].piece_id)
            } else {
                placed
            },
            red_king: self.king_after(mv, piece, Color::Red),
            black_king: self.king_after(mv, piece, Color::Black),
            quiet: if self.captures(mv) {
                0
            } else {
                (self.quiet + 1) as u32
            },
            fullmove: if self.side == Color::Black {
                (self.fullmove + 1) as u32
            } else {
                self.fullmove
            },
        }
    }

    /// The counters can still be raised as playing `mv` raises them.
    pub open spec fn counts_fit(self, mv: Move) -> bool {
        &&& !self.captures(mv) ==> self.quiet < u32::MAX
        &&& self.side == Color::Black ==> self.fullmove < u32::MAX
    }

    /// `mv` follows the way of moving of a piece of `color` (of either side, if `None`) and does
    /// not capture a piece of its own side.
    pub open spec fn pseudo_legal(self, mv: Move, color: Option<Color>) -> bool {
        &&& mv.on_board()
        &&& self.cells.contains_key((mv.sx as int, mv.sy as int))
        &&& color is Some ==> self.mover(mv).color == color.unwrap()
        &&& moves_to(
            self.grid(),
            self.mover(mv).man(),
            mv.sx as int,
            mv.sy as int,
            mv.tx as int,
            mv.ty as int,
        )
    }

    /// Playing `mv` leaves the king of the side that moves in check.
    pub open spec fn exposes_king(self, mv: Move) -> bool {
        self.after(mv).in_check(self.mover(mv).color)
    }

    pub open spec fn in_check(self, color: Color) -> bool {
        let k = self.king(color).unwrap();
        checked(self.grid(), color, k.0 as int, k.1 as int)
    }

    /// Whether `mv` can be judged: its side has a king, and the counters do not overflow.
    pub open spec fn judgeable(self, mv: Move, color: Option<Color>) -> bool {
        self.pseudo_legal(mv, color) ==> self.king(self.mover(mv).color) is Some
            && self.counts_fit(mv)
    }

    /// Every move of the side to move can be judged.
    pub open spec fn all_judgeable(self) -> bool {
        forall|mv: Move| #[trigger] self.judgeable(mv, Some(self.side))
    }

    /// Why `mv` is refused, for the piece of `color` or of either side; `None` if it is legal.
    pub open spec fn refusal(self, mv: Move, color: Option<Color>) -> Option<MoveValidationReason> {
        if !mv.on_board() {
            Some(MoveValidationReason::OutsideBoard)
        } else if !self.cells.contains_key((mv.sx as int, mv.sy as int)) {
            Some(MoveValidationReason::NoPiece)
        } else if color is Some && self.mover(mv).color != color.unwrap() {
            Some(MoveValidationReason::WrongSide)
        } else if self.captures(mv) && self.cells[(mv.tx as int, mv.ty as int)].color == self.mover(
            mv,
        ).color {
            Some(MoveValidationReason::CaptureOwnPiece)
        } else if !self.pseudo_legal(mv, color) {
            Some(MoveValidationReason::InvalidPieceMove)
        } else if self.exposes_king(mv) {
            Some(MoveValidationReason::LeavesKingInCheck)
        } else {
            None
        }
    }

    /// `mv` is legal for the side to move.
    pub open spec fn legal(self, mv: Move) -> bool {
        self.refusal(mv, Some(self.side)) is None
    }

    /// The legal moves of the piece on square number `k`, if it belongs to the side to move.
    pub open spec fn legal_from(self, k: int) -> Seq<Move> {
        let (x, y) = (k % 9, k / 9);
        if self.cells.contains_key((x, y)) && self.cells[(x, y)].color == self.side {
            moves_from(
                x,
                y,
                targets(
                    Sweep::PositiveFirst,
                    self.grid(),
                    self.cells[(x, y)].man(),
                    x,
                    y,
                    false,
                ),
            ).filter(self.is_legal())
        } else {
            Seq::empty()
        }
    }

    pub open spec fn is_legal(self) -> spec_fn(Move) -> bool {
        |mv: Move| self.legal(mv)
    }

    /// The legal moves from the squares numbered below `n`.
    pub open spec fn legal_below(self, n: nat) -> Seq<Move>
        decreases n,
    {
        if n == 0 {
            Seq::empty()
        } else {
            self.legal_below((n - 1) as nat) + self.legal_from(n - 1)
        }
    }

    /// The legal moves of the side to move, square by square from the top left.
    pub open spec fn legal_list(self) -> Seq<Move> {
        self.legal_below(90)
    }

    /// The position as a FEN string of two fields: the board and the side to move.
    pub open spec fn fen(self) -> Seq<char> {
        joined(rank_texts(self.grid()), '/').push(' ') + seq![self.side.side_char()]
    }

    /// The result on the board: without a legal move the side to move has lost.
    pub open spec fn outcome(self) -> GameStatus {
        if self.legal_list().len() > 0 {
            GameStatus::spec_ongoing()
        } else if self.in_check(self.side) {
            GameStatus::spec_terminal(GameStatusReason::Checkmate, Some(self.side.opposite()))
        } else {
            GameStatus::spec_terminal(GameStatusReason::Stalemate, Some(self.side.opposite()))
        }
    }
}

/// The moves from `(x, y)` to each of the given squares.
pub open spec fn moves_from(x: int, y: int, to: Seq<(i32, i32)>) -> Seq<Move> {
    to.map_values(|t: (i32, i32)| Move { sx: x as i32, sy: y as i32, tx: t.0, ty: t.1 })
}

/// No man's way of moving leaves it where it is.
pub proof fn lemma_moves_elsewhere(g: Grid, man: Man, sx: int, sy: int, tx: int, ty: int)
    requires
        moves_to(g, man, sx, sy, tx, ty),
    ensures
        (sx, sy) != (tx, ty),
{
}

/// Playing a move that follows the pieces' ways of moving keeps a position well formed.
pub proof fn law_moves_keep_positions_well_formed(s: Setup, mv: Move, color: Option<Color>)
    requires
        s.wf(),
        s.pseudo_legal(mv, color),
    ensures
        s.after(mv).wf(),
{
    let n = s.after(mv);
    let from = (mv.sx as int, mv.sy as int);
    let to = (mv.tx as int, mv.ty as int);
    let piece = s.mover(mv);
    lemma_moves_elsewhere(s.grid(), piece.man(), from.0, from.1, to.0, to.1);
    assert forall|x: int, y: int| #[trigger] n.cells.contains_key((x, y)) implies on_board(x, y)
        && n.places.contains_key(n.cells[(x, y)].piece_id) && n.places[n.cells[(x, y)].piece_id]
        == (x as i32, y as i32) && (n.cells[(x, y)].kind == PieceKind::King ==> n.king(
        n.cells[(x, y)].color,
    ) is Some) by {
        assert(s.cells.contains_key(from));
        if (x, y) != to {
            assert(s.cells.contains_key((x, y)));
            assert(s.cells[(x, y)].piece_id != piece.piece_id);
            if s.captures(mv) {
                assert(s.cells[(x, y)].piece_id != s.cells[to].piece_id);
            }
        } else if s.captures(mv) {
            assert(s.cells[to].piece_id != piece.piece_id);
        }
    }
    assert forall|id: u32| #[trigger] n.places.contains_key(id) implies n.cells.contains_key(
        (n.places[id].0 as int, n.places[id].1 as int),
    ) && n.cells[(n.places[id].0 as int, n.places[id].1 as int)].piece_id == id by {
        if id != piece.piece_id {
            assert(s.places.contains_key(id));
        } else {
            assert(n.places[id] == (mv.tx, mv.ty));
        }
    }
    assert forall|c: Color| (#[trigger] n.king(c)) is Some implies on_board(
        n.king(c).unwrap().0 as int,
        n.king(c).unwrap().1 as int,
    ) by {
        assert(s.king(c) is Some ==> on_board(
            s.king(c).unwrap().0 as int,
            s.king(c).unwrap().1 as int,
        ));
    }
}

pub(crate) proof fn lemma_legal_from(s: Setup, k: int)
    requires
        0 <= k < 90,
        s.wf(),
    ensures
        s.legal_from(k).no_duplicates(),
        forall|mv: Move| #[trigger]
            s.legal_from(k).contains(mv) <==> s.legal(mv) && mv.sx == k % 9 && mv.sy == k / 9,
{
    let (x, y) = (k % 9, k / 9);
    let p = s.is_legal();
    if s.cells.contains_key((x, y)) && s.cells[(x, y)].color == s.side {
        let man = s.cells[(x, y)].man();
        let to = targets(Sweep::PositiveFirst, s.grid(), man, x, y, false);
        lemma_targets_exact(Sweep::PositiveFirst, s.grid(), man, x, y, false);
        let all = moves_from(x, y, to);
        assert(all.no_duplicates()) by {
            assert forall|i: int, j: int| 0 <= i < all.len() && 0 <= j < all.len() && i != j implies all[i]
                != all[j] by {
                assert(to[i] != to[j]);
            }
        }
        crate::grid::lemma_filter_no_duplicates(all, p);
        assert forall|mv: Move| #[trigger] s.legal_from(k).contains(mv) <==> s.legal(mv) && mv.sx
            == x && mv.sy == y by {
            if s.legal_from(k).contains(mv) {
                all.lemma_filter_contains_rev(p, mv);
                broadcast use vstd::seq_lib::group_filter_ensures;
                let i = choose|i: int| 0 <= i < all.filter(p).len() && all.filter(p)[i] == mv;
                assert(p(all.filter(p)[i]));
                assert(all.contains(mv));
            }
            if s.legal(mv) && mv.sx == x && mv.sy == y {
                assert(to.contains((mv.tx, mv.ty)));
                let i = choose|i: int| 0 <= i < to.len() && to[i] == (mv.tx, mv.ty);
                assert(all[i] == mv);
                all.lemma_filter_contains(p, i);
            }
        }
    }
}

pub(crate) proof fn lemma_legal_below(s: Setup, n: nat)
    requires
        n <= 90,
        s.wf(),
    ensures
        s.legal_below(n).no_duplicates(),
        forall|mv: Move| #[trigger]
            s.legal_below(n).contains(mv) <==> s.legal(mv) && mv.sy * 9 + mv.sx < n,
    decreases n,
{
    if n > 0 {
        let m = (n - 1) as nat;
        lemma_legal_below(s, m);
        lemma_legal_from(s, m as int);
        let a = s.legal_below(m);
        let b = s.legal_from(m as int);
        assert forall|mv: Move| #[trigger] s.legal_below(n).contains(mv) <==> s.legal(mv) && mv.sy
            * 9 + mv.sx < n by {
            vstd::seq_lib::lemma_seq_concat_contains_all_elements(a, b, mv);
        }
        assert forall|i: int, j: int|
            0 <= i < (a + b).len() && 0 <= j < (a + b).len() && i != j implies (a + b)[i] != (a
            + b)[j] by {
            if i < a.len() && j >= a.len() {
                assert(a.contains(a[i]));
                assert(b.contains(b[j - a.len()]));
            } else if j < a.len() && i >= a.len() {
                assert(a.contains(a[j]));
                assert(b.contains(b[i - a.len()]));
            }
        }
    }
}

/// The list of legal moves holds every legal move of the side to move, and nothing else, once.
pub proof fn law_legal_list_exact(s: Setup)
    requires
        s.wf(),
    ensures
        s.legal_list().no_duplicates(),
        forall|mv: Move| #[trigger] s.legal_list().contains(mv) <==> s.legal(mv),
{
    lemma_legal_below(s, 90);
}

/// The square of the last king of `color`, in reading order, among the first `n` squares.
pub open spec fn last_king(cells: Map<(int, int), Piece>, color: Color, n: nat) -> Option<
    (i32, i32),
>
    decreases n,
{
    if n == 0 {
        None
    } else {
        let (x, y) = ((n - 1) % 9, (n - 1) / 9);
        if cells.contains_key((x, y)) && cells[(x, y)].kind == PieceKind::King && cells[(
            x,
            y,
        )].color == color {
            Some((x as i32, y as i32))
        } else {
            last_king(cells, color, (n - 1) as nat)
        }
    }
}

/// The rows of the board field of a FEN string.
pub open spec fn fen_rows(fen: Seq<char>) -> Seq<Seq<char>> {
    split_by(words(fen)[0], is_char('/'))
}

/// The pieces that the board field of a FEN string describes, numbered in reading order.
pub open spec fn fen_cells(rows: Seq<Seq<char>>) -> Map<(int, int), Piece> {
    Map::new(
        |s: (int, int)| on_board(s.0, s.1) && board_cell(Letters::Narrow, rows, s.0, s.1) is Some,
        |s: (int, int)|
            {
                let (id, m) = board_cell(Letters::Narrow, rows, s.0, s.1).unwrap();
                Piece { piece_id: id, color: m.color, kind: m.kind }
            },
    )
}

/// The message with which a FEN string is refused; `None` if it is accepted.
pub open spec fn fen_error(fen: Seq<char>) -> Option<Seq<char>> {
    let w = words(fen);
    if w.len() < 2 {
        Some("Invalid FEN: "@ + fen)
    } else if fen_rows(fen).len() != 10 {
        Some("Invalid FEN board height: "@ + fen)
    } else {
        match board_fault(Letters::Narrow, fen_rows(fen), 0) {
            Some((y, RowFault::Letter(c))) => Some("Invalid piece: "@.push(c)),
            Some((y, _)) => Some("Invalid FEN row width: "@ + fen_rows(fen)[y]),
            None => if Color::from_side(w[1]) is None {
                Some("Invalid side to move: "@ + w[1])
            } else {
                None
            },
        }
    }
}

/// The number in field `i` of a FEN string, or `default` if it is missing or not a number.
pub open spec fn fen_number(fen: Seq<char>, i: int, default: u32) -> u32 {
    let w = words(fen);
    if i < w.len() {
        match parsed(w[i], u32::MAX as int) {
            Some(n) => n as u32,
            None => default,
        }
    } else {
        default
    }
}

/// `s` is the position that an accepted FEN string describes.
pub open spec fn fen_describes(fen: Seq<char>, s: Setup) -> bool {
    &&& fen_error(fen) is None
    &&& s.wf()
    &&& s.cells == fen_cells(fen_rows(fen))
    &&& Color::from_side(words(fen)[1]) == Some(s.side)
    &&& s.red_king == last_king(s.cells, Color::Red, 90)
    &&& s.black_king == last_king(s.cells, Color::Black, 90)
    &&& s.quiet == fen_number(fen, 4, 0)
    &&& s.fullmove == fen_number(fen, 5, 1)
}

/// `last_king` finds a king wherever there is one, on the board.
pub(crate) proof fn lemma_last_king(cells: Map<(int, int), Piece>, color: Color, n: nat)
    requires
        n <= 90,
    ensures
        last_king(cells, color, n) matches Some(k) ==> on_board(k.0 as int, k.1 as int)
            && cells.contains_key((k.0 as int, k.1 as int)) && cells[(k.0 as int, k.1 as int)].kind
            == PieceKind::King && cells[(k.0 as int, k.1 as int)].color == color,
        forall|x: int, y: int| #[trigger]
            cells.contains_key((x, y)) && on_board(x, y) && y * 9 + x < n && cells[(x, y)].kind
                == PieceKind::King && cells[(x, y)].color == color ==> last_king(cells, color, n)
                is Some,
    decreases n,
{
    if n > 0 {
        lemma_last_king(cells, color, (n - 1) as nat);
    }
}

/// A FEN string made of ten rows of row characters and a side names these rows and this side.
pub(crate) proof fn lemma_fen_fields(rows: Seq<Seq<char>>, side: Color)
    requires
        rows.len() == 10,
        rows[0].len() > 0,
        forall|y: int, i: int|
            0 <= y < 10 && 0 <= i < rows[y].len() ==> row_char(#[trigger] rows[y][i]),
    ensures
        ({
            let fen = joined(rows, '/').push(' ') + seq![side.side_char()];
            &&& words(fen) == seq![joined(rows, '/'), seq![side.side_char()]]
            &&& fen_rows(fen) == rows
            &&& Color::from_side(words(fen)[1]) == Some(side)
        }),
{
    let board = joined(rows, '/');
    let p = |c: char| !white_space(c);
    assert forall|y: int, i: int| 0 <= y < 10 && 0 <= i < rows[y].len() implies #[trigger] rows[y][i]
        != '/' && p(rows[y][i]) by {
        assert(row_char(rows[y][i]));
    }
    lemma_split_joined(rows, '/');
    lemma_joined_chars(rows, '/', p);
    lemma_joined_nonempty(rows, '/');
    let last = seq![side.side_char()];
    assert forall|i: int| 0 <= i < board.len() implies !white_space(#[trigger] board[i]) by {
        assert(p(board[i]));
    }
    lemma_two_words(board, last);
    if side == Color::Black {
        assert(seq!['b'][0] != seq!['r'][0]);
    }
}

proof fn lemma_joined_nonempty(rows: Seq<Seq<char>>, c: char)
    requires
        rows.len() > 0,
        rows[0].len() > 0,
    ensures
        joined(rows, c).len() > 0,
    decreases rows.len(),
{
    if rows.len() > 1 {
        lemma_joined_nonempty(rows.drop_last(), c);
    }
}

/// Kings are found on the same squares where the same men stand.
proof fn lemma_last_king_agrees(
    a: Map<(int, int), Piece>,
    b: Map<(int, int), Piece>,
    color: Color,
    n: nat,
)
    requires
        forall|x: int, y: int| #[trigger]
            a.contains_key((x, y)) == b.contains_key((x, y)) && (a.contains_key((x, y)) ==> a[(
            x,
            y,
        )].man() == b[(x, y)].man()),
    ensures
        last_king(a, color, n) == last_king(b, color, n),
    decreases n,
{
    if n > 0 {
        lemma_last_king_agrees(a, b, color, (n - 1) as nat);
        let k = n - 1;
        let (x, y) = (k % 9, k / 9);
        assert(a.contains_key((x, y)) == b.contains_key((x, y)));
        if a.contains_key((x, y)) {
            assert(a[(x, y)].man() == b[(x, y)].man());
        }
    }
}

/// Writing a position as a FEN string and reading it gives back the same men on the same squares,
/// under identities of their own, the same side to move, and the kings on the squares where they
/// stand, with the counters at their defaults.
pub proof fn law_fen_round_trip(s: Setup, t: Setup)
    requires
        s.wf(),
        fen_describes(s.fen(), t),
    ensures
        t.grid() == s.grid(),
        t.side == s.side,
        t.quiet == 0,
        t.fullmove == 1,
        t.fen() == s.fen(),
        forall|x: int, y: int| #[trigger]
            s.cells.contains_key((x, y)) ==> t.cells.contains_key((x, y))
                && t.places[t.cells[(x, y)].piece_id] == s.places[s.cells[(x, y)].piece_id],
        t.red_king == last_king(s.cells, Color::Red, 90),
        t.black_king == last_king(s.cells, Color::Black, 90),
{
    law_fen_accepted(s);
    let rows = rank_texts(s.grid());
    lemma_rank_texts_read_back(s.grid());
    crate::fen::lemma_row_text_nonempty(s.grid(), 0);
    lemma_fen_fields(rows, s.side);
    assert forall|x: int, y: int| #[trigger] t.grid().contains_key((x, y))
        == s.grid().contains_key((x, y)) && (t.grid().contains_key((x, y)) ==> t.grid()[(x, y)]
        == s.grid()[(x, y)]) by {
        assert(t.grid().contains_key((x, y)) == t.cells.contains_key((x, y)));
        assert(s.grid().contains_key((x, y)) == s.cells.contains_key((x, y)));
        if on_board(x, y) {
            assert(match board_cell(Letters::Narrow, rows, x, y) {
                Some((id, m)) => crate::grid::at(s.grid(), x, y) == Some(m),
                None => crate::grid::at(s.grid(), x, y) is None,
            });
            assert(t.cells == fen_cells(rows));
            if t.cells.contains_key((x, y)) {
                assert(t.grid()[(x, y)] == t.cells[(x, y)].man());
                assert(t.cells[(x, y)].man() == s.grid()[(x, y)]);
            }
        } else {
            assert(s.cells.contains_key((x, y)) ==> on_board(x, y));
            assert(t.cells.contains_key((x, y)) ==> on_board(x, y));
        }
    }
    assert(t.grid() =~= s.grid());
    assert forall|x: int, y: int| #[trigger] t.cells.contains_key((x, y)) == s.cells.contains_key(
        (x, y),
    ) && (t.cells.contains_key((x, y)) ==> t.cells[(x, y)].man() == s.cells[(x, y)].man()) by {
        assert(t.grid().contains_key((x, y)) == s.grid().contains_key((x, y)));
        if t.cells.contains_key((x, y)) {
            assert(t.grid()[(x, y)] == s.grid()[(x, y)]);
        }
    }
    lemma_last_king_agrees(t.cells, s.cells, Color::Red, 90);
    lemma_last_king_agrees(t.cells, s.cells, Color::Black, 90);
    assert forall|x: int, y: int| #[trigger] s.cells.contains_key((x, y)) implies t.cells.contains_key(
        (x, y),
    ) && t.places[t.cells[(x, y)].piece_id] == s.places[s.cells[(x, y)].piece_id] by {
        assert(t.cells.contains_key((x, y)));
    }
}

/// Writing a position that was read from a FEN string and reading it again gives back the same
/// pieces with the same identities on the same squares, and the same kings.
pub proof fn law_fen_reads_back(fen: Seq<char>, s: Setup, t: Setup)
    requires
        fen_describes(fen, s),
        fen_describes(s.fen(), t),
    ensures
        t.cells == s.cells,
        t.places == s.places,
        t.side == s.side,
        t.red_king == s.red_king,
        t.black_king == s.black_king,
        t.fen() == s.fen(),
{
    law_fen_round_trip(s, t);
    let a = fen_rows(fen);
    let b = fen_rows(s.fen());
    assert forall|x: int, y: int| 0 <= x < 9 && 0 <= y < 10 implies #[trigger] board_cell(
        Letters::Narrow,
        a,
        x,
        y,
    ) is Some == board_cell(Letters::Narrow, b, x, y) is Some by {
        assert(s.grid().contains_key((x, y)) == t.grid().contains_key((x, y)));
        assert(s.cells.contains_key((x, y)) == s.grid().contains_key((x, y)));
        assert(t.cells.contains_key((x, y)) == t.grid().contains_key((x, y)));
    }
    assert forall|x: int, y: int| #[trigger] t.cells.contains_key((x, y)) == s.cells.contains_key(
        (x, y),
    ) && (t.cells.contains_key((x, y)) ==> t.cells[(x, y)] == s.cells[(x, y)]) by {
        if on_board(x, y) {
            lemma_same_numbers(Letters::Narrow, a, b, y);
            assert(board_cell(Letters::Narrow, a, x, y) is Some == board_cell(
                Letters::Narrow,
                b,
                x,
                y,
            ) is Some);
            if t.cells.contains_key((x, y)) {
                assert(s.grid()[(x, y)] == t.grid()[(x, y)]);
                assert(s.cells[(x, y)].man() == t.cells[(x, y)].man());
            }
        }
    }
    assert(t.cells =~= s.cells);
    assert forall|id: u32| #[trigger] t.places.contains_key(id) == s.places.contains_key(id) && (
    t.places.contains_key(id) ==> t.places[id] == s.places[id]) by {
        if t.places.contains_key(id) {
            let q = (t.places[id].0 as int, t.places[id].1 as int);
            assert(s.cells.contains_key(q));
        }
        if s.places.contains_key(id) {
            let q = (s.places[id].0 as int, s.places[id].1 as int);
            assert(t.cells.contains_key(q));
        }
    }
    assert(t.places =~= s.places);
}

/// A FEN string of rows that are written as they would be, and a side, is the FEN string of the
/// position that it describes.
pub proof fn law_canonical_fen_is_kept(rows: Seq<Seq<char>>, side: Color, s: Setup)
    requires
        rows.len() == 10,
        rows[0].len() > 0,
        forall|y: int| 0 <= y < 10 ==> canonical(#[trigger] rows[y]),
        fen_describes(joined(rows, '/').push(' ') + seq![side.side_char()], s),
    ensures
        s.fen() == joined(rows, '/').push(' ') + seq![side.side_char()],
{
    let fen = joined(rows, '/').push(' ') + seq![side.side_char()];
    assert forall|y: int, i: int| 0 <= y < 10 && 0 <= i < rows[y].len() implies row_char(
        #[trigger] rows[y][i],
    ) by {
        assert(canonical(rows[y]));
    }
    lemma_fen_fields(rows, side);
    assert forall|y: int| 0 <= y < 10 implies #[trigger] rank_texts(s.grid())[y] == rows[y] by {
        crate::fen::lemma_faultless_board(Letters::Narrow, rows, 0, y);
        crate::fen::lemma_faultless_row(Letters::Narrow, rows[y], 0);
        lemma_canonical_row(rows[y]);
        let row = crate::fen::rank(s.grid(), y);
        assert(row =~= squares_of(rows[y])) by {
            assert forall|x: int| 0 <= x < 9 implies row[x] == squares_of(rows[y])[x] by {
                assert(s.cells.contains_key((x, y)) <==> board_cell(Letters::Narrow, rows, x, y)
                    is Some);
                assert(s.grid().contains_key((x, y)) == s.cells.contains_key((x, y)));
            }
        }
    }
    assert(rank_texts(s.grid()) =~= rows);
}

/// The starting position is written as the text it is read from.
pub proof fn law_starting_fen(s: Setup)
    requires
        fen_describes("rheakaehr/9/1c5c1/p1p1p1p1p/9/9/P1P1P1P1P/1C5C1/9/RHEAKAEHR r"@, s),
    ensures
        s.fen() == "rheakaehr/9/1c5c1/p1p1p1p1p/9/9/P1P1P1P1P/1C5C1/9/RHEAKAEHR r"@,
{
    let rows = starting_rows();
    lemma_starting_text();
    assert forall|y: int| 0 <= y < 10 implies canonical(#[trigger] rows[y]) by {}
    law_canonical_fen_is_kept(rows, Color::Red, s);
}

proof fn lemma_starting_text()
    ensures
        "rheakaehr/9/1c5c1/p1p1p1p1p/9/9/P1P1P1P1P/1C5C1/9/RHEAKAEHR r"@ == joined(
            starting_rows(),
            '/',
        ).push(' ') + seq![Color::Red.side_char()],
{
    let fen = joined(starting_rows(), '/').push(' ') + seq!['r'];
    reveal_strlit("rheakaehr/9/1c5c1/p1p1p1p1p/9/9/P1P1P1P1P/1C5C1/9/RHEAKAEHR r");
    reveal_with_fuel(joined, 11);
    assert(fen =~= "rheakaehr/9/1c5c1/p1p1p1p1p/9/9/P1P1P1P1P/1C5C1/9/RHEAKAEHR r"@);
}

/// The FEN string of a position is accepted.
pub proof fn law_fen_accepted(s: Setup)
    requires
        s.wf(),
    ensures
        fen_error(s.fen()) is None,
{
    let rows = rank_texts(s.grid());
    lemma_rank_texts_read_back(s.grid());
    crate::fen::lemma_row_text_nonempty(s.grid(), 0);
    lemma_fen_fields(rows, s.side);
}

/// The rows of the starting position.
pub open spec fn starting_rows() -> Seq<Seq<char>> {
    seq![
        seq!['r', 'h', 'e', 'a', 'k', 'a', 'e', 'h', 'r'],
        seq!['9'],
        seq!['1', 'c', '5', 'c', '1'],
        seq!['p', '1', 'p', '1', 'p', '1', 'p', '1', 'p'],
        seq!['9'],
        seq!['9'],
        seq!['P', '1', 'P', '1', 'P', '1', 'P', '1', 'P'],
        seq!['1', 'C', '5', 'C', '1'],
        seq!['9'],
        seq!['R', 'H', 'E', 'A', 'K', 'A', 'E', 'H', 'R'],
    ]
}

/// The FEN string of the starting position has these rows, with Red to move, and is accepted.
pub(crate) proof fn lemma_starting_fen()
    ensures
        ({
            let fen = "rheakaehr/9/1c5c1/p1p1p1p1p/9/9/P1P1P1P1P/1C5C1/9/RHEAKAEHR r"@;
            &&& words(fen).len() == 2
            &&& fen_rows(fen) == starting_rows()
            &&& fen_error(fen) is None
            &&& Color::from_side(words(fen)[1]) == Some(Color::Red)
            &&& fen_cells(fen_rows(fen)).contains_key((4, 0)) && fen_cells(fen_rows(fen))[(
                4,
                0,
            )].man() == (Man { color: Color::Black, kind: PieceKind::King })
            &&& fen_cells(fen_rows(fen)).contains_key((4, 9)) && fen_cells(fen_rows(fen))[(
                4,
                9,
            )].man() == (Man { color: Color::Red, kind: PieceKind::King })
        }),
{
    let rows = starting_rows();
    lemma_starting_text();
    lemma_fen_fields(rows, Color::Red);
    assert forall|y: int| 0 <= y < 10 implies row_fault(Letters::Narrow, #[trigger] rows[y], 0)
        is None by {
        reveal_with_fuel(row_width, 10);
        lemma_no_fault(Letters::Narrow, rows[y], 0);
    }
    lemma_no_board_fault(Letters::Narrow, rows, 0);
    assert(row_cell(rows[0], 4) matches Some((c, k)) && c == 'k') by {
        reveal_with_fuel(row_width, 10);
        reveal_with_fuel(row_cell, 10);
    }
    assert(row_cell(rows[9], 4) matches Some((c, k)) && c == 'K') by {
        reveal_with_fuel(row_width, 10);
        reveal_with_fuel(row_cell, 10);
    }
}

} // verus!

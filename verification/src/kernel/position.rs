//! Immutable positions.

use std::collections::BTreeMap;

use vstd::prelude::*;

use crate::grid::{
    at, in_board, lemma_targets_exact, met, moves_to, on_board, on_ray, pseudo_moves_for_piece,
    ray_hits, straight, targets, Cells, Grid, Man, Sweep,
};
use crate::kernel::constants::{ACTION_SPACE_SIZE, BOARD_HEIGHT, BOARD_WIDTH};
use crate::fen::{
    board_cell, gap, lemma_numbers_increase, men_before, men_text, parse_board, rank, rank_texts,
    row_text, Letters, RowCells, RowFault,
};
use crate::kernel::setup::{
    checked, fen_cells, fen_describes, fen_error, fen_rows, gives_check, last_king, law_starting_fen, lemma_last_king,
    lemma_starting_fen, moves_from, Setup,
};
use crate::text::{
    chars_of, decimal_string, joined, parse_u32, parsed, push_text, split_at_char, split_whitespace, string_of, text_with, texts,
    words,
};
use crate::kernel::types::{
    action_number, count_true, law_action_numbers, law_moves_numbered, lemma_count_none, lemma_count_one_more,
    move_numbered, move_to_action_id, Color, GameStatus, GameStatusReason, Move, Piece, PieceKind,
};

pub use crate::kernel::setup::MoveValidationReason;

verus! {

/// The squares of the board, rank by rank from the top.
pub type Board = [[Option<Piece>; 9]; 10];

#[derive(Debug, PartialEq, Eq)]
pub struct Position {
    pub board: Board,
    pub side_to_move: Color,
    pub piece_positions: BTreeMap<u32, (i32, i32)>,
    pub red_king: Option<(i32, i32)>,
    pub black_king: Option<(i32, i32)>,
    pub no_capture_plies: u32,
    pub fullmove_number: u32,
}

/// The pieces on a board.
pub open spec fn cells_of(board: Board) -> Map<(int, int), Piece> {
    Map::new(
        |s: (int, int)| on_board(s.0, s.1) && board@[s.1]@[s.0] is Some,
        |s: (int, int)| board@[s.1]@[s.0].unwrap(),
    )
}

impl View for Position {
    type V = Setup;

    open spec fn view(&self) -> Setup {
        Setup {
            cells: cells_of(self.board),
            side: self.side_to_move,
            places: self.piece_positions@,
            red_king: self.red_king,
            black_king: self.black_king,
            quiet: self.no_capture_plies,
            fullmove: self.fullmove_number,
        }
    }
}

impl Clone for Position {
    fn clone(&self) -> (r: Position)
        ensures
            r@ == self@,
    {
        Position {
            board: self.board,
            side_to_move: self.side_to_move,
            piece_positions: self.piece_positions.clone(),
            red_king: self.red_king,
            black_king: self.black_king,
            no_capture_plies: self.no_capture_plies,
            fullmove_number: self.fullmove_number,
        }
    }
}

impl Cells for Position {
    open spec fn grid(&self) -> Grid {
        self@.grid()
    }

    fn man_at(&self, x: i32, y: i32) -> (r: Option<Man>) {
        match self.board[y as usize][x as usize] {
            Some(p) => Some(Man { color: p.color, kind: p.kind }),
            None => None,
        }
    }
}

impl Position {
    pub fn king_square(&self, color: Color) -> (r: Option<(i32, i32)>)
        ensures
            r == self@.king(color),
    {
        match color {
            Color::Red => self.red_king,
            Color::Black => self.black_king,
        }
    }

    pub fn piece_at(&self, x: i32, y: i32) -> (r: Option<Piece>)
        ensures
            r == if self@.cells.contains_key((x as int, y as int)) {
                Some(self@.cells[(x as int, y as int)])
            } else {
                None
            },
    {
        if !in_board(x, y) {
            return None;
        }
        self.board[y as usize][x as usize]
    }

    pub fn require_piece_at(&self, x: i32, y: i32) -> (r: Piece)
        requires
            self@.cells.contains_key((x as int, y as int)),
        ensures
            r == self@.cells[(x as int, y as int)],
    {
        match self.board[y as usize][x as usize] {
            Some(p) => p,
            None => Piece { piece_id: 0, color: Color::Red, kind: PieceKind::King },
        }
    }

    /// The position after `piece` has gone from the source of `mv` to its target.
    pub(crate) fn apply_move(&self, mv: Move, piece: Piece) -> (r: Position)
        requires
            mv.on_board(),
            self@.cells.contains_key((mv.sx as int, mv.sy as int)),
            piece == self@.mover(mv),
            self@.counts_fit(mv),
        ensures
            r@ == self@.after(mv),
    {
        let captured = self.piece_at(mv.tx, mv.ty);

        let mut board = self.board;
        let mut piece_positions = self.piece_positions.clone();
        let mut red_king = self.red_king;
        let mut black_king = self.black_king;

        board[mv.sy as usize][mv.sx as usize] = None;
        board[mv.ty as usize][mv.tx as usize] = Some(piece);
        piece_positions.insert(piece.piece_id, (mv.tx, mv.ty));
        if let Some(cap) = captured {
            piece_positions.remove(&cap.piece_id);
        }
        if piece.kind == PieceKind::King {
            match piece.color {
                Color::Red => {
                    red_king = Some((mv.tx, mv.ty));
                },
                Color::Black => {
                    black_king = Some((mv.tx, mv.ty));
                },
            }
        }
        let r = Position {
            board,
            side_to_move: self.side_to_move.opposite(),
            piece_positions,
            red_king,
            black_king,
            no_capture_plies: if captured.is_some() {
                0
            } else {
                self.no_capture_plies + 1
            },
            fullmove_number: if self.side_to_move == Color::Black {
                self.fullmove_number + 1
            } else {
                self.fullmove_number
            },
        };
        assert(r@.cells =~= self@.after(mv).cells);
        assert(r@.places =~= self@.after(mv).places);
        r
    }

    /// Whether the king of `color` is in check, found by looking outwards from the king.
    pub fn is_in_check(&self, color: Color) -> (r: bool)
        requires
            self@.wf(),
            self@.king(color) is Some,
        ensures
            r == self@.in_check(color),
    {
        let (kx, ky) = match self.king_square(color) {
            Some(k) => k,
            None => (0, 0),
        };
        let enemy = color.opposite();
        let ghost g = self@.grid();
        let ghost (x, y) = (kx as int, ky as int);
        proof {
            assert(self@.king(color) is Some);
            assert(on_board(x, y));
        }
        if self.line_check(kx, ky, 1, 0, enemy) || self.line_check(kx, ky, -1, 0, enemy)
            || self.line_check(kx, ky, 0, 1, enemy) || self.line_check(kx, ky, 0, -1, enemy) {
            return true;
        }
        let horse: [(i32, i32); 8] = [
            (1, 2),
            (-1, 2),
            (1, -2),
            (-1, -2),
            (2, 1),
            (2, -1),
            (-2, 1),
            (-2, -1),
        ];
        let mut i: usize = 0;
        while i < 8
            invariant
                i <= 8,
                on_board(x, y),
                kx == x,
                ky == y,
                g == self@.grid(),
                enemy == color.opposite(),
                self@.in_check(color) == checked(g, color, x, y),
                forall|j: int|
                    0 <= j < 8 ==> -2 <= (#[trigger] horse@[j]).0 <= 2 && -2 <= horse@[j].1 <= 2,
                forall|j: int|
                    0 <= j < i ==> !short_check(
                        g,
                        enemy,
                        PieceKind::Horse,
                        x + (#[trigger] horse@[j]).0,
                        y + horse@[j].1,
                        x,
                        y,
                    ),
            decreases 8 - i,
        {
            if self.near_check(kx, ky, kx + horse[i].0, ky + horse[i].1, PieceKind::Horse, enemy) {
                return true;
            }
            i += 1;
        }
        let behind: i32 = match enemy {
            Color::Red => 1,
            Color::Black => -1,
        };
        if self.near_check(kx, ky, kx, ky + behind, PieceKind::Pawn, enemy) || self.near_check(
            kx,
            ky,
            kx - 1,
            ky,
            PieceKind::Pawn,
            enemy,
        ) || self.near_check(kx, ky, kx + 1, ky, PieceKind::Pawn, enemy) {
            return true;
        }
        proof {
            assert forall|ax: int, ay: int| !gives_check(g, enemy, ax, ay, x, y) by {
                if gives_check(g, enemy, ax, ay, x, y) {
                    let kind = g[(ax, ay)].kind;
                    if kind == PieceKind::Horse {
                        assert(short_check(g, enemy, PieceKind::Horse, ax, ay, x, y));
                        assert(horse@[0] == (1i32, 2i32));
                        assert(horse@[1] == (-1i32, 2i32));
                        assert(horse@[2] == (1i32, -2i32));
                        assert(horse@[3] == (-1i32, -2i32));
                        assert(horse@[4] == (2i32, 1i32));
                        assert(horse@[5] == (2i32, -1i32));
                        assert(horse@[6] == (-2i32, 1i32));
                        assert(horse@[7] == (-2i32, -1i32));
                    } else if kind == PieceKind::Pawn {
                        assert(short_check(g, enemy, PieceKind::Pawn, ax, ay, x, y));
                    } else {
                        assert(line_checks(g, enemy, ax, ay, x, y));
                        assert(on_ray(x, y, 1, 0, ax, ay) || on_ray(x, y, -1, 0, ax, ay) || on_ray(
                            x,
                            y,
                            0,
                            1,
                            ax,
                            ay,
                        ) || on_ray(x, y, 0, -1, ax, ay));
                    }
                }
            }
        }
        false
    }

    /// Whether a rook, a cannon or the other king gives check from the given direction.
    fn line_check(&self, kx: i32, ky: i32, dx: i32, dy: i32, enemy: Color) -> (r: bool)
        requires
            on_board(kx as int, ky as int),
            straight(dx as int, dy as int),
        ensures
            r == exists|ax: int, ay: int| #[trigger]
                line_checks(self@.grid(), enemy, ax, ay, kx as int, ky as int) && on_ray(
                    kx as int,
                    ky as int,
                    dx as int,
                    dy as int,
                    ax,
                    ay,
                ),
    {
        let ghost g = self@.grid();
        let ghost (x, y, ex, ey) = (kx as int, ky as int, dx as int, dy as int);
        let (first, second) = ray_hits(self, kx, ky, dx, dy);
        proof {
            assert(self.grid() == g);
            assert forall|ax: int, ay: int| #[trigger]
                line_checks(g, enemy, ax, ay, x, y) && on_ray(x, y, ex, ey, ax, ay) implies if g[(
                ax,
                ay,
            )].kind == PieceKind::Cannon {
                second == Some((ax as i32, ay as i32))
            } else {
                first == Some((ax as i32, ay as i32))
            } by {
                if g[(ax, ay)].kind == PieceKind::Cannon {
                    assert(met(g, x, y, ex, ey, ax, ay, 1));
                } else {
                    assert(met(g, x, y, ex, ey, ax, ay, 0));
                }
            }
        }
        if let Some((ax, ay)) = first {
            if let Some(m) = self.man_at(ax, ay) {
                if m.color == enemy && (m.kind == PieceKind::Rook || m.kind == PieceKind::King) {
                    assert(line_checks(g, enemy, ax as int, ay as int, x, y));
                    return true;
                }
            }
        }
        if let Some((ax, ay)) = second {
            if let Some(m) = self.man_at(ax, ay) {
                if m.color == enemy && m.kind == PieceKind::Cannon {
                    assert(line_checks(g, enemy, ax as int, ay as int, x, y));
                    return true;
                }
            }
        }
        false
    }

    /// Whether a horse or pawn on `(ax, ay)` gives check.
    fn near_check(
        &self,
        kx: i32,
        ky: i32,
        ax: i32,
        ay: i32,
        kind: PieceKind,
        enemy: Color,
    ) -> (r: bool)
        requires
            on_board(kx as int, ky as int),
            kind == PieceKind::Horse || kind == PieceKind::Pawn,
            -2 <= ax - kx <= 2,
            -2 <= ay - ky <= 2,
        ensures
            r == short_check(
                self@.grid(),
                enemy,
                kind,
                ax as int,
                ay as int,
                kx as int,
                ky as int,
            ),
    {
        if !in_board(ax, ay) {
            return false;
        }
        match self.man_at(ax, ay) {
            None => false,
            Some(m) => {
                if m.color != enemy || m.kind != kind {
                    return false;
                }
                let dx: i32 = if ax <= kx { kx - ax } else { ax - kx };
                let dy: i32 = if ay <= ky { ky - ay } else { ay - ky };
                if kind == PieceKind::Horse {
                    (dx == 1 && dy == 2 && self.man_at(ax, (ay + ky) / 2).is_none()) || (dx == 2
                        && dy == 1 && self.man_at((ax + kx) / 2, ay).is_none())
                } else {
                    let ahead: i32 = match enemy {
                        Color::Red => -1,
                        Color::Black => 1,
                    };
                    (ax == kx && ky == ay + ahead) || (ay == ky && dx == 1)
                }
            },
        }
    }

    /// Why `mv` is refused; `None` if it is legal. With `side_to_move_color`, only a piece of that
    /// side may move.
    pub fn validation_reason(&self, mv: Move, side_to_move_color: Option<Color>) -> (r: Option<
        MoveValidationReason,
    >)
        requires
            self@.wf(),
            self@.judgeable(mv, side_to_move_color),
        ensures
            r == self@.refusal(mv, side_to_move_color),
    {
        if !in_board(mv.sx, mv.sy) || !in_board(mv.tx, mv.ty) {
            return Some(MoveValidationReason::OutsideBoard);
        }
        let piece = match self.piece_at(mv.sx, mv.sy) {
            None => {
                return Some(MoveValidationReason::NoPiece);
            },
            Some(p) => p,
        };
        if let Some(color) = side_to_move_color {
            if piece.color != color {
                return Some(MoveValidationReason::WrongSide);
            }
        }
        if let Some(captured) = self.piece_at(mv.tx, mv.ty) {
            if captured.color == piece.color {
                return Some(MoveValidationReason::CaptureOwnPiece);
            }
        }
        let reached = self.pseudo_moves(mv.sx, mv.sy, piece);
        let mut found = false;
        let mut i: usize = 0;
        while i < reached.len()
            invariant
                i <= reached@.len(),
                found == reached@.take(i as int).contains(mv),
            decreases reached@.len() - i,
        {
            if reached[i] == mv {
                found = true;
            }
            proof {
                let before = reached@.take(i as int);
                assert(reached@.take(i + 1) =~= before.push(reached@[i as int]));
                vstd::seq_lib::lemma_seq_contains_after_push(before, reached@[i as int], mv);
            }
            i += 1;
        }
        assert(reached@.take(reached@.len() as int) =~= reached@);
        if !found {
            return Some(MoveValidationReason::InvalidPieceMove);
        }
        proof {
            crate::kernel::setup::law_moves_keep_positions_well_formed(
                self@,
                mv,
                side_to_move_color,
            );
        }
        let next_position = self.apply_move(mv, piece);
        if next_position.is_in_check(piece.color) {
            return Some(MoveValidationReason::LeavesKingInCheck);
        }
        None
    }

    /// The moves of the piece on `(x, y)`, the safety of its king left aside.
    fn pseudo_moves(&self, x: i32, y: i32, piece: Piece) -> (r: Vec<Move>)
        requires
            on_board(x as int, y as int),
        ensures
            r@ == moves_from(
                x as int,
                y as int,
                targets(
                    Sweep::PositiveFirst,
                    self@.grid(),
                    piece.man(),
                    x as int,
                    y as int,
                    false,
                ),
            ),
            forall|mv: Move| #[trigger]
                r@.contains(mv) <==> mv.sx == x && mv.sy == y && moves_to(
                    self@.grid(),
                    piece.man(),
                    x as int,
                    y as int,
                    mv.tx as int,
                    mv.ty as int,
                ),
    {
        let man = Man { color: piece.color, kind: piece.kind };
        let to = pseudo_moves_for_piece(self, Sweep::PositiveFirst, man, x, y, false);
        let mut r: Vec<Move> = Vec::new();
        let mut i: usize = 0;
        while i < to.len()
            invariant
                i <= to@.len(),
                r@ == moves_from(x as int, y as int, to@.take(i as int)),
            decreases to@.len() - i,
        {
            r.push(Move::new(x, y, to[i].0, to[i].1));
            i += 1;
            assert(r@ =~= moves_from(x as int, y as int, to@.take(i as int)));
        }
        proof {
            assert(to@.take(to@.len() as int) =~= to@);
            lemma_targets_exact(
                Sweep::PositiveFirst,
                self@.grid(),
                man,
                x as int,
                y as int,
                false,
            );
            assert forall|mv: Move| #[trigger] r@.contains(mv) <==> mv.sx == x && mv.sy == y
                && moves_to(
                self@.grid(),
                piece.man(),
                x as int,
                y as int,
                mv.tx as int,
                mv.ty as int,
            ) by {
                if r@.contains(mv) {
                    let j = choose|j: int| 0 <= j < r@.len() && r@[j] == mv;
                    assert(to@.contains((mv.tx, mv.ty))) by {
                        assert(to@[j] == (mv.tx, mv.ty));
                    }
                }
                if mv.sx == x && mv.sy == y && to@.contains((mv.tx, mv.ty)) {
                    let j = choose|j: int| 0 <= j < to@.len() && to@[j] == (mv.tx, mv.ty);
                    assert(r@[j] == mv);
                }
            }
        }
        r
    }

    pub fn is_legal_move(&self, mv: Move, side_to_move_color: Option<Color>) -> (r: bool)
        requires
            self@.wf(),
            self@.judgeable(mv, side_to_move_color),
        ensures
            r == (self@.refusal(mv, side_to_move_color) is None),
    {
        self.validation_reason(mv, side_to_move_color).is_none()
    }

    /// The position after a legal move.
    pub fn make_move(&self, mv: Move) -> (r: Position)
        requires
            self@.wf(),
            self@.judgeable(mv, Some(self@.side)),
            self@.legal(mv),
        ensures
            r@ == self@.after(mv),
            r@.wf(),
    {
        proof {
            crate::kernel::setup::law_moves_keep_positions_well_formed(
                self@,
                mv,
                Some(self@.side),
            );
        }
        let piece = self.require_piece_at(mv.sx, mv.sy);
        self.apply_move(mv, piece)
    }

    /// The legal moves of the side to move, square by square from the top left.
    pub fn legal_moves(&self) -> (r: Vec<Move>)
        requires
            self@.wf(),
            self@.all_judgeable(),
        ensures
            r@ == self@.legal_list(),
            forall|mv: Move| #[trigger] r@.contains(mv) <==> self@.legal(mv),
            r@.no_duplicates(),
    {
        let ghost p = self@.is_legal();
        let mut moves: Vec<Move> = Vec::new();
        let mut k: usize = 0;
        while k < 90
            invariant
                k <= 90,
                self@.wf(),
                self@.all_judgeable(),
                p == self@.is_legal(),
                moves@ == self@.legal_below(k as nat),
            decreases 90 - k,
        {
            let x: i32 = (k % 9) as i32;
            let y: i32 = (k / 9) as i32;
            let ghost before = moves@;
            if let Some(piece) = self.piece_at(x, y) {
                if piece.color == self.side_to_move {
                    let reached = self.pseudo_moves(x, y, piece);
                    let mut j: usize = 0;
                    proof {
                        reveal(Seq::filter);
                        assert(reached@.take(0) =~= Seq::empty());
                        assert(moves@ =~= before + reached@.take(0).filter(p));
                    }
                    while j < reached.len()
                        invariant
                            j <= reached@.len(),
                            self@.wf(),
                            self@.all_judgeable(),
                            p == self@.is_legal(),
                            moves@ == before + reached@.take(j as int).filter(p),
                        decreases reached@.len() - j,
                    {
                        let mv = reached[j];
                        proof {
                            assert(reached@.take(j + 1) =~= reached@.take(j as int).push(mv));
                            reached@.take(j as int).lemma_filter_push(mv, p);
                            assert(self@.judgeable(mv, Some(self@.side)));
                        }
                        if self.is_legal_move(mv, Some(self.side_to_move)) {
                            moves.push(mv);
                        }
                        j += 1;
                        assert(moves@ =~= before + reached@.take(j as int).filter(p));
                    }
                    assert(reached@.take(reached@.len() as int) =~= reached@);
                }
            }
            assert(moves@ =~= before + self@.legal_from(k as int));
            k += 1;
        }
        proof {
            crate::kernel::setup::law_legal_list_exact(self@);
        }
        moves
    }

    /// For each action number whether it is legal for the side to move.
    pub fn legal_move_mask(&self) -> (r: Vec<bool>)
        requires
            self@.wf(),
            self@.all_judgeable(),
        ensures
            r@.len() == ACTION_SPACE_SIZE,
            forall|mv: Move|
                mv.on_board() ==> #[trigger] r@[action_number(mv)] == self@.legal(mv),
            forall|id: int|
                0 <= id < ACTION_SPACE_SIZE ==> #[trigger] r@[id] == self@.legal_list().contains(
                    move_numbered(id),
                ),
            count_true(r@) == self@.legal_list().len(),
    {
        let moves = self.legal_moves();
        proof {
            assert forall|j: int| 0 <= j < moves@.len() implies (#[trigger] moves@[j]).on_board() by {
                assert(moves@.contains(moves@[j]));
            }
        }
        let mut mask: Vec<bool> = vec![false; ACTION_SPACE_SIZE];
        proof {
            lemma_count_none(mask@);
        }
        let mut i: usize = 0;
        while i < moves.len()
            invariant
                i <= moves@.len(),
                mask@.len() == ACTION_SPACE_SIZE,
                moves@.no_duplicates(),
                count_true(mask@) == i,
                forall|j: int| 0 <= j < moves@.len() ==> (#[trigger] moves@[j]).on_board(),
                forall|mv: Move|
                    mv.on_board() ==> #[trigger] mask@[action_number(mv)] == moves@.take(
                        i as int,
                    ).contains(mv),
            decreases moves@.len() - i,
        {
            let mv = moves[i];
            let ghost before = mask@;
            proof {
                law_action_numbers(mv, mv);
            }
            let id: usize = move_to_action_id(mv);
            mask[id] = true;
            proof {
                let done = moves@.take(i as int);
                assert(moves@.take(i + 1) =~= done.push(mv));
                assert(!done.contains(mv));
                assert(!before[action_number(mv)]);
                assert(mask@ =~= before.update(action_number(mv), true));
                lemma_count_one_more(before, action_number(mv));
                assert forall|m: Move| m.on_board() implies #[trigger] mask@[action_number(m)]
                    == moves@.take(i + 1).contains(m) by {
                    law_action_numbers(m, mv);
                    vstd::seq_lib::lemma_seq_contains_after_push(done, mv, m);
                    assert(before[action_number(m)] == done.contains(m));
                }
            }
            i += 1;
        }
        proof {
            assert(moves@.take(moves@.len() as int) =~= moves@);
            assert forall|id: int| 0 <= id < ACTION_SPACE_SIZE implies #[trigger] mask@[id]
                == moves@.contains(move_numbered(id)) by {
                law_moves_numbered(id);
                assert(mask@[action_number(move_numbered(id))] == moves@.contains(
                    move_numbered(id),
                ));
            }
        }
        mask
    }

    /// The result on the board: a side without a legal move has lost.
    pub fn status(&self) -> (r: GameStatus)
        requires
            self@.wf(),
            self@.all_judgeable(),
            self@.legal_list().len() == 0 ==> self@.king(self@.side) is Some,
        ensures
            r == self@.outcome(),
    {
        if self.legal_moves().len() > 0 {
            return GameStatus::ongoing();
        }
        let winner = self.side_to_move.opposite();
        if self.is_in_check(self.side_to_move) {
            GameStatus::terminal(GameStatusReason::Checkmate, Some(winner))
        } else {
            GameStatus::terminal(GameStatusReason::Stalemate, Some(winner))
        }
    }

    /// Reads a position from a FEN string: board and side to move, and in the fifth and sixth
    /// fields the plies since the last capture and the number of the move.
    pub fn from_fen(fen: &str) -> (r: Result<Position, String>)
        ensures
            match r {
                Ok(p) => fen_describes(fen@, p@),
                Err(e) => fen_error(fen@) == Some(e@),
            },
    {
        let chars = chars_of(fen);
        let parts = split_whitespace(&chars);
        let ghost w = words(fen@);
        assert(w.len() == parts@.len());
        assert(forall|i: int| 0 <= i < parts@.len() ==> w[i] == (#[trigger] parts@[i])@);
        if parts.len() < 2 {
            return Err(text_with("Invalid FEN: ", &chars));
        }
        let rows = split_at_char(&parts[0], '/');
        let ghost t = fen_rows(fen@);
        assert(t == texts(rows@));
        if rows.len() != BOARD_HEIGHT {
            return Err(text_with("Invalid FEN board height: ", &chars));
        }
        let read = match parse_board(Letters::Narrow, &rows) {
            Err((y, fault)) => {
                proof {
                    crate::fen::lemma_fault_row(Letters::Narrow, t, 0);
                }
                return match fault {
                    RowFault::Letter(c) => {
                        let mut e = "Invalid piece: ".to_string();
                        e.push(c);
                        Err(e)
                    },
                    _ => Err(text_with("Invalid FEN row width: ", &rows[y])),
                };
            },
            Ok(read) => read,
        };
        let side_word = string_of(&parts[1]);
        let side_to_move = match Color::from_fen_side(side_word.as_str()) {
            Ok(c) => c,
            Err(e) => {
                return Err(e);
            },
        };
        let no_capture_plies = number_field(&parts, 4, 0);
        let fullmove_number = number_field(&parts, 5, 1);
        let (board, piece_positions, red_king, black_king) = place_pieces(&read, Ghost(t));
        Ok(
            Position {
                board,
                side_to_move,
                piece_positions,
                red_king,
                black_king,
                no_capture_plies,
                fullmove_number,
            },
        )
    }

    /// The position as a FEN string: the board and the side to move.
    pub fn to_fen(&self) -> (r: String)
        ensures
            r@ == self@.fen(),
    {
        let ghost g = self@.grid();
        let ghost all = rank_texts(g);
        let mut out = String::new();
        let mut y: usize = 0;
        while y < BOARD_HEIGHT
            invariant
                y <= 10,
                g == self@.grid(),
                all == rank_texts(g),
                out@ == joined(all.take(y as int), '/'),
            decreases 10 - y,
        {
            if y > 0 {
                out.push('/');
            }
            let ghost start = out@;
            let ghost row = rank(g, y as int);
            let mut empty: u128 = 0;
            let mut x: usize = 0;
            assert(row.take(0) =~= Seq::empty());
            assert(out@ =~= start + men_text(row.take(0)));
            while x < BOARD_WIDTH
                invariant
                    x <= 9,
                    y < 10,
                    g == self@.grid(),
                    row == rank(g, y as int),
                    out@ == start + men_text(row.take(x as int)),
                    empty == gap(row.take(x as int)),
                    empty <= x,
                decreases 9 - x,
            {
                proof {
                    assert(row.take(x + 1).drop_last() =~= row.take(x as int));
                    assert(row[x as int] == at(g, x as int, y as int));
                }
                match self.board[y][x] {
                    None => {
                        empty = empty + 1;
                    },
                    Some(piece) => {
                        if empty > 0 {
                            push_text(&mut out, decimal_string(empty).as_str());
                            empty = 0;
                        }
                        out.push(piece.to_fen());
                        assert(out@ =~= start + men_text(row.take(x + 1)));
                    },
                }
                x += 1;
            }
            assert(row.take(9) =~= row);
            if empty > 0 {
                push_text(&mut out, decimal_string(empty).as_str());
            }
            proof {
                assert(out@ =~= start + row_text(row));
                assert(all[y as int] == row_text(row));
                assert(all.take(y + 1).drop_last() =~= all.take(y as int));
                if y == 0 {
                    assert(all.take(1)[0] == row_text(row));
                    assert(out@ =~= row_text(row));
                } else {
                    assert(out@ =~= joined(all.take(y as int), '/').push('/') + row_text(row));
                }
            }
            y += 1;
        }
        assert(all.take(10) =~= all);
        out.push(' ');
        out.push(self.side_to_move.fen_side());
        assert(out@ =~= self@.fen());
        out
    }

    /// The text by which repeated positions are recognised.
    pub fn repetition_key(&self) -> (r: String)
        ensures
            r@ == self@.fen(),
    {
        self.to_fen()
    }

    /// The position from which games start.
    pub fn starting() -> (r: Position)
        ensures
            fen_describes(
                "rheakaehr/9/1c5c1/p1p1p1p1p/9/9/P1P1P1P1P/1C5C1/9/RHEAKAEHR r"@,
                r@,
            ),
            r@.side == Color::Red,
            forall|c: Color| (#[trigger] r@.king(c)) is Some,
            r@.quiet == 0,
            r@.fullmove == 1,
            r@.fen() == "rheakaehr/9/1c5c1/p1p1p1p1p/9/9/P1P1P1P1P/1C5C1/9/RHEAKAEHR r"@,
    {
        proof {
            lemma_starting_fen();
        }
        let parsed = Position::from_fen(
            "rheakaehr/9/1c5c1/p1p1p1p1p/9/9/P1P1P1P1P/1C5C1/9/RHEAKAEHR r",
        );
        let r = parsed.unwrap();
        proof {
            law_starting_fen(r@);
            assert(r@.cells.contains_key((4, 0)) && r@.cells.contains_key((4, 9)));
            assert forall|c: Color| (#[trigger] r@.king(c)) is Some by {
                match c {
                    Color::Red => {
                        assert(r@.cells[(4, 9)].man().color == Color::Red);
                    },
                    Color::Black => {
                        assert(r@.cells[(4, 0)].man().color == Color::Black);
                    },
                }
            }
        }
        r
    }
}

/// The number in a field of a FEN string, or `default`.
fn number_field(parts: &Vec<Vec<char>>, i: usize, default: u32) -> (r: u32)
    ensures
        r == if i < parts@.len() {
            match parsed(parts@[i as int]@, u32::MAX as int) {
                Some(n) => n as u32,
                None => default,
            }
        } else {
            default
        },
{
    if i < parts.len() {
        match parse_u32(&parts[i]) {
            Some(n) => n,
            None => default,
        }
    } else {
        default
    }
}

/// Places the pieces that were read, and records where each piece and each king stands.
fn place_pieces(read: &[RowCells; 10], Ghost(rows): Ghost<Seq<Seq<char>>>) -> (r: (
    Board,
    BTreeMap<u32, (i32, i32)>,
    Option<(i32, i32)>,
    Option<(i32, i32)>,
))
    requires
        men_before(rows, 10) <= 90,
        forall|x: int, y: int|
            0 <= x < 9 && 0 <= y < 10 ==> #[trigger] read@[y]@[x] == board_cell(
                Letters::Narrow,
                rows,
                x,
                y,
            ),
    ensures
        cells_of(r.0) == fen_cells(rows),
        r.2 == last_king(fen_cells(rows), Color::Red, 90),
        r.3 == last_king(fen_cells(rows), Color::Black, 90),
        forall|side: Color, quiet: u32, fullmove: u32|
            (#[trigger] Setup {
                cells: cells_of(r.0),
                side,
                places: r.1@,
                red_king: r.2,
                black_king: r.3,
                quiet,
                fullmove,
            }.wf()),
{
    let ghost cells = fen_cells(rows);
    let mut board: Board = [[None; 9]; 10];
    let mut places: BTreeMap<u32, (i32, i32)> = BTreeMap::new();
    let mut red_king: Option<(i32, i32)> = None;
    let mut black_king: Option<(i32, i32)> = None;
    let mut k: usize = 0;
    while k < 90
        invariant
            k <= 90,
            men_before(rows, 10) <= 90,
            cells == fen_cells(rows),
            forall|x: int, y: int|
                0 <= x < 9 && 0 <= y < 10 ==> #[trigger] read@[y]@[x] == board_cell(
                    Letters::Narrow,
                    rows,
                    x,
                    y,
                ),
            forall|x: int, y: int|
                0 <= x < 9 && 0 <= y < 10 ==> #[trigger] board@[y]@[x] == if y * 9 + x < k
                    && cells.contains_key((x, y)) {
                    Some(cells[(x, y)])
                } else {
                    None
                },
            forall|x: int, y: int| #[trigger]
                cells.contains_key((x, y)) && y * 9 + x < k ==> places@.contains_key(
                    cells[(x, y)].piece_id,
                ) && places@[cells[(x, y)].piece_id] == (x as i32, y as i32),
            forall|id: u32| #[trigger]
                places@.contains_key(id) ==> {
                    let s = (places@[id].0 as int, places@[id].1 as int);
                    cells.contains_key(s) && cells[s].piece_id == id && s.1 * 9 + s.0 < k
                },
            red_king == last_king(cells, Color::Red, k as nat),
            black_king == last_king(cells, Color::Black, k as nat),
        decreases 90 - k,
    {
        let x: usize = k % 9;
        let y: usize = k / 9;
        let ghost (gx, gy) = (x as int, y as int);
        let ghost before = places@;
        assert(read@[gy]@[gx] == board_cell(Letters::Narrow, rows, gx, gy));
        if let Some((piece_id, man)) = read[y][x] {
            let piece = Piece { piece_id, color: man.color, kind: man.kind };
            assert(cells.contains_key((gx, gy)) && cells[(gx, gy)] == piece);
            board[y][x] = Some(piece);
            places.insert(piece_id, (x as i32, y as i32));
            proof {
                assert forall|x2: int, y2: int| #[trigger]
                    cells.contains_key((x2, y2)) && y2 * 9 + x2 < k implies cells[(
                    x2,
                    y2,
                )].piece_id != piece_id by {
                    lemma_numbers_increase(Letters::Narrow, rows, x2, y2, gx, gy);
                }
            }
            if man.kind == PieceKind::King {
                match man.color {
                    Color::Red => {
                        red_king = Some((x as i32, y as i32));
                    },
                    Color::Black => {
                        black_king = Some((x as i32, y as i32));
                    },
                }
            }
        }
        proof {
            assert forall|x2: int, y2: int| #[trigger]
                cells.contains_key((x2, y2)) && y2 * 9 + x2 < k + 1 implies places@.contains_key(
                cells[(x2, y2)].piece_id,
            ) && places@[cells[(x2, y2)].piece_id] == (x2 as i32, y2 as i32) by {
                if y2 * 9 + x2 == k {
                    assert((x2, y2) == (gx, gy));
                }
            }
        }
        k += 1;
    }
    proof {
        assert(cells_of(board) =~= cells);
        lemma_last_king(cells, Color::Red, 90);
        lemma_last_king(cells, Color::Black, 90);
        assert forall|side: Color, quiet: u32, fullmove: u32|
            (#[trigger] Setup {
                cells: cells_of(board),
                side,
                places: places@,
                red_king,
                black_king,
                quiet,
                fullmove,
            }.wf()) by {
            let s = Setup {
                cells: cells_of(board),
                side,
                places: places@,
                red_king,
                black_king,
                quiet,
                fullmove,
            };
            assert forall|c: Color| (#[trigger] s.king(c)) is Some implies on_board(
                s.king(c).unwrap().0 as int,
                s.king(c).unwrap().1 as int,
            ) by {}
        }
    }
    (board, places, red_king, black_king)
}

/// A king, rook or cannon gives check.
spec fn line_checks(g: Grid, enemy: Color, ax: int, ay: int, kx: int, ky: int) -> bool {
    &&& gives_check(g, enemy, ax, ay, kx, ky)
    &&& g[(ax, ay)].kind == PieceKind::King || g[(ax, ay)].kind == PieceKind::Rook || g[(
        ax,
        ay,
    )].kind == PieceKind::Cannon
}

/// A man of that kind gives check.
spec fn short_check(
    g: Grid,
    enemy: Color,
    kind: PieceKind,
    ax: int,
    ay: int,
    kx: int,
    ky: int,
) -> bool {
    gives_check(g, enemy, ax, ay, kx, ky) && g[(ax, ay)].kind == kind
}

} // verus!

//! The board: pieces, their squares and the hash, changed in place by moves.

use std::collections::HashMap;
use std::sync::Arc;

use vstd::pervasive::unreached;
use vstd::prelude::*;

use crate::engine::constants::BOARD_HEIGHT;
use crate::engine::layout::{
    board_error, fen_cells, fen_describes, fen_error, fen_fits, fen_rows, keys_upto, king_noted,
    last_king, lemma_last_king, lemma_start_fen, nth_square, Layout,
};
use crate::engine::types::{Color, Move, MoveInfo, Piece, PieceKind, Position};
use crate::engine::zobrist::ZobristTable;
use crate::fen::{
    board_cell, board_fault, lemma_numbers_increase, men_before, parse_board, Letters, RowCells, RowFault,
};
use crate::grid::{
    at, col_men, men_between, on_board, over_river, palace, row_men, Cells, Grid, Man,
};
use crate::text::{
    chars_of, decimal_string, is_char, parse_u32, parsed, push_text, split_at_char, split_by,
    split_whitespace, words,
};

verus! {

broadcast use vstd::std_specs::hash::group_hash_axioms;

/// One value for each square, rank by rank from the top.
pub type Squares<T> = [[T; 9]; 10];

/// The types of the pieces on a board as numbers, 0 for an empty square.
pub type PieceIndexBoard = [[u8; 9]; 10];

#[derive(Debug)]
pub struct Board {
    pub squares: Squares<Option<Piece>>,
    /// The squares of the pieces by identity.
    pub piece_pos_map: HashMap<u8, Position>,
    pub red_king_pos: Position,
    pub black_king_pos: Position,
    pub side_to_move: Color,
    pub zobrist_hash: u64,
    pub zobrist_table: Arc<ZobristTable>,
    pub no_capture_plies: u32,
    pub fullmove_number: u32,
}

/// The pieces on the squares.
pub open spec fn cells_of(squares: Squares<Option<Piece>>) -> Map<(int, int), Piece> {
    Map::new(
        |s: (int, int)| on_board(s.0, s.1) && squares@[s.1]@[s.0] is Some,
        |s: (int, int)| squares@[s.1]@[s.0].unwrap(),
    )
}

impl View for Board {
    type V = Layout;

    open spec fn view(&self) -> Layout {
        Layout {
            cells: cells_of(self.squares),
            places: self.piece_pos_map@,
            red_king: self.red_king_pos,
            black_king: self.black_king_pos,
            side: self.side_to_move,
            hash: self.zobrist_hash,
            table: *self.zobrist_table,
            quiet: self.no_capture_plies,
            fullmove: self.fullmove_number,
        }
    }
}

impl Clone for Board {
    fn clone(&self) -> (r: Board)
        ensures
            r@ == self@,
    {
        Board {
            squares: self.squares,
            piece_pos_map: self.piece_pos_map.clone(),
            red_king_pos: self.red_king_pos,
            black_king_pos: self.black_king_pos,
            side_to_move: self.side_to_move,
            zobrist_hash: self.zobrist_hash,
            zobrist_table: self.zobrist_table.clone(),
            no_capture_plies: self.no_capture_plies,
            fullmove_number: self.fullmove_number,
        }
    }
}

impl Cells for Board {
    open spec fn grid(&self) -> Grid {
        self@.grid()
    }

    fn man_at(&self, x: i32, y: i32) -> (r: Option<Man>) {
        match self.squares[y as usize][x as usize] {
            Some(p) => Some(Man { color: p.color, kind: p.kind }),
            None => None,
        }
    }
}

impl Board {
    pub fn king_pos(&self, color: Color) -> (r: Position)
        ensures
            r == self@.king(color),
    {
        match color {
            Color::Red => self.red_king_pos,
            Color::Black => self.black_king_pos,
        }
    }

    pub fn get_piece_at(&self, pos: Position) -> (r: Option<Piece>)
        requires
            pos.valid(),
        ensures
            r == if self@.cells.contains_key(pos.at()) {
                Some(self@.cells[pos.at()])
            } else {
                None
            },
    {
        self.squares[pos.y as usize][pos.x as usize]
    }

    pub fn is_pos_empty(&self, pos: Position) -> (r: bool)
        requires
            pos.valid(),
        ensures
            r == !self@.cells.contains_key(pos.at()),
    {
        self.squares[pos.y as usize][pos.x as usize].is_none()
    }

    /// The square of exactly this piece, if it is on the board.
    pub fn get_piece_pos(&self, piece: &Piece) -> (r: Option<&Position>)
        requires
            self@.wf(),
        ensures
            match r {
                Some(pos) => self@.cells.contains_key(pos.at()) && self@.cells[pos.at()] == *piece,
                None => forall|x: int, y: int| #[trigger]
                    self@.cells.contains_key((x, y)) ==> self@.cells[(x, y)] != *piece,
            },
    {
        match self.piece_pos_map.get(&piece.piece_id) {
            Some(pos) => {
                assert(self@.places.contains_key(piece.piece_id));
                assert(self@.cells.contains_key(pos.at()));
                match self.get_piece_at(*pos) {
                    Some(p) => {
                        if p == *piece {
                            Some(pos)
                        } else {
                            None
                        }
                    },
                    None => None,
                }
            },
            None => None,
        }
    }

    fn toggle_side_to_move(&mut self)
        ensures
            final(self)@ == (Layout {
                side: old(self)@.side.opposite(),
                hash: old(self)@.hash ^ old(self)@.table.side_key(),
                ..old(self)@
            }),
    {
        self.zobrist_hash = self.zobrist_hash ^ self.zobrist_table.get_side_to_move_hash();
        self.side_to_move = self.side_to_move.opposite();
    }

    fn place_piece_at(&mut self, pos: Position, piece: Piece)
        requires
            pos.valid(),
        ensures
            final(self)@ == (Layout {
                cells: old(self)@.cells.insert(pos.at(), piece),
                places: old(self)@.places.insert(piece.piece_id, pos),
                red_king: king_noted(old(self)@.red_king, Color::Red, piece, pos),
                black_king: king_noted(old(self)@.black_king, Color::Black, piece, pos),
                hash: old(self)@.hash ^ old(self)@.table.key(piece, pos.number()),
                ..old(self)@
            }),
    {
        let ghost before = self@;
        self.squares[pos.y as usize][pos.x as usize] = Some(piece);
        self.piece_pos_map.insert(piece.piece_id, pos);
        self.zobrist_hash = self.zobrist_hash ^ self.zobrist_table.get_piece_hash(piece, pos);
        if piece.is_king() {
            match piece.color {
                Color::Red => {
                    self.red_king_pos = pos;
                },
                Color::Black => {
                    self.black_king_pos = pos;
                },
            }
        }
        assert(self@.cells =~= before.cells.insert(pos.at(), piece));
        assert(self@.places =~= before.places.insert(piece.piece_id, pos));
    }

    fn remove_piece_at(&mut self, pos: Position, piece: Piece)
        requires
            pos.valid(),
        ensures
            final(self)@ == (Layout {
                cells: old(self)@.cells.remove(pos.at()),
                places: old(self)@.places.remove(piece.piece_id),
                hash: old(self)@.hash ^ old(self)@.table.key(piece, pos.number()),
                ..old(self)@
            }),
    {
        let ghost before = self@;
        self.squares[pos.y as usize][pos.x as usize] = None;
        self.zobrist_hash = self.zobrist_hash ^ self.zobrist_table.get_piece_hash(piece, pos);
        self.piece_pos_map.remove(&piece.piece_id);
        assert(self@.cells =~= before.cells.remove(pos.at()));
        assert(self@.places =~= before.places.remove(piece.piece_id));
    }

    /// Moves a piece, whether or not the move is legal, and notes how to take the move back.
    pub(crate) fn make_move(&mut self, mv: Move) -> (r: MoveInfo)
        requires
            old(self)@.can_make(mv),
        ensures
            r == old(self)@.info(mv),
            final(self)@ == old(self)@.after(mv),
    {
        let ghost before = self@;
        let source_piece = self.get_piece_at(mv.from).unwrap();
        let target_piece = self.get_piece_at(mv.to);
        let move_info = MoveInfo {
            mv,
            source_piece,
            target_piece,
            before_zobrist_hash: self.zobrist_hash,
            before_no_capture_plies: self.no_capture_plies,
            before_fullmove_number: self.fullmove_number,
        };
        self.remove_piece_at(mv.from, source_piece);
        if let Some(captured) = target_piece {
            self.remove_piece_at(mv.to, captured);
        }
        self.place_piece_at(mv.to, source_piece);
        if target_piece.is_some() {
            self.no_capture_plies = 0;
        } else {
            self.no_capture_plies = self.no_capture_plies + 1;
        }
        if self.side_to_move == Color::Black {
            self.fullmove_number = self.fullmove_number + 1;
        }
        self.toggle_side_to_move();
        proof {
            assert(self@.cells =~= before.after(mv).cells);
            assert(self@.places =~= before.after(mv).places);
        }
        move_info
    }

    /// Takes back a noted move.
    pub(crate) fn undo_move(&mut self, info: &MoveInfo)
        requires
            info.mv.valid(),
        ensures
            final(self)@ == old(self)@.undone(*info),
    {
        let ghost before = self@;
        self.toggle_side_to_move();
        self.remove_piece_at(info.mv.to, info.source_piece);
        self.place_piece_at(info.mv.from, info.source_piece);
        if let Some(captured) = info.target_piece {
            self.place_piece_at(info.mv.to, captured);
        }
        self.zobrist_hash = info.before_zobrist_hash;
        self.no_capture_plies = info.before_no_capture_plies;
        self.fullmove_number = info.before_fullmove_number;
        proof {
            assert(self@.cells =~= before.undone(*info).cells);
            assert(self@.places =~= before.undone(*info).places);
        }
    }

    /// Number of pieces strictly between two squares of one rank or file; `None` for other squares.
    pub(crate) fn count_pieces_between(&self, a: Position, b: Position) -> (r: Option<u8>)
        requires
            a.valid(),
            b.valid(),
        ensures
            r is Some <==> a.x == b.x || a.y == b.y,
            r matches Some(n) ==> n == men_between(
                self@.grid(),
                a.x as int,
                a.y as int,
                b.x as int,
                b.y as int,
            ),
    {
        let ghost g = self@.grid();
        if a.x == b.x {
            let (low, high): (i8, i8) = if a.y <= b.y {
                (a.y, b.y)
            } else {
                (b.y, a.y)
            };
            let mut count: u8 = 0;
            let mut y: i8 = low + 1;
            while y < high
                invariant
                    a.valid(),
                    0 <= low <= high <= 9,
                    low + 1 <= y,
                    y <= high || y == low + 1,
                    g == self@.grid(),
                    count == col_men(g, a.x as int, low + 1, y as int),
                    count <= y,
                decreases high - y,
            {
                if !self.is_pos_empty(Position::new(a.x, y)) {
                    count = count + 1;
                }
                y = y + 1;
            }
            Some(count)
        } else if a.y == b.y {
            let (low, high): (i8, i8) = if a.x <= b.x {
                (a.x, b.x)
            } else {
                (b.x, a.x)
            };
            let mut count: u8 = 0;
            let mut x: i8 = low + 1;
            while x < high
                invariant
                    a.valid(),
                    0 <= low <= high <= 8,
                    low + 1 <= x,
                    x <= high || x == low + 1,
                    g == self@.grid(),
                    count == row_men(g, a.y as int, low + 1, x as int),
                    count <= x,
                decreases high - x,
            {
                if !self.is_pos_empty(Position::new(x, a.y)) {
                    count = count + 1;
                }
                x = x + 1;
            }
            Some(count)
        } else {
            None
        }
    }

    /// The value of a piece on a square. A pawn is worth more once it has crossed the river.
    pub fn get_piece_value(piece: Piece, pos: Position) -> (r: u8)
        ensures
            r == piece_value(piece, pos.y as int),
    {
        match piece.kind {
            PieceKind::King => 255,
            PieceKind::Rook => 10,
            PieceKind::Horse | PieceKind::Cannon => 5,
            PieceKind::Pawn => {
                if crossed_river(piece.color, pos.y) {
                    3
                } else {
                    1
                }
            },
            PieceKind::Advisor | PieceKind::Elephant => 2,
        }
    }

    pub fn get_piece_index_board(&self) -> (r: PieceIndexBoard)
        ensures
            index_board(self@.cells, r),
    {
        let mut raw = [[0u8; 9]; 10];
        let mut y: usize = 0;
        while y < 10
            invariant
                y <= 10,
                forall|i: int, j: int|
                    0 <= j < 10 && 0 <= i < 9 ==> #[trigger] raw@[j]@[i] == if j < y {
                        index_at(self@.cells, i, j)
                    } else {
                        0
                    },
            decreases 10 - y,
        {
            let mut x: usize = 0;
            while x < 9
                invariant
                    y < 10,
                    x <= 9,
                    forall|i: int, j: int|
                        0 <= j < 10 && 0 <= i < 9 ==> #[trigger] raw@[j]@[i] == if j < y || (j == y
                            && i < x) {
                            index_at(self@.cells, i, j)
                        } else {
                            0
                        },
                decreases 9 - x,
            {
                raw[y][x] = match self.squares[y][x] {
                    Some(p) => p.to_index(),
                    None => 0,
                };
                x += 1;
            }
            y += 1;
        }
        raw
    }

    /// The pieces of `color` other than its king, with their squares, in reading order.
    pub fn pieces_of(&self, color: Color) -> (r: Vec<(Piece, Position)>)
        ensures
            r@ == men_of(self@.cells, color, 90),
    {
        let mut r: Vec<(Piece, Position)> = Vec::new();
        let mut k: usize = 0;
        while k < 90
            invariant
                k <= 90,
                r@ == men_of(self@.cells, color, k as nat),
            decreases 90 - k,
        {
            let x: usize = k % 9;
            let y: usize = k / 9;
            if let Some(p) = self.squares[y][x] {
                if p.color == color && p.kind != PieceKind::King {
                    r.push((p, Position::new(x as i8, y as i8)));
                }
            }
            k += 1;
        }
        r
    }
}

/// The squares with the pieces that were read, numbered from 1.
fn number_pieces(read: &[RowCells; 10], Ghost(rows): Ghost<Seq<Seq<char>>>) -> (r: Squares<
    Option<Piece>,
>)
    requires
        men_before(rows, 10) <= 90,
        forall|x: int, y: int|
            0 <= x < 9 && 0 <= y < 10 ==> #[trigger] read@[y]@[x] == board_cell(
                Letters::Wide,
                rows,
                x,
                y,
            ),
    ensures
        cells_of(r) == fen_cells(rows),
{
    let ghost cells = fen_cells(rows);
    let mut squares: Squares<Option<Piece>> = [[None; 9]; 10];
    let mut k: usize = 0;
    while k < 90
        invariant
            k <= 90,
            men_before(rows, 10) <= 90,
            cells == fen_cells(rows),
            forall|x: int, y: int|
                0 <= x < 9 && 0 <= y < 10 ==> #[trigger] read@[y]@[x] == board_cell(
                    Letters::Wide,
                    rows,
                    x,
                    y,
                ),
            forall|x: int, y: int|
                0 <= x < 9 && 0 <= y < 10 ==> #[trigger] squares@[y]@[x] == if y * 9 + x < k
                    && cells.contains_key((x, y)) {
                    Some(cells[(x, y)])
                } else {
                    None
                },
        decreases 90 - k,
    {
        let x: usize = k % 9;
        let y: usize = k / 9;
        assert(read@[y as int]@[x as int] == board_cell(
            Letters::Wide,
            rows,
            x as int,
            y as int,
        ));
        if let Some((number, man)) = read[y][x] {
            proof {
                lemma_numbers_increase(
                    Letters::Wide,
                    rows,
                    x as int,
                    y as int,
                    x as int,
                    y as int,
                );
            }
            squares[y][x] = Some(
                Piece { piece_id: (number + 1) as u8, color: man.color, kind: man.kind },
            );
        }
        k += 1;
    }
    assert(cells_of(squares) =~= cells);
    squares
}

/// The squares that the board field of a FEN string describes.
fn parse_fen_squares(board: &[char]) -> (r: Result<Squares<Option<Piece>>, String>)
    requires
        ({
            let rows = split_by(board@, is_char('/'));
            rows.len() == 10 ==> !(board_fault(Letters::Wide, rows, 0) matches Some(
                (y, RowFault::Overrun),
            ))
        }),
    ensures
        ({
            let rows = split_by(board@, is_char('/'));
            match r {
                Ok(squares) => {
                    &&& rows.len() == 10
                    &&& board_fault(Letters::Wide, rows, 0) is None
                    &&& cells_of(squares) == fen_cells(rows)
                    &&& men_before(rows, 10) <= 90
                },
                Err(e) => board_error(rows) == Some(e@),
            }
        }),
{
    let rows = split_at_char(board, '/');
    let ghost t = split_by(board@, is_char('/'));
    if rows.len() != BOARD_HEIGHT as usize {
        let mut e = "FEN should have 10 rows, got ".to_string();
        push_text(&mut e, decimal_string(rows.len() as u128).as_str());
        return Err(e);
    }
    match parse_board(Letters::Wide, &rows) {
        Ok(read) => Ok(number_pieces(&read, Ghost(t))),
        Err((y, fault)) => match fault {
            RowFault::Letter(c) => {
                let mut e = "unknown FEN char: ".to_string();
                e.push(c);
                Err(e)
            },
            RowFault::Width(w) => {
                let mut e = "row ".to_string();
                push_text(&mut e, decimal_string(y as u128).as_str());
                push_text(&mut e, " has width ");
                push_text(&mut e, decimal_string(w).as_str());
                push_text(&mut e, ", expected 9");
                Err(e)
            },
            RowFault::Overrun => unreached(),
        },
    }
}

/// The number in a field of a FEN string, or `default`.
fn number_field(parts: &Vec<Vec<char>>, i: usize, default: u32) -> (r: u32)
    ensures
        r == if i < parts@.len() {
            match parsed(parts@[i as int]@, u32::MAX as int) {
                Some(n) => n as u32,
                None => default,
            }
        } else {
            default
        },
{
    if i < parts.len() {
        match parse_u32(&parts[i]) {
            Some(n) => n,
            None => default,
        }
    } else {
        default
    }
}

/// Identities differ from square to square, so that `places` can list the pieces by identity.
proof fn lemma_ids_distinct(rows: Seq<Seq<char>>, x: int, y: int, x2: int, y2: int)
    requires
        men_before(rows, 10) <= 90,
        fen_cells(rows).contains_key((x, y)),
        fen_cells(rows).contains_key((x2, y2)),
        fen_cells(rows)[(x, y)].piece_id == fen_cells(rows)[(x2, y2)].piece_id,
    ensures
        (x, y) == (x2, y2),
{
    if y <= y2 {
        lemma_numbers_increase(Letters::Wide, rows, x, y, x2, y2);
    }
    if y2 <= y {
        lemma_numbers_increase(Letters::Wide, rows, x2, y2, x, y);
    }
    lemma_numbers_increase(Letters::Wide, rows, x, y, x, y);
    lemma_numbers_increase(Letters::Wide, rows, x2, y2, x2, y2);
}

impl Board {
    /// Reads a board from a FEN string: the pieces, the side to move, and in the fifth and sixth
    /// fields the plies since the last capture and the number of the move.
    pub fn from_fen(fen: &str) -> (r: Result<Board, String>)
        requires
            fen_fits(fen@),
        ensures
            match r {
                Ok(b) => fen_describes(fen@, b@),
                Err(e) => fen_error(fen@) == Some(e@),
            },
    {
        let chars = chars_of(fen);
        let parts = split_whitespace(&chars);
        let ghost w = words(fen@);
        assert(w.len() == parts@.len());
        assert(forall|i: int| 0 <= i < parts@.len() ==> w[i] == (#[trigger] parts@[i])@);
        if parts.len() == 0 {
            return Err("empty FEN string".to_string());
        }
        let ghost rows = fen_rows(fen@);
        let squares = match parse_fen_squares(&parts[0]) {
            Ok(s) => s,
            Err(e) => {
                return Err(e);
            },
        };
        let black = parts.len() > 1 && parts[1].len() == 1 && parts[1][0] == 'b';
        proof {
            if parts@.len() > 1 {
                assert(black ==> w[1] =~= seq!['b']);
                assert(w[1] == seq!['b'] ==> black);
            }
        }
        let side_to_move = if black {
            Color::Black
        } else {
            Color::Red
        };
        let no_capture_plies = number_field(&parts, 4, 0);
        let fullmove_number = number_field(&parts, 5, 1);

        let zobrist_table = ZobristTable::get();
        let ghost cells = fen_cells(rows);
        let mut piece_pos_map: HashMap<u8, Position> = HashMap::new();
        let mut red_king_pos = Position::new(0, 0);
        let mut black_king_pos = Position::new(0, 0);
        let mut zobrist_hash: u64 = 0;
        let mut k: usize = 0;
        while k < 90
            invariant
                k <= 90,
                men_before(rows, 10) <= 90,
                cells == fen_cells(rows),
                cells_of(squares) == cells,
                forall|x: int, y: int| #[trigger]
                    cells.contains_key((x, y)) && y * 9 + x < k ==> piece_pos_map@.contains_key(
                        cells[(x, y)].piece_id,
                    ) && piece_pos_map@[cells[(x, y)].piece_id].at() == (x, y),
                forall|id: u8| #[trigger]
                    piece_pos_map@.contains_key(id) ==> {
                        let s = piece_pos_map@[id];
                        cells.contains_key(s.at()) && cells[s.at()].piece_id == id && s.number() < k
                    },
                red_king_pos == last_king(cells, Color::Red, k as nat),
                black_king_pos == last_king(cells, Color::Black, k as nat),
                zobrist_hash == keys_upto(*zobrist_table, cells, k as nat),
            decreases 90 - k,
        {
            let x: usize = k % 9;
            let y: usize = k / 9;
            let ghost (gx, gy) = (x as int, y as int);
            assert(nth_square(k as int) == (gx, gy));
            if let Some(piece) = squares[y][x] {
                let pos = Position::new(x as i8, y as i8);
                assert(cells_of(squares).contains_key((gx, gy)));
                assert(cells[(gx, gy)] == piece);
                let ghost before = piece_pos_map@;
                piece_pos_map.insert(piece.piece_id, pos);
                proof {
                    assert forall|x2: int, y2: int| #[trigger]
                        cells.contains_key((x2, y2)) && y2 * 9 + x2 < k implies cells[(
                        x2,
                        y2,
                    )].piece_id != piece.piece_id by {
                        if cells[(x2, y2)].piece_id == piece.piece_id {
                            lemma_ids_distinct(rows, x2, y2, gx, gy);
                        }
                    }
                }
                if piece.is_king() {
                    match piece.color {
                        Color::Red => {
                            red_king_pos = pos;
                        },
                        Color::Black => {
                            black_king_pos = pos;
                        },
                    }
                }
                zobrist_hash = zobrist_hash ^ zobrist_table.get_piece_hash(piece, pos);
            } else {
                assert(!cells_of(squares).contains_key((gx, gy)));
            }
            proof {
                assert forall|x2: int, y2: int| #[trigger]
                    cells.contains_key((x2, y2)) && y2 * 9 + x2 < k + 1 implies piece_pos_map@.contains_key(
                    cells[(x2, y2)].piece_id,
                ) && piece_pos_map@[cells[(x2, y2)].piece_id].at() == (x2, y2) by {
                    if y2 * 9 + x2 == k {
                        assert((x2, y2) == (gx, gy));
                    }
                }
            }
            k += 1;
        }
        if side_to_move == Color::Black {
            zobrist_hash = zobrist_hash ^ zobrist_table.get_side_to_move_hash();
        }
        let b = Board {
            squares,
            piece_pos_map,
            red_king_pos,
            black_king_pos,
            side_to_move,
            zobrist_hash,
            zobrist_table,
            no_capture_plies,
            fullmove_number,
        };
        proof {
            lemma_last_king(cells, Color::Red, 90);
            lemma_last_king(cells, Color::Black, 90);
            assert forall|c: Color| (#[trigger] b@.king(c)).valid() by {}
        }
        Ok(b)
    }

    /// The board from which games start.
    pub fn start_pos() -> (r: Board)
        ensures
            fen_describes(
                "rnbakabnr/9/1c5c1/p1p1p1p1p/9/9/P1P1P1P1P/1C5C1/9/RNBAKABNR w - - 0 1"@,
                r@,
            ),
            r@.wf(),
            r@.side == Color::Red,
            r@.quiet == 0,
            r@.fullmove == 1,
    {
        proof {
            lemma_start_fen();
        }
        let parsed = Board::from_fen(
            "rnbakabnr/9/1c5c1/p1p1p1p1p/9/9/P1P1P1P1P/1C5C1/9/RNBAKABNR w - - 0 1",
        );
        parsed.unwrap()
    }
}

/// The pieces of `color` other than kings on the first `n` squares.
pub open spec fn men_of(cells: Map<(int, int), Piece>, color: Color, n: nat) -> Seq<
    (Piece, Position),
>
    decreases n,
{
    if n == 0 {
        Seq::empty()
    } else {
        let s = nth_square(n - 1);
        let rest = men_of(cells, color, (n - 1) as nat);
        if cells.contains_key(s) && cells[s].color == color && cells[s].kind != PieceKind::King {
            rest.push((cells[s], Position { x: s.0 as i8, y: s.1 as i8 }))
        } else {
            rest
        }
    }
}

/// The value of a piece on rank `y`.
pub open spec fn piece_value(piece: Piece, y: int) -> int {
    match piece.kind {
        PieceKind::King => 255,
        PieceKind::Rook => 10,
        PieceKind::Horse | PieceKind::Cannon => 5,
        PieceKind::Pawn => if over_river(piece.color, y) {
            3
        } else {
            1
        },
        PieceKind::Advisor | PieceKind::Elephant => 2,
    }
}

/// The number of the piece type on a square, 0 if it is empty.
pub open spec fn index_at(cells: Map<(int, int), Piece>, x: int, y: int) -> u8 {
    if cells.contains_key((x, y)) {
        cells[(x, y)].number() as u8
    } else {
        0
    }
}

/// `b` holds the numbers of the piece types.
pub open spec fn index_board(cells: Map<(int, int), Piece>, b: PieceIndexBoard) -> bool {
    forall|x: int, y: int|
        0 <= x < 9 && 0 <= y < 10 ==> #[trigger] b@[y]@[x] == index_at(cells, x, y)
}

pub fn in_board(pos: Position) -> (r: bool)
    ensures
        r == pos.valid(),
{
    pos.x >= 0 && pos.x < 9 && pos.y >= 0 && pos.y < 10
}

pub fn in_palace(color: Color, pos: Position) -> (r: bool)
    ensures
        r == palace(color, pos.x as int, pos.y as int),
{
    if pos.x < 3 || pos.x > 5 {
        return false;
    }
    match color {
        Color::Red => 7 <= pos.y && pos.y <= 9,
        Color::Black => 0 <= pos.y && pos.y <= 2,
    }
}

pub fn crossed_river(color: Color, y: i8) -> (r: bool)
    ensures
        r == over_river(color, y as int),
{
    match color {
        Color::Red => y <= 4,
        Color::Black => y >= 5,
    }
}

} // verus!

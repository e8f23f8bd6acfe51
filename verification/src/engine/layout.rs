//! The mathematical model of a mutable board: what stands where, its hash, and how moves change it.

use vstd::prelude::*;

use crate::engine::types::{Color, Move, MoveInfo, Piece, PieceKind, Position};
use crate::engine::zobrist::ZobristTable;
use crate::fen::{
    board_cell, board_fault, lemma_no_board_fault, lemma_no_fault, row_cell, row_fault, row_width,
    lemma_row_cell_source, Letters, RowFault,
};
use crate::grid::{on_board, Grid};
use crate::text::{
    decimal, is_char, is_white, joined, lemma_joined_chars, lemma_split_append, lemma_split_joined,
    lemma_split_whole, nonempty, number, parsed, split_by, white_space, words,
};

verus! {

/// A board: the pieces by square, the squares of the pieces by identity, the squares last taken by
/// the kings, the side to move, the hash with the table it is built from, the plies since the last
/// capture and the number of the move.
#[verifier::ext_equal]
pub struct Layout {
    pub cells: Map<(int, int), Piece>,
    pub places: Map<u8, Position>,
    pub red_king: Position,
    pub black_king: Position,
    pub side: Color,
    pub hash: u64,
    pub table: ZobristTable,
    pub quiet: u32,
    pub fullmove: u32,
}

/// The square number `n`.
pub open spec fn nth_square(n: int) -> (int, int) {
    (n % 9, n / 9)
}

/// The keys of the pieces on the first `n` squares, combined.
pub open spec fn keys_upto(table: ZobristTable, cells: Map<(int, int), Piece>, n: nat) -> u64
    decreases n,
{
    if n == 0 {
        0
    } else {
        let rest = keys_upto(table, cells, (n - 1) as nat);
        if cells.contains_key(nth_square(n - 1)) {
            rest ^ table.key(cells[nth_square(n - 1)], n - 1)
        } else {
            rest
        }
    }
}

/// The hash of a position: the keys of its pieces, and the side key if Black is to move.
pub open spec fn position_hash(
    table: ZobristTable,
    cells: Map<(int, int), Piece>,
    side: Color,
) -> u64 {
    match side {
        Color::Red => keys_upto(table, cells, 90),
        Color::Black => keys_upto(table, cells, 90) ^ table.side_key(),
    }
}

/// Where the king of `color` is noted after `piece` was put on `pos`.
pub open spec fn king_noted(was: Position, color: Color, piece: Piece, pos: Position) -> Position {
    if piece.kind == PieceKind::King && piece.color == color {
        pos
    } else {
        was
    }
}

impl Layout {
    pub open spec fn grid(self) -> Grid {
        self.cells.map_values(|p: Piece| p.man())
    }

    pub open spec fn king(self, color: Color) -> Position {
        match color {
            Color::Red => self.red_king,
            Color::Black => self.black_king,
        }
    }

    /// Pieces stand on the board, and `places` lists each of them by its identity and nothing else.
    pub open spec fn placed(self) -> bool {
        &&& forall|x: int, y: int| #[trigger] self.cells.contains_key((x, y)) ==> on_board(x, y)
        &&& forall|x: int, y: int| #[trigger]
            self.cells.contains_key((x, y)) ==> self.places.contains_key(
                self.cells[(x, y)].piece_id,
            ) && self.places[self.cells[(x, y)].piece_id].at() == (x, y)
        &&& forall|id: u8| #[trigger]
            self.places.contains_key(id) ==> self.cells.contains_key(self.places[id].at())
                && self.cells[self.places[id].at()].piece_id == id
    }

    /// Pieces stand on the board, `places` lists each of them by its identity and nothing else,
    /// and each side has at most one king, which stands where it is noted.
    pub open spec fn wf(self) -> bool {
        &&& self.placed()
        &&& forall|c: Color| (#[trigger] self.king(c)).valid()
        &&& forall|x: int, y: int| #[trigger]
            self.cells.contains_key((x, y)) && self.cells[(x, y)].kind == PieceKind::King
                ==> self.king(self.cells[(x, y)].color).at() == (x, y)
    }

    /// The hash is that of the position.
    pub open spec fn consistent(self) -> bool {
        self.hash == position_hash(self.table, self.cells, self.side)
    }

    pub open spec fn mover(self, mv: Move) -> Piece {
        self.cells[mv.from.at()]
    }

    pub open spec fn captured(self, mv: Move) -> Option<Piece> {
        if self.cells.contains_key(mv.to.at()) {
            Some(self.cells[mv.to.at()])
        } else {
            None
        }
    }

    /// The hash after a move: the keys of the piece on both squares, of the captured piece and of
    /// the side are switched.
    pub open spec fn hash_after(self, mv: Move) -> u64 {
        let piece = self.mover(mv);
        let lifted = self.hash ^ self.table.key(piece, mv.from.number());
        let cleared = match self.captured(mv) {
            Some(c) => lifted ^ self.table.key(c, mv.to.number()),
            None => lifted,
        };
        (cleared ^ self.table.key(piece, mv.to.number())) ^ self.table.side_key()
    }

    /// The board after the piece on the source of `mv` has gone to its target.
    pub open spec fn after(self, mv: Move) -> Layout {
        let piece = self.mover(mv);
        let lifted = self.places.remove(piece.piece_id);
        let cleared = match self.captured(mv) {
            Some(c) => lifted.remove(c.piece_id),
            None => lifted,
        };
        Layout {
            cells: self.cells.remove(mv.from.at()).insert(mv.to.at(), piece),
            places: cleared.insert(piece.piece_id, mv.to),
            red_king: king_noted(self.red_king, Color::Red, piece, mv.to),
            black_king: king_noted(self.black_king, Color::Black, piece, mv.to),
            side: self.side.opposite(),
            hash: self.hash_after(mv),
            table: self.table,
            quiet: if self.captured(mv) is Some {
                0
            } else {
                (self.quiet + 1) as u32
            },
            fullmove: if self.side == Color::Black {
                (self.fullmove + 1) as u32
            } else {
                self.fullmove
            },
        }
    }

    /// What is noted of `mv` when it is made.
    pub open spec fn info(self, mv: Move) -> MoveInfo {
        MoveInfo {
            mv,
            source_piece: self.mover(mv),
            target_piece: self.captured(mv),
            before_zobrist_hash: self.hash,
            before_no_capture_plies: self.quiet,
            before_fullmove_number: self.fullmove,
        }
    }

    /// The board after the noted move has been taken back.
    pub open spec fn undone(self, info: MoveInfo) -> Layout {
        let src = info.source_piece;
        let from = info.mv.from;
        let to = info.mv.to;
        let cells = self.cells.remove(to.at()).insert(from.at(), src);
        let places = self.places.remove(src.piece_id).insert(src.piece_id, from);
        let red = king_noted(self.red_king, Color::Red, src, from);
        let black = king_noted(self.black_king, Color::Black, src, from);
        Layout {
            cells: match info.target_piece {
                Some(c) => cells.insert(to.at(), c),
                None => cells,
            },
            places: match info.target_piece {
                Some(c) => places.insert(c.piece_id, to),
                None => places,
            },
            red_king: match info.target_piece {
                Some(c) => king_noted(red, Color::Red, c, to),
                None => red,
            },
            black_king: match info.target_piece {
                Some(c) => king_noted(black, Color::Black, c, to),
                None => black,
            },
            side: self.side.opposite(),
            hash: info.before_zobrist_hash,
            table: self.table,
            quiet: info.before_no_capture_plies,
            fullmove: info.before_fullmove_number,
        }
    }

    /// `mv` can be made: there is a piece to move, both squares are on the board, and the counters
    /// do not overflow.
    pub open spec fn can_make(self, mv: Move) -> bool {
        &&& mv.valid()
        &&& self.cells.contains_key(mv.from.at())
        &&& self.counts_fit(mv)
    }

    pub open spec fn counts_fit(self, mv: Move) -> bool {
        &&& self.captured(mv) is None ==> self.quiet < u32::MAX
        &&& self.side == Color::Black ==> self.fullmove < u32::MAX
    }
}

/// Making any move and taking it back restores the board.
pub proof fn law_undo_restores(l: Layout, mv: Move)
    requires
        l.wf(),
        mv.valid(),
        l.cells.contains_key(mv.from.at()),
    ensures
        l.after(mv).undone(l.info(mv)) == l,
{
    let u = l.after(mv).undone(l.info(mv));
    let f = mv.from.at();
    let t = mv.to.at();
    assert(l.cells.contains_key(f));
    assert(l.places[l.cells[f].piece_id] =~= mv.from);
    if l.cells.contains_key(t) {
        assert(l.places[l.cells[t].piece_id] =~= mv.to);
        if f != t {
            assert(l.cells[f].piece_id != l.cells[t].piece_id);
        }
    }
    assert(u.cells =~= l.cells);
    assert(u.places =~= l.places);
    assert(l.king(Color::Red).valid());
    if l.cells[f].kind == PieceKind::King {
        assert(l.king(l.cells[f].color) =~= mv.from);
    }
    if l.cells.contains_key(t) && l.cells[t].kind == PieceKind::King {
        assert(l.king(l.cells[t].color) =~= mv.to);
    }
}

/// Making a move keeps a board well formed.
pub proof fn law_moves_keep_boards_well_formed(l: Layout, mv: Move)
    requires
        l.wf(),
        mv.valid(),
        l.cells.contains_key(mv.from.at()),
    ensures
        l.after(mv).wf(),
{
    let n = l.after(mv);
    let f = mv.from.at();
    let t = mv.to.at();
    let piece = l.cells[f];
    assert forall|x: int, y: int| #[trigger] n.cells.contains_key((x, y)) implies on_board(x, y)
        && n.places.contains_key(n.cells[(x, y)].piece_id) && n.places[n.cells[(x, y)].piece_id].at()
        == (x, y) && (n.cells[(x, y)].kind == PieceKind::King ==> n.king(
        n.cells[(x, y)].color,
    ).at() == (x, y)) by {
        if (x, y) != t {
            assert(l.cells.contains_key((x, y)));
            assert(l.cells[(x, y)].piece_id != piece.piece_id);
            if l.cells.contains_key(t) {
                assert(l.cells[(x, y)].piece_id != l.cells[t].piece_id);
            }
            if l.cells[(x, y)].kind == PieceKind::King && piece.kind == PieceKind::King {
                assert(l.cells[(x, y)].color != piece.color);
            }
        }
    }
    assert forall|id: u8| #[trigger] n.places.contains_key(id) implies n.cells.contains_key(
        n.places[id].at(),
    ) && n.cells[n.places[id].at()].piece_id == id by {
        if id != piece.piece_id {
            assert(l.places.contains_key(id));
        }
    }
    assert forall|c: Color| (#[trigger] n.king(c)).valid() by {
        assert(l.king(c).valid());
    }
}

proof fn lemma_xor_swap(a: u64, b: u64, c: u64)
    ensures
        (a ^ b) ^ c == (a ^ c) ^ b,
        (a ^ b) ^ b == a,
{
    assert((a ^ b) ^ c == (a ^ c) ^ b) by (bit_vector);
    assert((a ^ b) ^ b == a) by (bit_vector);
}

/// Two arrangements that agree on the first `n` squares have the same keys there.
proof fn lemma_keys_agree(
    table: ZobristTable,
    a: Map<(int, int), Piece>,
    b: Map<(int, int), Piece>,
    n: nat,
)
    requires
        n <= 90,
        forall|k: int|
            0 <= k < n ==> a.contains_key(#[trigger] nth_square(k)) == b.contains_key(nth_square(k))
                && (a.contains_key(nth_square(k)) ==> a[nth_square(k)] == b[nth_square(k)]),
    ensures
        keys_upto(table, a, n) == keys_upto(table, b, n),
    decreases n,
{
    if n > 0 {
        lemma_keys_agree(table, a, b, (n - 1) as nat);
        assert(a.contains_key(nth_square(n - 1)) == b.contains_key(nth_square(n - 1)));
    }
}

/// Putting a piece on an empty square adds its key.
pub(crate) proof fn lemma_keys_insert(
    table: ZobristTable,
    cells: Map<(int, int), Piece>,
    k: int,
    piece: Piece,
    n: nat,
)
    requires
        0 <= k < n <= 90,
        !cells.contains_key(nth_square(k)),
    ensures
        keys_upto(table, cells.insert(nth_square(k), piece), n) == keys_upto(table, cells, n)
            ^ table.key(piece, k),
    decreases n,
{
    let m = (n - 1) as nat;
    let more = cells.insert(nth_square(k), piece);
    if k == n - 1 {
        lemma_keys_agree(table, cells, more, m);
    } else {
        lemma_keys_insert(table, cells, k, piece, m);
        assert(nth_square(n - 1) != nth_square(k));
        let old = keys_upto(table, cells, m);
        if cells.contains_key(nth_square(n - 1)) {
            lemma_xor_swap(old, table.key(piece, k), table.key(cells[nth_square(n - 1)], n - 1));
        }
    }
}

/// A move that leaves its square keeps the hash that of the position.
pub proof fn law_hash_follows_moves(l: Layout, mv: Move)
    requires
        l.wf(),
        l.consistent(),
        mv.valid(),
        l.cells.contains_key(mv.from.at()),
        mv.from != mv.to,
    ensures
        l.after(mv).consistent(),
{
    let f = mv.from.at();
    let t = mv.to.at();
    let fk = mv.from.number();
    let tk = mv.to.number();
    assert(nth_square(fk) == f);
    assert(nth_square(tk) == t);
    let piece = l.cells[f];
    let table = l.table;
    let base = l.cells.remove(f).remove(t);
    let kp = table.key(piece, fk);
    let kt = table.key(piece, tk);
    let ks = table.side_key();
    let h = keys_upto(table, base, 90);
    // The position before the move is the base with the captured piece and the moving piece.
    lemma_keys_insert(table, base, tk, piece, 90);
    assert(base.insert(t, piece) =~= l.after(mv).cells);
    match l.captured(mv) {
        Some(c) => {
            let kc = table.key(c, tk);
            lemma_keys_insert(table, base, tk, c, 90);
            lemma_keys_insert(table, base.insert(t, c), fk, piece, 90);
            assert(base.insert(t, c).insert(f, piece) =~= l.cells);
            assert(((h ^ kc) ^ kp) ^ kp ^ kc == h) by (bit_vector);
            assert((((((h ^ kc) ^ kp) ^ kp) ^ kc) ^ kt) ^ ks == (h ^ kt) ^ ks) by (bit_vector);
            assert(((((((h ^ kc) ^ kp) ^ ks) ^ kp) ^ kc) ^ kt) ^ ks == h ^ kt) by (bit_vector);
        },
        None => {
            lemma_keys_insert(table, base, fk, piece, 90);
            assert(base.insert(f, piece) =~= l.cells);
            assert((((h ^ kp) ^ kp) ^ kt) ^ ks == (h ^ kt) ^ ks) by (bit_vector);
            assert(((((h ^ kp) ^ ks) ^ kp) ^ kt) ^ ks == h ^ kt) by (bit_vector);
        },
    }
}

/// The square of the last king of `color`, in reading order, among the first `n` squares, or the
/// top left corner if there is none.
pub open spec fn last_king(cells: Map<(int, int), Piece>, color: Color, n: nat) -> Position
    decreases n,
{
    if n == 0 {
        Position { x: 0, y: 0 }
    } else {
        let (x, y) = nth_square(n - 1);
        if cells.contains_key((x, y)) && cells[(x, y)].kind == PieceKind::King && cells[(
            x,
            y,
        )].color == color {
            Position { x: x as i8, y: y as i8 }
        } else {
            last_king(cells, color, (n - 1) as nat)
        }
    }
}

/// The rows of the board field of a FEN string.
pub open spec fn fen_rows(fen: Seq<char>) -> Seq<Seq<char>> {
    split_by(words(fen)[0], is_char('/'))
}

/// The pieces that the board field describes, numbered from 1 in reading order.
pub open spec fn fen_cells(rows: Seq<Seq<char>>) -> Map<(int, int), Piece> {
    Map::new(
        |s: (int, int)| on_board(s.0, s.1) && board_cell(Letters::Wide, rows, s.0, s.1) is Some,
        |s: (int, int)|
            {
                let (n, m) = board_cell(Letters::Wide, rows, s.0, s.1).unwrap();
                Piece { piece_id: (n + 1) as u8, color: m.color, kind: m.kind }
            },
    )
}

/// No row of the board field that is reached puts a man beyond the last file.
pub open spec fn fen_fits(fen: Seq<char>) -> bool {
    words(fen).len() > 0 && fen_rows(fen).len() == 10 ==> !(board_fault(
        Letters::Wide,
        fen_rows(fen),
        0,
    ) matches Some((y, RowFault::Overrun)))
}

/// The message with which the rows of a board are refused; `None` if they are accepted.
pub open spec fn board_error(rows: Seq<Seq<char>>) -> Option<Seq<char>> {
    if rows.len() != 10 {
        Some("FEN should have 10 rows, got "@ + decimal(rows.len()))
    } else {
        match board_fault(Letters::Wide, rows, 0) {
            Some((y, RowFault::Letter(c))) => Some("unknown FEN char: "@.push(c)),
            Some((y, RowFault::Width(w))) => Some(
                "row "@ + decimal(y as nat) + " has width "@ + decimal(w as nat) + ", expected 9"@,
            ),
            Some((y, RowFault::Overrun)) => None,
            None => None,
        }
    }
}

/// The message with which a FEN string is refused; `None` if it is accepted.
pub open spec fn fen_error(fen: Seq<char>) -> Option<Seq<char>> {
    if words(fen).len() == 0 {
        Some("empty FEN string"@)
    } else {
        board_error(fen_rows(fen))
    }
}

/// The number in field `i` of a FEN string, or `default` if it is missing or not a number.
pub open spec fn fen_number(fen: Seq<char>, i: int, default: u32) -> u32 {
    let w = words(fen);
    if i < w.len() {
        match parsed(w[i], u32::MAX as int) {
            Some(n) => n as u32,
            None => default,
        }
    } else {
        default
    }
}

/// Black moves if the second field is `b`, else Red.
pub open spec fn fen_side(fen: Seq<char>) -> Color {
    if words(fen).len() > 1 && words(fen)[1] == seq!['b'] {
        Color::Black
    } else {
        Color::Red
    }
}

/// At most one king of each side stands on the board.
pub open spec fn single_kings(cells: Map<(int, int), Piece>) -> bool {
    forall|x: int, y: int, x2: int, y2: int| #[trigger]
        cells.contains_key((x, y)) && #[trigger] cells.contains_key((x2, y2)) && cells[(x, y)].kind
            == PieceKind::King && cells[(x2, y2)].kind == PieceKind::King && cells[(x, y)].color
            == cells[(x2, y2)].color ==> (x, y) == (x2, y2)
}

/// `l` is the board that an accepted FEN string describes.
pub open spec fn fen_describes(fen: Seq<char>, l: Layout) -> bool {
    &&& fen_error(fen) is None
    &&& l.cells == fen_cells(fen_rows(fen))
    &&& l.side == fen_side(fen)
    &&& l.red_king == last_king(l.cells, Color::Red, 90)
    &&& l.black_king == last_king(l.cells, Color::Black, 90)
    &&& l.quiet == fen_number(fen, 4, 0)
    &&& l.fullmove == fen_number(fen, 5, 1)
    &&& l.consistent()
    &&& l.table.is_shared()
    &&& l.placed()
    &&& single_kings(l.cells) ==> l.wf()
}

/// `last_king` finds the king, on the board, wherever there is one.
pub(crate) proof fn lemma_last_king(cells: Map<(int, int), Piece>, color: Color, n: nat)
    requires
        n <= 90,
    ensures
        last_king(cells, color, n).valid(),
        forall|x: int, y: int| #[trigger]
            cells.contains_key((x, y)) && on_board(x, y) && y * 9 + x < n && cells[(x, y)].kind
                == PieceKind::King && cells[(x, y)].color == color ==> {
                let k = last_king(cells, color, n).at();
                cells.contains_key(k) && cells[k].kind == PieceKind::King && cells[k].color == color
            },
    decreases n,
{
    if n > 0 {
        lemma_last_king(cells, color, (n - 1) as nat);
    }
}

/// The rows of the starting board.
pub open spec fn start_rows() -> Seq<Seq<char>> {
    seq![
        seq!['r', 'n', 'b', 'a', 'k', 'a', 'b', 'n', 'r'],
        seq!['9'],
        seq!['1', 'c', '5', 'c', '1'],
        seq!['p', '1', 'p', '1', 'p', '1', 'p', '1', 'p'],
        seq!['9'],
        seq!['9'],
        seq!['P', '1', 'P', '1', 'P', '1', 'P', '1', 'P'],
        seq!['1', 'C', '5', 'C', '1'],
        seq!['9'],
        seq!['R', 'N', 'B', 'A', 'K', 'A', 'B', 'N', 'R'],
    ]
}

/// The FEN string of the starting board has these rows, names Red and counts nothing, and is
/// accepted; each side has one king.
pub(crate) proof fn lemma_start_fen()
    ensures
        ({
            let fen = "rnbakabnr/9/1c5c1/p1p1p1p1p/9/9/P1P1P1P1P/1C5C1/9/RNBAKABNR w - - 0 1"@;
            &&& fen_fits(fen)
            &&& fen_error(fen) is None
            &&& fen_rows(fen) == start_rows()
            &&& fen_side(fen) == Color::Red
            &&& fen_number(fen, 4, 0) == 0
            &&& fen_number(fen, 5, 1) == 1
            &&& single_kings(fen_cells(fen_rows(fen)))
        }),
{
    let fen = "rnbakabnr/9/1c5c1/p1p1p1p1p/9/9/P1P1P1P1P/1C5C1/9/RNBAKABNR w - - 0 1"@;
    let rows = start_rows();
    let board = joined(rows, '/');
    lemma_start_words();
    assert forall|y: int, i: int| 0 <= y < 10 && 0 <= i < rows[y].len() implies #[trigger] rows[y][i]
        != '/' by {}
    lemma_split_joined(rows, '/');
    assert(words(fen)[0] == board);
    assert(words(fen)[1] == seq!['w']);
    assert(seq!['w'][0] != seq!['b'][0]);
    assert(words(fen)[4] == seq!['0']);
    assert(words(fen)[5] == seq!['1']);
    assert(number(seq!['0']) == 0 && number(seq!['1']) == 1) by {
        reveal_with_fuel(number, 2);
        assert(seq!['0'].drop_last() =~= Seq::empty());
        assert(seq!['1'].drop_last() =~= Seq::empty());
    }
    assert forall|y: int| 0 <= y < 10 implies row_fault(Letters::Wide, #[trigger] rows[y], 0)
        is None by {
        reveal_with_fuel(row_width, 10);
        lemma_no_fault(Letters::Wide, rows[y], 0);
    }
    lemma_no_board_fault(Letters::Wide, rows, 0);
    lemma_start_kings();
}

/// The FEN string of the starting board, put together from its rows and the other fields.
proof fn lemma_start_text()
    ensures
        "rnbakabnr/9/1c5c1/p1p1p1p1p/9/9/P1P1P1P1P/1C5C1/9/RNBAKABNR w - - 0 1"@ == joined(
            start_rows(),
            '/',
        ).push(' ') + seq!['w', ' ', '-', ' ', '-', ' ', '0', ' ', '1'],
        joined(start_rows(), '/').len() > 0,
{
    let fen = joined(start_rows(), '/').push(' ') + seq![
        'w',
        ' ',
        '-',
        ' ',
        '-',
        ' ',
        '0',
        ' ',
        '1',
    ];
    reveal_strlit("rnbakabnr/9/1c5c1/p1p1p1p1p/9/9/P1P1P1P1P/1C5C1/9/RNBAKABNR w - - 0 1");
    reveal_with_fuel(joined, 11);
    assert(fen =~= "rnbakabnr/9/1c5c1/p1p1p1p1p/9/9/P1P1P1P1P/1C5C1/9/RNBAKABNR w - - 0 1"@);
}

/// The fields after the board.
proof fn lemma_start_tail()
    ensures
        split_by(seq!['w', ' ', '-', ' ', '-', ' ', '0', ' ', '1'], is_white()) =~= seq![
            seq!['w'],
            seq!['-'],
            seq!['-'],
            seq!['0'],
            seq!['1'],
        ],
{
    let a = seq!['w'];
    let b = seq!['w', ' ', '-'];
    let c = seq!['w', ' ', '-', ' ', '-'];
    let d = seq!['w', ' ', '-', ' ', '-', ' ', '0'];
    let dash = seq!['-'];
    let zero = seq!['0'];
    let one = seq!['1'];
    lemma_split_whole(a, is_white());
    lemma_split_whole(dash, is_white());
    lemma_split_whole(zero, is_white());
    lemma_split_whole(one, is_white());
    lemma_split_append(a, ' ', dash, is_white());
    assert(a.push(' ') + dash =~= b);
    lemma_split_append(b, ' ', dash, is_white());
    assert(b.push(' ') + dash =~= c);
    lemma_split_append(c, ' ', zero, is_white());
    assert(c.push(' ') + zero =~= d);
    lemma_split_append(d, ' ', one, is_white());
    assert(d.push(' ') + one =~= seq!['w', ' ', '-', ' ', '-', ' ', '0', ' ', '1']);
}

/// The words of the FEN string of the starting board.
proof fn lemma_start_words()
    ensures
        words("rnbakabnr/9/1c5c1/p1p1p1p1p/9/9/P1P1P1P1P/1C5C1/9/RNBAKABNR w - - 0 1"@) =~= seq![
            joined(start_rows(), '/'),
            seq!['w'],
            seq!['-'],
            seq!['-'],
            seq!['0'],
            seq!['1'],
        ],
{
    let rows = start_rows();
    let board = joined(rows, '/');
    lemma_start_text();
    lemma_start_tail();
    let p = |c: char| !white_space(c);
    assert forall|y: int, i: int| 0 <= y < rows.len() && 0 <= i < rows[y].len() implies p(
        #[trigger] rows[y][i],
    ) by {}
    lemma_joined_chars(rows, '/', p);
    assert forall|i: int| 0 <= i < board.len() implies !is_white()(#[trigger] board[i]) by {
        assert(p(board[i]));
    }
    lemma_split_whole(board, is_white());
    let tail = seq!['w', ' ', '-', ' ', '-', ' ', '0', ' ', '1'];
    lemma_split_append(board, ' ', tail, is_white());
    let all = seq![board] + split_by(tail, is_white());
    assert forall|i: int| 0 <= i < all.len() implies nonempty()(#[trigger] all[i]) by {}
    lemma_filter_keeps(all, nonempty());
}

/// Each side has one king on the starting board.
proof fn lemma_start_kings()
    ensures
        single_kings(fen_cells(start_rows())),
{
    let rows = start_rows();
    let cells = fen_cells(rows);
    assert forall|x: int, y: int| #[trigger]
        cells.contains_key((x, y)) && cells[(x, y)].kind == PieceKind::King implies (x, y) == (
    if cells[(x, y)].color == Color::Red {
        (4int, 9int)
    } else {
        (4int, 0int)
    }) by {
        lemma_row_cell_source(rows[y], x);
        let c = row_cell(rows[y], x).unwrap().0;
        let i = choose|i: int|
            0 <= i < rows[y].len() && #[trigger] rows[y][i] == c && row_width(rows[y].take(i)) == x;
        assert(i == 4 && (y == 0 || y == 9));
        assert(row_width(rows[y].take(4)) == 4) by {
            reveal_with_fuel(row_width, 5);
        }
    }
}

proof fn lemma_filter_keeps<A>(s: Seq<A>, p: spec_fn(A) -> bool)
    requires
        forall|i: int| 0 <= i < s.len() ==> p(#[trigger] s[i]),
    ensures
        s.filter(p) == s,
    decreases s.len(),
{
    reveal(Seq::filter);
    if s.len() > 0 {
        let front = s.drop_last();
        assert forall|i: int| 0 <= i < front.len() implies p(#[trigger] front[i]) by {
            assert(p(s[i]));
        }
        lemma_filter_keeps(front, p);
        assert(front.push(s.last()) =~= s);
    }
}

} // verus!

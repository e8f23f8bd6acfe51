//! Pieces with identities, moves, game results and the numbering of actions.

use vstd::prelude::*;

use crate::grid::{on_board, Man};
use crate::kernel::constants::{ACTION_SPACE_SIZE, BOARD_WIDTH, SQUARE_COUNT};
use crate::text::text_with;

pub use crate::grid::{crossed_river, in_board, in_palace};
pub use crate::types::{Color, PieceKind};

verus! {

impl Color {
    pub open spec fn side_char(self) -> char {
        match self {
            Color::Red => 'r',
            Color::Black => 'b',
        }
    }

    /// The side that a field of a FEN string names, if it names one.
    pub open spec fn from_side(value: Seq<char>) -> Option<Color> {
        if value == seq!['r'] {
            Some(Color::Red)
        } else if value == seq!['b'] {
            Some(Color::Black)
        } else {
            None
        }
    }

    /// The letter of this side in a FEN string.
    pub fn fen_side(self) -> (r: char)
        ensures
            r == self.side_char(),
    {
        match self {
            Color::Red => 'r',
            Color::Black => 'b',
        }
    }

    pub fn from_fen_side(value: &str) -> (r: Result<Color, String>)
        ensures
            match r {
                Ok(c) => Color::from_side(value@) == Some(c),
                Err(e) => Color::from_side(value@) is None && e@ == "Invalid side to move: "@
                    + value@,
            },
    {
        let v = crate::text::chars_of(value);
        if v.len() == 1 && v[0] == 'r' {
            assert(v@ =~= seq!['r']);
            Ok(Color::Red)
        } else if v.len() == 1 && v[0] == 'b' {
            assert(v@ =~= seq!['b']);
            Ok(Color::Black)
        } else {
            Err(text_with("Invalid side to move: ", &v))
        }
    }

    pub open spec fn name(self) -> Seq<char> {
        match self {
            Color::Red => "red"@,
            Color::Black => "black"@,
        }
    }

    pub fn as_str(self) -> (r: &'static str)
        ensures
            r@ == self.name(),
    {
        match self {
            Color::Red => "red",
            Color::Black => "black",
        }
    }
}

impl PieceKind {
    /// The lower-case letter of this kind.
    pub open spec fn letter(self) -> char {
        match self {
            PieceKind::King => 'k',
            PieceKind::Advisor => 'a',
            PieceKind::Elephant => 'e',
            PieceKind::Horse => 'h',
            PieceKind::Rook => 'r',
            PieceKind::Cannon => 'c',
            PieceKind::Pawn => 'p',
        }
    }

    /// The upper-case letter of this kind.
    pub open spec fn capital(self) -> char {
        match self {
            PieceKind::King => 'K',
            PieceKind::Advisor => 'A',
            PieceKind::Elephant => 'E',
            PieceKind::Horse => 'H',
            PieceKind::Rook => 'R',
            PieceKind::Cannon => 'C',
            PieceKind::Pawn => 'P',
        }
    }

    /// The kind whose letter, in either case, is `value`.
    pub fn from_fen_char(value: char) -> (r: Option<PieceKind>)
        ensures
            match r {
                Some(k) => value == k.letter() || value == k.capital(),
                None => forall|k: PieceKind| value != #[trigger] k.letter() && value != k.capital(),
            },
    {
        match value {
            'k' | 'K' => Some(PieceKind::King),
            'a' | 'A' => Some(PieceKind::Advisor),
            'e' | 'E' => Some(PieceKind::Elephant),
            'h' | 'H' => Some(PieceKind::Horse),
            'r' | 'R' => Some(PieceKind::Rook),
            'c' | 'C' => Some(PieceKind::Cannon),
            'p' | 'P' => Some(PieceKind::Pawn),
            _ => None,
        }
    }

    pub fn fen_char(self) -> (r: char)
        ensures
            r == self.letter(),
    {
        match self {
            PieceKind::King => 'k',
            PieceKind::Advisor => 'a',
            PieceKind::Elephant => 'e',
            PieceKind::Horse => 'h',
            PieceKind::Rook => 'r',
            PieceKind::Cannon => 'c',
            PieceKind::Pawn => 'p',
        }
    }
}

/// A man with an identity that it keeps throughout a game.
#[derive(Debug, Clone, Copy, PartialEq, Eq, Hash, Structural)]
pub struct Piece {
    pub piece_id: u32,
    pub color: Color,
    pub kind: PieceKind,
}

impl Piece {
    pub open spec fn man(self) -> Man {
        Man { color: self.color, kind: self.kind }
    }

    /// The letter of a man: a capital for Red.
    pub open spec fn man_char(man: Man) -> char {
        match man.color {
            Color::Red => man.kind.capital(),
            Color::Black => man.kind.letter(),
        }
    }

    pub fn from_fen(piece_id: u32, value: char) -> (r: Result<Piece, String>)
        ensures
            match r {
                Ok(p) => p.piece_id == piece_id && value == Piece::man_char(p.man()),
                Err(e) => (forall|m: Man| value != #[trigger] Piece::man_char(m)) && e@
                    == "Invalid piece: "@.push(value),
            },
    {
        match PieceKind::from_fen_char(value) {
            Some(kind) => {
                let color = if 'A' <= value && value <= 'Z' {
                    Color::Red
                } else {
                    Color::Black
                };
                Ok(Piece { piece_id, color, kind })
            },
            None => {
                let mut e = "Invalid piece: ".to_string();
                e.push(value);
                proof {
                    assert forall|m: Man| value != #[trigger] Piece::man_char(m) by {
                        assert(value != m.kind.letter() && value != m.kind.capital());
                    }
                }
                Err(e)
            },
        }
    }

    pub fn to_fen(self) -> (r: char)
        ensures
            r == Piece::man_char(self.man()),
    {
        match self.color {
            Color::Black => self.kind.fen_char(),
            Color::Red => match self.kind {
                PieceKind::King => 'K',
                PieceKind::Advisor => 'A',
                PieceKind::Elephant => 'E',
                PieceKind::Horse => 'H',
                PieceKind::Rook => 'R',
                PieceKind::Cannon => 'C',
                PieceKind::Pawn => 'P',
            },
        }
    }

    pub fn is_same_kind_as(self, other: &Piece) -> (r: bool)
        ensures
            r == (self.kind == other.kind),
    {
        self.kind == other.kind
    }
}

/// A move from `(sx, sy)` to `(tx, ty)`.
#[derive(Debug, Clone, Copy, PartialEq, Eq, Hash, Structural)]
pub struct Move {
    pub sx: i32,
    pub sy: i32,
    pub tx: i32,
    pub ty: i32,
}

impl Move {
    /// Both ends lie on the board.
    pub open spec fn on_board(self) -> bool {
        on_board(self.sx as int, self.sy as int) && on_board(self.tx as int, self.ty as int)
    }

    pub fn new(sx: i32, sy: i32, tx: i32, ty: i32) -> (r: Move)
        ensures
            r == (Move { sx, sy, tx, ty }),
    {
        Move { sx, sy, tx, ty }
    }

    pub fn source(self) -> (r: (i32, i32))
        ensures
            r == (self.sx, self.sy),
    {
        (self.sx, self.sy)
    }

    pub fn target(self) -> (r: (i32, i32))
        ensures
            r == (self.tx, self.ty),
    {
        (self.tx, self.ty)
    }
}

#[derive(Debug, Clone, Copy, PartialEq, Eq, Structural)]
pub enum GameStatusReason {
    Checkmate,
    Stalemate,
    PerpetualCheck,
    PerpetualChase,
    MutualPerpetual,
    FiftyMove,
    MaxMoves,
}

impl GameStatusReason {
    pub open spec fn name(self) -> Seq<char> {
        match self {
            GameStatusReason::Checkmate => "checkmate"@,
            GameStatusReason::Stalemate => "stalemate"@,
            GameStatusReason::PerpetualCheck => "perpetual_check"@,
            GameStatusReason::PerpetualChase => "perpetual_chase"@,
            GameStatusReason::MutualPerpetual => "mutual_perpetual"@,
            GameStatusReason::FiftyMove => "fifty_move"@,
            GameStatusReason::MaxMoves => "max_moves"@,
        }
    }

    pub fn as_str(self) -> (r: &'static str)
        ensures
            r@ == self.name(),
    {
        match self {
            GameStatusReason::Checkmate => "checkmate",
            GameStatusReason::Stalemate => "stalemate",
            GameStatusReason::PerpetualCheck => "perpetual_check",
            GameStatusReason::PerpetualChase => "perpetual_chase",
            GameStatusReason::MutualPerpetual => "mutual_perpetual",
            GameStatusReason::FiftyMove => "fifty_move",
            GameStatusReason::MaxMoves => "max_moves",
        }
    }
}

#[derive(Debug, Clone, Copy, PartialEq, Eq, Structural)]
pub struct GameStatus {
    pub is_terminal: bool,
    pub reason: Option<GameStatusReason>,
    pub winner: Option<Color>,
}

impl GameStatus {
    pub open spec fn spec_ongoing() -> GameStatus {
        GameStatus { is_terminal: false, reason: None, winner: None }
    }

    pub open spec fn spec_terminal(reason: GameStatusReason, winner: Option<Color>) -> GameStatus {
        GameStatus { is_terminal: true, reason: Some(reason), winner }
    }

    pub fn ongoing() -> (r: GameStatus)
        ensures
            r == GameStatus::spec_ongoing(),
    {
        GameStatus { is_terminal: false, reason: None, winner: None }
    }

    pub fn terminal(reason: GameStatusReason, winner: Option<Color>) -> (r: GameStatus)
        ensures
            r == GameStatus::spec_terminal(reason, winner),
    {
        GameStatus { is_terminal: true, reason: Some(reason), winner }
    }
}

/// The number of a square, counted along the ranks from the top.
pub open spec fn square_number(x: int, y: int) -> int {
    y * 9 + x
}

/// The number of the action that plays `mv`.
pub open spec fn action_number(mv: Move) -> int {
    square_number(mv.sx as int, mv.sy as int) * 90 + square_number(mv.tx as int, mv.ty as int)
}

pub fn square_index(x: i32, y: i32) -> (r: usize)
    requires
        0 <= x,
        0 <= y,
        square_number(x as int, y as int) <= usize::MAX,
    ensures
        r == square_number(x as int, y as int),
{
    (y as usize) * BOARD_WIDTH + (x as usize)
}

pub fn move_to_action_id(mv: Move) -> (r: usize)
    requires
        0 <= mv.sx,
        0 <= mv.sy,
        0 <= mv.tx,
        0 <= mv.ty,
        action_number(mv) <= usize::MAX,
    ensures
        r == action_number(mv),
{
    square_index(mv.sx, mv.sy) * SQUARE_COUNT + square_index(mv.tx, mv.ty)
}

/// The move with an action number.
pub open spec fn move_numbered(id: int) -> Move {
    Move {
        sx: (id / 90 % 9) as i32,
        sy: (id / 90 / 9) as i32,
        tx: (id % 90 % 9) as i32,
        ty: (id % 90 / 9) as i32,
    }
}

/// How many entries of a mask are true.
pub open spec fn count_true(mask: Seq<bool>) -> int
    decreases mask.len(),
{
    if mask.len() == 0 {
        0
    } else {
        count_true(mask.drop_last()) + if mask.last() {
            1int
        } else {
            0
        }
    }
}

pub(crate) proof fn lemma_count_none(mask: Seq<bool>)
    requires
        forall|i: int| 0 <= i < mask.len() ==> !#[trigger] mask[i],
    ensures
        count_true(mask) == 0,
    decreases mask.len(),
{
    if mask.len() > 0 {
        lemma_count_none(mask.drop_last());
    }
}

pub(crate) proof fn lemma_count_one_more(mask: Seq<bool>, k: int)
    requires
        0 <= k < mask.len(),
        !mask[k],
    ensures
        count_true(mask.update(k, true)) == count_true(mask) + 1,
    decreases mask.len(),
{
    let more = mask.update(k, true);
    if k == mask.len() - 1 {
        assert(more.drop_last() =~= mask.drop_last());
    } else {
        lemma_count_one_more(mask.drop_last(), k);
        assert(more.drop_last() =~= mask.drop_last().update(k, true));
    }
}

pub fn action_id_to_move(action_id: usize) -> (r: Move)
    requires
        action_id < ACTION_SPACE_SIZE,
    ensures
        r.on_board(),
        action_number(r) == action_id,
        r == move_numbered(action_id as int),
{
    let source: usize = action_id / SQUARE_COUNT;
    let target: usize = action_id % SQUARE_COUNT;
    let sy: i32 = (source / BOARD_WIDTH) as i32;
    let sx: i32 = (source % BOARD_WIDTH) as i32;
    let ty: i32 = (target / BOARD_WIDTH) as i32;
    let tx: i32 = (target % BOARD_WIDTH) as i32;
    Move::new(sx, sy, tx, ty)
}

/// Distinct moves on the board have distinct action numbers, all below the size of the action
/// space; with the contracts of the two conversions this makes them inverse to each other.
pub proof fn law_action_numbers(a: Move, b: Move)
    requires
        a.on_board(),
        b.on_board(),
    ensures
        0 <= action_number(a) < ACTION_SPACE_SIZE,
        action_number(a) == action_number(b) ==> a == b,
{
    lemma_action_digits(a);
    lemma_action_digits(b);
}

/// Every action number is that of its move, which lies on the board.
pub proof fn law_moves_numbered(id: int)
    requires
        0 <= id < ACTION_SPACE_SIZE,
    ensures
        move_numbered(id).on_board(),
        action_number(move_numbered(id)) == id,
{
}

/// The squares of a move can be read off its action number.
proof fn lemma_action_digits(mv: Move)
    requires
        mv.on_board(),
    ensures
        0 <= action_number(mv) < ACTION_SPACE_SIZE,
        mv.sx == (action_number(mv) / 90) % 9,
        mv.sy == (action_number(mv) / 90) / 9,
        mv.tx == (action_number(mv) % 90) % 9,
        mv.ty == (action_number(mv) % 90) / 9,
{
    let s = square_number(mv.sx as int, mv.sy as int);
    let t = square_number(mv.tx as int, mv.ty as int);
    assert(0 <= s < 90);
    assert(0 <= t < 90);
    assert(action_number(mv) / 90 == s);
    assert(action_number(mv) % 90 == t);
}

} // verus!

//! Pieces, squares, moves and game results.

use vstd::prelude::*;

use crate::engine::constants::BOARD_WIDTH;
use crate::grid::{on_board, Man};

pub use crate::types::{ByColor, Color, PieceKind};

verus! {

/// The number of a move as seen from the side that plays it.
pub type ActionId = i32;

/// The type of a piece as a number: 1 to 7 for Red, 8 to 14 for Black.
pub type PieceIndex = u8;

impl PieceKind {
    /// The number of a kind, from 1 to 7.
    pub open spec fn number(self) -> int {
        match self {
            PieceKind::King => 1,
            PieceKind::Advisor => 2,
            PieceKind::Elephant => 3,
            PieceKind::Horse => 4,
            PieceKind::Rook => 5,
            PieceKind::Cannon => 6,
            PieceKind::Pawn => 7,
        }
    }
}

/// A man with an identity that it keeps throughout a game.
#[derive(Debug, Clone, Copy, PartialEq, Eq, Hash, Structural)]
pub struct Piece {
    pub piece_id: u8,
    pub color: Color,
    pub kind: PieceKind,
}

impl Piece {
    pub open spec fn man(self) -> Man {
        Man { color: self.color, kind: self.kind }
    }

    /// The number of the piece's type, from 1 to 14.
    pub open spec fn number(self) -> int {
        match self.color {
            Color::Red => self.kind.number(),
            Color::Black => self.kind.number() + 7,
        }
    }

    pub fn is_same_kind_as(self, other: &Piece) -> (r: bool)
        ensures
            r == (self.kind == other.kind),
    {
        self.kind == other.kind
    }

    pub fn is_king(&self) -> (r: bool)
        ensures
            r == (self.kind == PieceKind::King),
    {
        self.kind == PieceKind::King
    }

    pub fn to_index(&self) -> (r: PieceIndex)
        ensures
            r == self.number(),
            1 <= r <= 14,
    {
        let n: u8 = match self.kind {
            PieceKind::King => 1,
            PieceKind::Advisor => 2,
            PieceKind::Elephant => 3,
            PieceKind::Horse => 4,
            PieceKind::Rook => 5,
            PieceKind::Cannon => 6,
            PieceKind::Pawn => 7,
        };
        match self.color {
            Color::Red => n,
            Color::Black => n + 7,
        }
    }
}

/// A square, on the board or beside it.
#[derive(Debug, Clone, Copy, PartialEq, Eq, Hash, Structural)]
pub struct Position {
    pub x: i8,
    pub y: i8,
}

impl Position {
    pub open spec fn valid(self) -> bool {
        on_board(self.x as int, self.y as int)
    }

    /// The square as a pair of coordinates.
    pub open spec fn at(self) -> (int, int) {
        (self.x as int, self.y as int)
    }

    pub open spec fn number(self) -> int {
        self.y * 9 + self.x
    }

    pub fn new(x: i8, y: i8) -> (r: Position)
        ensures
            r == (Position { x, y }),
    {
        Position { x, y }
    }

    /// The square `x` files to the right and `y` ranks down.
    pub fn add(&self, x: i8, y: i8) -> (r: Position)
        requires
            i8::MIN <= self.x + x <= i8::MAX,
            i8::MIN <= self.y + y <= i8::MAX,
        ensures
            r.x == self.x + x,
            r.y == self.y + y,
    {
        Position { x: self.x + x, y: self.y + y }
    }

    /// The number of the square, counted along the ranks from the top.
    pub fn to_index(&self) -> (r: i32)
        ensures
            r == self.number(),
            self.valid() ==> 0 <= r < 90,
    {
        (self.y as i32) * BOARD_WIDTH + (self.x as i32)
    }
}

#[derive(Debug, Clone, Copy, PartialEq, Eq, Hash, Structural)]
pub struct Move {
    pub from: Position,
    pub to: Position,
}

impl Move {
    /// Both ends lie on the board.
    pub open spec fn valid(self) -> bool {
        self.from.valid() && self.to.valid()
    }

    pub fn new(from: Position, to: Position) -> (r: Move)
        ensures
            r == (Move { from, to }),
    {
        Move { from, to }
    }

    /// The move back.
    pub fn opposite(self) -> (r: Move)
        ensures
            r == (Move { from: self.to, to: self.from }),
    {
        Move { from: self.to, to: self.from }
    }
}

#[derive(Debug, Clone, Copy, PartialEq, Eq, Structural)]
pub enum GameStatusReason {
    Checkmate,
    /// The side to move has no legal move and is not in check.
    Stalemate,
    PerpetualCheck,
    PerpetualChase,
    /// Both sides repeat with equal conduct.
    MutualPerpetual,
    /// Too many plies without a capture.
    MaxNonCapture,
    MaxMoves,
}

impl GameStatusReason {
    pub open spec fn name(self) -> Seq<char> {
        match self {
            GameStatusReason::Checkmate => "checkmate"@,
            GameStatusReason::Stalemate => "stalemate"@,
            GameStatusReason::PerpetualCheck => "perpetual_check"@,
            GameStatusReason::PerpetualChase => "perpetual_chase"@,
            GameStatusReason::MutualPerpetual => "mutual_perpetual"@,
            GameStatusReason::MaxNonCapture => "max_non_capture"@,
            GameStatusReason::MaxMoves => "max_moves"@,
        }
    }

    pub fn as_str(self) -> (r: &'static str)
        ensures
            r@ == self.name(),
    {
        match self {
            GameStatusReason::Checkmate => "checkmate",
            GameStatusReason::Stalemate => "stalemate",
            GameStatusReason::PerpetualCheck => "perpetual_check",
            GameStatusReason::PerpetualChase => "perpetual_chase",
            GameStatusReason::MutualPerpetual => "mutual_perpetual",
            GameStatusReason::MaxNonCapture => "max_non_capture",
            GameStatusReason::MaxMoves => "max_moves",
        }
    }
}

#[derive(Debug, Clone, Copy, PartialEq, Eq, Structural)]
pub struct GameStatus {
    pub is_terminal: bool,
    pub reason: Option<GameStatusReason>,
    pub winner: Option<Color>,
}

impl GameStatus {
    pub open spec fn spec_ongoing() -> GameStatus {
        GameStatus { is_terminal: false, reason: None, winner: None }
    }

    pub open spec fn spec_terminal(reason: GameStatusReason, winner: Option<Color>) -> GameStatus {
        GameStatus { is_terminal: true, reason: Some(reason), winner }
    }

    pub fn ongoing() -> (r: GameStatus)
        ensures
            r == GameStatus::spec_ongoing(),
    {
        GameStatus { is_terminal: false, reason: None, winner: None }
    }

    pub fn terminal(reason: GameStatusReason, winner: Option<Color>) -> (r: GameStatus)
        ensures
            r == GameStatus::spec_terminal(reason, winner),
    {
        GameStatus { is_terminal: true, reason: Some(reason), winner }
    }
}

/// Which moves to list.
#[derive(Debug, Clone, Copy, PartialEq, Eq, Structural)]
pub enum MoveFilter {
    All,
    CaptureOnly,
}

/// A move that was made, with what is needed to take it back.
#[derive(Debug, Clone, Copy, PartialEq, Eq, Structural)]
pub struct MoveInfo {
    pub mv: Move,
    pub source_piece: Piece,
    pub target_piece: Option<Piece>,
    pub before_zobrist_hash: u64,
    pub before_no_capture_plies: u32,
    pub before_fullmove_number: u32,
}

} // verus!

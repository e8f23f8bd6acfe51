//! Types shared by every part of the library: sides, kinds of men, and pairs indexed by side.

use vstd::prelude::*;

verus! {

/// A side of the board. Red moves towards smaller `y`, Black towards larger `y`.
#[derive(Debug, Clone, Copy, PartialEq, Eq, Hash, Structural)]
pub enum Color {
    Red,
    Black,
}

impl Color {
    /// The side other than this one.
    pub open spec fn spec_opposite(self) -> Color {
        match self {
            Color::Red => Color::Black,
            Color::Black => Color::Red,
        }
    }

    /// Both sides, Red first.
    pub fn all() -> (r: [Color; 2])
        ensures
            r@ == seq![Color::Red, Color::Black],
    {
        let r = [Color::Red, Color::Black];
        assert(r@ =~= seq![Color::Red, Color::Black]);
        r
    }

    #[verifier::when_used_as_spec(spec_opposite)]
    pub fn opposite(self) -> (r: Color)
        ensures
            r == self.spec_opposite(),
    {
        match self {
            Color::Red => Color::Black,
            Color::Black => Color::Red,
        }
    }
}

#[derive(Debug, Clone, Copy, PartialEq, Eq, Hash, Structural)]
pub enum PieceKind {
    King,
    Advisor,
    Elephant,
    Horse,
    Rook,
    Cannon,
    Pawn,
}

/// One value for each side.
#[derive(Debug, Clone, Copy, PartialEq, Eq)]
pub struct ByColor<T> {
    pub red: T,
    pub black: T,
}

impl<T> ByColor<T> {
    /// The value held for `color`.
    pub open spec fn of(self, color: Color) -> T {
        match color {
            Color::Red => self.red,
            Color::Black => self.black,
        }
    }

    pub fn new(red: T, black: T) -> (r: Self)
        ensures
            r.red == red,
            r.black == black,
    {
        ByColor { red, black }
    }

    pub fn get(&self, color: Color) -> (r: &T)
        ensures
            *r == self.of(color),
    {
        match color {
            Color::Red => &self.red,
            Color::Black => &self.black,
        }
    }

    pub fn get_mut(&mut self, color: Color) -> (r: &mut T)
        ensures
            *r == old(self).of(color),
            final(self).of(color) == *final(r),
            final(self).of(color.opposite()) == old(self).of(color.opposite()),
    {
        match color {
            Color::Red => &mut self.red,
            Color::Black => &mut self.black,
        }
    }
}

impl<T: Default> Default for ByColor<T> {
    fn default() -> (r: Self)
        ensures
            call_ensures(T::default, (), r.red),
            call_ensures(T::default, (), r.black),
    {
        ByColor { red: T::default(), black: T::default() }
    }
}

} // verus!

pub mod board;
pub mod pieces;

use vstd::prelude::*;

verus! {

/// The two sides of a chess game.
#[derive(Copy, Clone, Debug, PartialEq, Eq, Hash, Structural)]
pub enum Color {
    White,
    Black,
}

impl Color {
    /// The opposite side.
    pub open spec fn opponent(self) -> Color {
        match self {
            Color::White => Color::Black,
            Color::Black => Color::White,
        }
    }

    pub fn iter() -> (it: ColorIterator)
        ensures
            it.state == None::<Color>,
    {
        ColorIterator::new()
    }

    pub fn swap(&self) -> (c: Color)
        ensures
            c == self.opponent(),
    {
        match self {
            Color::White => Color::Black,
            Color::Black => Color::White,
        }
    }

    pub fn value(&self) -> (s: &'static str)
        ensures
            *self == Color::White ==> s@ == "white"@,
            *self == Color::Black ==> s@ == "black"@,
    {
        match self {
            Color::White => "white",
            Color::Black => "black",
        }
    }
}

impl Default for Color {
    fn default() -> (c: Self)
        ensures
            c == Color::White,
    {
        Color::White
    }
}

/// Walks through the colors: white, then black, then nothing.
pub struct ColorIterator {
    pub state: Option<Color>,
}

impl ColorIterator {
    pub fn new() -> (it: Self)
        ensures
            it.state == None::<Color>,
    {
        Self { state: None }
    }

    /// The color that follows `state` in the walk.
    pub open spec fn successor(state: Option<Color>) -> Option<Color> {
        match state {
            None => Some(Color::White),
            Some(Color::White) => Some(Color::Black),
            Some(Color::Black) => None,
        }
    }

    pub fn next(&mut self) -> (r: Option<Color>)
        ensures
            r == Self::successor(old(self).state),
            final(self).state == r,
    {
        let next = match self.state {
            None => Some(Color::White),
            Some(Color::White) => Some(Color::Black),
            Some(Color::Black) => None,
        };
        self.state = next;
        next
    }
}

} // verus!

use vstd::prelude::*;
use crate::text::string_from_chars;

verus! {

/// The two sides of a game: white and black.
#[derive(Clone, Copy, Debug, PartialEq, Eq, Structural, Hash)]
pub enum Color {
    W,
    B,
}

/// The direction in which the side's pawns advance, counted in rows of the
/// board index (white moves towards index 0).
pub open spec fn factor_of(c: Color) -> int {
    match c {
        Color::W => 1,
        Color::B => -1,
    }
}

/// The side that moves after `c`.
pub open spec fn next_of(c: Color) -> Color {
    match c {
        Color::W => Color::B,
        Color::B => Color::W,
    }
}

/// The side named by the active-colour letter of a FEN record.
pub open spec fn color_of_char(c: char) -> Option<Color> {
    if c == 'w' {
        Some(Color::W)
    } else if c == 'b' {
        Some(Color::B)
    } else {
        None
    }
}

/// The active-colour letter of a side.
pub open spec fn color_char(c: Color) -> char {
    match c {
        Color::W => 'w',
        Color::B => 'b',
    }
}

impl Color {
    /// The row direction of the side's pawns: 1 for white, -1 for black.
    pub fn factor(&self) -> (f: i8)
        ensures
            f == factor_of(*self),
    {
        match self {
            Color::W => 1,
            Color::B => -1,
        }
    }

    /// The side that moves next.
    pub fn next(&self) -> (c: Color)
        ensures
            c == next_of(*self),
    {
        match self {
            Color::W => Color::B,
            Color::B => Color::W,
        }
    }

    /// Whether the side is white.
    pub fn is_white(&self) -> (b: bool)
        ensures
            b == (*self == Color::W),
    {
        match self {
            Color::W => true,
            Color::B => false,
        }
    }

    /// Whether the side is black.
    pub fn is_black(&self) -> (b: bool)
        ensures
            b == (*self == Color::B),
    {
        match self {
            Color::W => false,
            Color::B => true,
        }
    }

    /// Reads the active-colour letter; `None` for any other character.
    pub fn from(c: char) -> (r: Option<Color>)
        ensures
            r == color_of_char(c),
    {
        if c == 'w' {
            Some(Color::W)
        } else if c == 'b' {
            Some(Color::B)
        } else {
            None
        }
    }

    /// The active-colour letter of the side.
    pub fn to_char(&self) -> (c: char)
        ensures
            c == color_char(*self),
    {
        match self {
            Color::W => 'w',
            Color::B => 'b',
        }
    }

    /// The active-colour field of a FEN record.
    pub fn to_string(&self) -> (s: String)
        ensures
            s@ == seq![color_char(*self)],
    {
        let mut v: Vec<char> = Vec::new();
        v.push(self.to_char());
        assert(v@ =~= seq![color_char(*self)]);
        string_from_chars(&v)
    }
}

} // verus!

use vstd::prelude::*;
use crate::color::Color;
use crate::coord::{Coord, coord_wf, square_of_chars};
use crate::piece::{Piece, piece_of_char};
use crate::text::chars_of;

verus! {

/// A piece of one side standing on a square.
#[derive(Clone, Copy, Debug, PartialEq, Eq, Structural, Hash)]
pub struct Figure {
    pub color: Color,
    pub coord: Coord,
    pub piece: Piece,
}

/// The upper-case letter of a piece.
pub open spec fn piece_letter(p: Piece) -> char {
    match p {
        Piece::P => 'P',
        Piece::R => 'R',
        Piece::N => 'N',
        Piece::B => 'B',
        Piece::Q => 'Q',
        Piece::K => 'K',
    }
}

/// The letter of a figure as FEN writes it: upper case for white, lower
/// case for black.
pub open spec fn figure_char(f: Figure) -> char {
    match f.color {
        Color::W => piece_letter(f.piece),
        Color::B => (piece_letter(f.piece) as int + 32) as char,
    }
}

pub open spec fn is_lower(c: char) -> bool {
    'a' <= c && c <= 'z'
}

/// The side a FEN piece letter belongs to.
pub open spec fn color_of_letter(c: char) -> Color {
    if is_lower(c) {
        Color::B
    } else {
        Color::W
    }
}

/// The figure named by a text such as `Pa2` or `ke8`: a piece letter whose
/// case gives the side, then the square.
pub open spec fn figure_of(s: Seq<char>) -> Option<Figure> {
    if s.len() == 3 {
        match (piece_of_char(s[0]), square_of_chars(s[1], s[2])) {
            (Some(p), Some(c)) => Some(Figure { color: color_of_letter(s[0]), coord: c, piece: p }),
            _ => None,
        }
    } else {
        None
    }
}

/// A figure standing on a well-formed square.
pub open spec fn figure_wf(f: Figure) -> bool {
    coord_wf(f.coord)
}

pub proof fn lemma_figure_char_read_back(f: Figure)
    ensures
        piece_of_char(figure_char(f)) == Some(f.piece),
        color_of_letter(figure_char(f)) == f.color,
{
}

/// The upper-case letter of a piece.
pub fn piece_letter_of(p: Piece) -> (c: char)
    ensures
        c == piece_letter(p),
{
    match p {
        Piece::P => 'P',
        Piece::R => 'R',
        Piece::N => 'N',
        Piece::B => 'B',
        Piece::Q => 'Q',
        Piece::K => 'K',
    }
}

/// The side a FEN piece letter belongs to: black for lower case.
pub fn letter_color(c: char) -> (r: Color)
    ensures
        r == color_of_letter(c),
{
    if 'a' <= c && c <= 'z' {
        Color::B
    } else {
        Color::W
    }
}

impl Figure {
    /// The figure named by the letter and square characters, if they name one.
    pub fn from_chars(l: char, f: char, r: char) -> (fig: Option<Figure>)
        ensures
            fig == figure_of(seq![l, f, r]),
            fig matches Some(g) ==> figure_wf(g),
    {
        match (Piece::from(l), Coord::from_chars(f, r)) {
            (Some(p), Some(c)) => Some(Figure { color: letter_color(l), coord: c, piece: p }),
            _ => None,
        }
    }

    /// The figure named by a text such as `Pa2` or `ke8`.
    pub fn from(s: &str) -> (fig: Figure)
        requires
            figure_of(s@) is Some,
        ensures
            fig == figure_of(s@)->0,
            figure_wf(fig),
    {
        let v = chars_of(s);
        assert(v@ =~= seq![v@[0], v@[1], v@[2]]);
        match Figure::from_chars(v[0], v[1], v[2]) {
            Some(f) => f,
            None => {
                proof { assert(false); }
                Figure { color: Color::W, coord: Coord::from_idx(0), piece: Piece::P }
            },
        }
    }

    /// The same figure standing on `target`.
    pub fn move_to(&self, target: &Coord) -> (fig: Figure)
        ensures
            fig == (Figure { coord: *target, ..*self }),
    {
        Figure { color: self.color, coord: *target, piece: self.piece }
    }

    /// The FEN letter of the figure.
    pub fn to_char(&self) -> (c: char)
        ensures
            c == figure_char(*self),
    {
        let l = piece_letter_of(self.piece);
        match self.color {
            Color::W => l,
            Color::B => ((l as u8) + 32) as char,
        }
    }
}

} // verus!

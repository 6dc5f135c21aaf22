use vstd::prelude::*;

verus! {

/// The six kinds of chess pieces.
#[derive(Clone, Copy, Debug, PartialEq, Eq, Structural, Hash)]
pub enum Piece {
    P,
    R,
    N,
    B,
    Q,
    K,
}

/// The piece named by a letter, in either case.
pub open spec fn piece_of_char(c: char) -> Option<Piece> {
    if c == 'p' || c == 'P' {
        Some(Piece::P)
    } else if c == 'r' || c == 'R' {
        Some(Piece::R)
    } else if c == 'n' || c == 'N' {
        Some(Piece::N)
    } else if c == 'b' || c == 'B' {
        Some(Piece::B)
    } else if c == 'q' || c == 'Q' {
        Some(Piece::Q)
    } else if c == 'k' || c == 'K' {
        Some(Piece::K)
    } else {
        None
    }
}

impl Piece {
    /// Reads a piece letter; `None` where the letter names no piece.
    pub fn from(c: char) -> (r: Option<Piece>)
        ensures
            r == piece_of_char(c),
    {
        if c == 'p' || c == 'P' {
            Some(Piece::P)
        } else if c == 'r' || c == 'R' {
            Some(Piece::R)
        } else if c == 'n' || c == 'N' {
            Some(Piece::N)
        } else if c == 'b' || c == 'B' {
            Some(Piece::B)
        } else if c == 'q' || c == 'Q' {
            Some(Piece::Q)
        } else if c == 'k' || c == 'K' {
            Some(Piece::K)
        } else {
            None
        }
    }
}

} // verus!

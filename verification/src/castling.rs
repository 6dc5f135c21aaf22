use vstd::prelude::*;
use crate::color::Color;
use crate::figure::Figure;
use crate::piece::Piece;
use crate::text::{chars_of, string_from_chars};

verus! {

/// Which castling moves each side may still make.
#[derive(Clone, Copy, Debug, PartialEq, Eq, Structural, Hash)]
pub struct Castling {
    pub white_kingside: bool,
    pub white_queenside: bool,
    pub black_kingside: bool,
    pub black_queenside: bool,
}

/// The rights named by the castling field of a FEN record: each letter of
/// `KQkq` that occurs grants its right.
pub open spec fn castling_of(s: Seq<char>) -> Castling {
    Castling {
        white_kingside: s.contains('K'),
        white_queenside: s.contains('Q'),
        black_kingside: s.contains('k'),
        black_queenside: s.contains('q'),
    }
}

pub open spec fn letter_if(b: bool, c: char) -> Seq<char> {
    if b {
        seq![c]
    } else {
        Seq::empty()
    }
}

/// The castling field of a FEN record: the letters of the rights held, in
/// the order `KQkq`, or `-` where none is held.
pub open spec fn castling_text(c: Castling) -> Seq<char> {
    if !c.white_kingside && !c.white_queenside && !c.black_kingside && !c.black_queenside {
        seq!['-']
    } else {
        letter_if(c.white_kingside, 'K') + letter_if(c.white_queenside, 'Q') + letter_if(
            c.black_kingside,
            'k',
        ) + letter_if(c.black_queenside, 'q')
    }
}

/// The rights left after `c` castles: both of its rights are gone.
pub open spec fn after_castle(r: Castling, c: Color) -> Castling {
    match c {
        Color::W => Castling { white_kingside: false, white_queenside: false, ..r },
        Color::B => Castling { black_kingside: false, black_queenside: false, ..r },
    }
}

/// The rights left after `f` moves away from its square: a king gives up
/// both rights of its side, a rook leaving its corner the right on that wing.
pub open spec fn after_move(r: Castling, f: Figure) -> Castling {
    if f.piece == Piece::K {
        after_castle(r, f.color)
    } else if f.piece == Piece::R {
        if f.color == Color::W && f.coord.idx == 56 {
            Castling { white_queenside: false, ..r }
        } else if f.color == Color::W && f.coord.idx == 63 {
            Castling { white_kingside: false, ..r }
        } else if f.color == Color::B && f.coord.idx == 0 {
            Castling { black_queenside: false, ..r }
        } else if f.color == Color::B && f.coord.idx == 7 {
            Castling { black_kingside: false, ..r }
        } else {
            r
        }
    } else {
        r
    }
}

pub proof fn lemma_castling_text_read_back(c: Castling)
    ensures
        castling_of(castling_text(c)) == c,
{
    let t = castling_text(c);
    let a = letter_if(c.white_kingside, 'K');
    let b = letter_if(c.white_queenside, 'Q');
    let d = letter_if(c.black_kingside, 'k');
    let e = letter_if(c.black_queenside, 'q');
    if !c.white_kingside && !c.white_queenside && !c.black_kingside && !c.black_queenside {
        assert(t =~= seq!['-']);
        assert(!t.contains('K'));
        assert(!t.contains('Q'));
        assert(!t.contains('k'));
        assert(!t.contains('q'));
    } else {
        assert(t =~= a + b + d + e);
        assert(t.contains('K') == c.white_kingside) by {
            if c.white_kingside {
                assert(t[0] == 'K');
            }
        }
        assert(t.contains('Q') == c.white_queenside) by {
            if c.white_queenside {
                assert(t[a.len() as int] == 'Q');
            }
        }
        assert(t.contains('k') == c.black_kingside) by {
            if c.black_kingside {
                assert(t[(a.len() + b.len()) as int] == 'k');
            }
        }
        assert(t.contains('q') == c.black_queenside) by {
            if c.black_queenside {
                assert(t[(a.len() + b.len() + d.len()) as int] == 'q');
            }
        }
    }
}

fn has_char(v: &Vec<char>, c: char) -> (b: bool)
    ensures
        b == v@.contains(c),
{
    let mut i: usize = 0;
    while i < v.len()
        invariant
            i <= v.len(),
            forall|j: int| 0 <= j < i ==> v@[j] != c,
        decreases v.len() - i,
    {
        if v[i] == c {
            return true;
        }
        i = i + 1;
    }
    false
}

impl Castling {
    /// All four rights, as at the start of a game.
    pub fn new() -> (c: Castling)
        ensures
            c == (Castling {
                white_kingside: true,
                white_queenside: true,
                black_kingside: true,
                black_queenside: true,
            }),
    {
        Castling {
            white_kingside: true,
            white_queenside: true,
            black_kingside: true,
            black_queenside: true,
        }
    }

    /// Reads the castling field of a FEN record.
    pub fn from(s: &str) -> (c: Castling)
        ensures
            c == castling_of(s@),
    {
        let v = chars_of(s);
        Castling::from_chars(&v)
    }

    /// Reads the castling field of a FEN record.
    pub fn from_chars(v: &Vec<char>) -> (c: Castling)
        ensures
            c == castling_of(v@),
    {
        Castling {
            white_kingside: has_char(&v, 'K'),
            white_queenside: has_char(&v, 'Q'),
            black_kingside: has_char(&v, 'k'),
            black_queenside: has_char(&v, 'q'),
        }
    }

    /// The rights left after `fig` moves away from its square.
    pub fn update(&self, fig: Figure) -> (c: Castling)
        ensures
            c == after_move(*self, fig),
    {
        if fig.piece == Piece::K {
            self.castle(fig.color)
        } else if fig.piece == Piece::R {
            if fig.color == Color::W && fig.coord.idx == 56 {
                Castling { white_queenside: false, ..*self }
            } else if fig.color == Color::W && fig.coord.idx == 63 {
                Castling { white_kingside: false, ..*self }
            } else if fig.color == Color::B && fig.coord.idx == 0 {
                Castling { black_queenside: false, ..*self }
            } else if fig.color == Color::B && fig.coord.idx == 7 {
                Castling { black_kingside: false, ..*self }
            } else {
                *self
            }
        } else {
            *self
        }
    }

    /// The rights left after `color` castles.
    pub fn castle(&self, color: Color) -> (c: Castling)
        ensures
            c == after_castle(*self, color),
    {
        match color {
            Color::W => Castling { white_kingside: false, white_queenside: false, ..*self },
            Color::B => Castling { black_kingside: false, black_queenside: false, ..*self },
        }
    }

    /// The castling field of a FEN record.
    pub fn to_chars(&self) -> (v: Vec<char>)
        ensures
            v@ == castling_text(*self),
    {
        let mut v: Vec<char> = Vec::new();
        if !self.white_kingside && !self.white_queenside && !self.black_kingside
            && !self.black_queenside {
            v.push('-');
            assert(v@ =~= castling_text(*self));
            return v;
        }
        if self.white_kingside {
            v.push('K');
        }
        if self.white_queenside {
            v.push('Q');
        }
        if self.black_kingside {
            v.push('k');
        }
        if self.black_queenside {
            v.push('q');
        }
        assert(v@ =~= castling_text(*self));
        v
    }

    /// The castling field of a FEN record.
    pub fn to_string(&self) -> (s: String)
        ensures
            s@ == castling_text(*self),
    {
        let v = self.to_chars();
        string_from_chars(&v)
    }
}

} // verus!

use vstd::prelude::*;
use crate::coord::{Coord, coord_wf, file_of_char, rank_of_char, square_of_chars};
use crate::piece::{Piece, piece_of_char};
use crate::text::chars_of;

verus! {

/// A move in Standard Algebraic Notation, taken apart: the kind of piece
/// that moves, the square it moves to, whether it takes, the piece a pawn
/// is promoted to, and the file and rank that tell two candidates apart.
#[derive(Clone, Copy, Debug, PartialEq, Eq, Structural)]
pub struct Draw {
    pub piece: Piece,
    pub target: Coord,
    pub is_hit: bool,
    pub is_promo: bool,
    pub promoted_piece: Option<Piece>,
    pub remainder_file: Option<char>,
    pub remainder_rank: Option<char>,
}

/// The predicate that keeps every character but `a` and `b`.
pub open spec fn keep_but(a: char, b: char) -> spec_fn(char) -> bool {
    |c: char| c != a && c != b
}

/// The letters that open the move of a piece other than a pawn.
pub open spec fn is_officer_letter(c: char) -> bool {
    c == 'R' || c == 'N' || c == 'B' || c == 'Q' || c == 'K'
}

/// The file and rank that a move names before its target square: none,
/// a file, a rank, or a file and a rank.
pub open spec fn remainders_of(rest: Seq<char>) -> Option<(Option<char>, Option<char>)> {
    if rest.len() == 0 {
        Some((None, None))
    } else if rest.len() == 1 {
        if file_of_char(rest[0]) is Some {
            Some((Some(rest[0]), None))
        } else if rank_of_char(rest[0]) is Some {
            Some((None, Some(rest[0])))
        } else {
            None
        }
    } else if rest.len() == 2 {
        if file_of_char(rest[0]) is Some && rank_of_char(rest[1]) is Some {
            Some((Some(rest[0]), Some(rest[1])))
        } else {
            None
        }
    } else {
        None
    }
}

/// The move named by `main`, a move text without check marks, capture
/// marks and promotion suffix.
pub open spec fn draw_of_main(main: Seq<char>, is_hit: bool, promo: Option<Piece>) -> Option<Draw> {
    if main.len() < 2 {
        None
    } else {
        let n = main.len();
        let head = main.take(n - 2);
        let officer = head.len() >= 1 && is_officer_letter(head[0]);
        let piece = if officer {
            piece_of_char(head[0])->0
        } else {
            Piece::P
        };
        let rest = if officer {
            head.drop_first()
        } else {
            head
        };
        match (square_of_chars(main[n - 2], main[n - 1]), remainders_of(rest)) {
            (Some(target), Some((rf, rr))) => Some(
                Draw {
                    piece,
                    target,
                    is_hit,
                    is_promo: promo is Some,
                    promoted_piece: promo,
                    remainder_file: rf,
                    remainder_rank: rr,
                },
            ),
            _ => None,
        }
    }
}

/// The move named by a text in Standard Algebraic Notation such as `Nf3`,
/// `exd5`, `Rae8`, `Q4xc4+` or `axb8=Q+`: check marks `+` and `#` are
/// ignored; an `x` marks a capture; `=` and a piece letter at the end name
/// the promotion; the last two characters left name the target square; an
/// upper-case piece letter in front names the piece, else a pawn moves; and
/// what stands between names a file, a rank, or both.
pub open spec fn draw_of(s: Seq<char>) -> Option<Draw> {
    let clean = s.filter(keep_but('+', '#'));
    let is_hit = clean.contains('x');
    let core = clean.filter(keep_but('x', 'x'));
    let n = core.len();
    if n >= 2 && core[n - 2] == '=' {
        match piece_of_char(core[n - 1]) {
            Some(p) => draw_of_main(core.take(n - 2), is_hit, Some(p)),
            None => None,
        }
    } else {
        draw_of_main(core, is_hit, None)
    }
}

/// The target of every move read from text is a well-formed square.
pub proof fn lemma_draw_target_wf(s: Seq<char>)
    ensures
        draw_of(s) matches Some(d) ==> coord_wf(d.target),
{
    let clean = s.filter(keep_but('+', '#'));
    let core = clean.filter(keep_but('x', 'x'));
    let n = core.len();
    let main = if n >= 2 && core[n - 2] == '=' {
        core.take(n - 2)
    } else {
        core
    };
    if main.len() >= 2 {
        let m = main.len();
        let f = crate::coord::file_of_char(main[m - 2]);
        let r = crate::coord::rank_of_char(main[m - 1]);
        if f is Some && r is Some {
            crate::coord::lemma_coord_at_wf((7 - r->0) * 8 + f->0);
        }
    }
}

/// Copies `v` without the characters `a` and `b`.
pub fn drop_chars(v: &Vec<char>, a: char, b: char) -> (r: Vec<char>)
    ensures
        r@ == v@.filter(keep_but(a, b)),
{
    let mut r: Vec<char> = Vec::new();
    let mut i: usize = 0;
    while i < v.len()
        invariant
            i <= v.len(),
            r@ == v@.take(i as int).filter(keep_but(a, b)),
        decreases v.len() - i,
    {
        proof {
            reveal_with_fuel(Seq::<_>::filter, 1);
            assert(v@.take(i + 1).drop_last() =~= v@.take(i as int));
        }
        if v[i] != a && v[i] != b {
            r.push(v[i]);
        }
        i = i + 1;
    }
    assert(v@.take(v.len() as int) =~= v@);
    r
}

/// Whether `v` holds `c`.
pub fn contains_char(v: &Vec<char>, c: char) -> (b: bool)
    ensures
        b == v@.contains(c),
{
    let mut i: usize = 0;
    while i < v.len()
        invariant
            i <= v.len(),
            forall|j: int| 0 <= j < i ==> v@[j] != c,
        decreases v.len() - i,
    {
        if v[i] == c {
            return true;
        }
        i = i + 1;
    }
    false
}

fn is_file_char(c: char) -> (b: bool)
    ensures
        b == (file_of_char(c) is Some),
{
    'a' <= c && c <= 'h'
}

fn is_rank_char(c: char) -> (b: bool)
    ensures
        b == (rank_of_char(c) is Some),
{
    '1' <= c && c <= '8'
}

fn parse_remainders(v: &Vec<char>, start: usize, end: usize) -> (r: Option<(Option<char>, Option<char>)>)
    requires
        start <= end <= v.len(),
    ensures
        r == remainders_of(v@.subrange(start as int, end as int)),
{
    let ghost rest = v@.subrange(start as int, end as int);
    let n = end - start;
    if n == 0 {
        Some((None, None))
    } else if n == 1 {
        let c = v[start];
        assert(rest[0] == c);
        if is_file_char(c) {
            Some((Some(c), None))
        } else if is_rank_char(c) {
            Some((None, Some(c)))
        } else {
            None
        }
    } else if n == 2 {
        let c = v[start];
        let d = v[start + 1];
        assert(rest[0] == c && rest[1] == d);
        if is_file_char(c) && is_rank_char(d) {
            Some((Some(c), Some(d)))
        } else {
            None
        }
    } else {
        None
    }
}

fn parse_main(core: &Vec<char>, n: usize, is_hit: bool, promo: Option<Piece>) -> (r: Option<Draw>)
    requires
        n <= core.len(),
    ensures
        r == draw_of_main(core@.take(n as int), is_hit, promo),
        r matches Some(d) ==> coord_wf(d.target),
{
    let ghost main = core@.take(n as int);
    if n < 2 {
        return None;
    }
    let ghost head = main.take(n - 2);
    let officer = n - 2 >= 1 && is_officer_letter_exec(core[0]);
    assert(officer == (head.len() >= 1 && is_officer_letter(head[0])));
    let piece = if officer {
        match Piece::from(core[0]) {
            Some(p) => p,
            None => Piece::P,
        }
    } else {
        Piece::P
    };
    let start: usize = if officer {
        1
    } else {
        0
    };
    proof {
        if officer {
            assert(head.drop_first() =~= core@.subrange(1, n - 2));
        } else {
            assert(head =~= core@.subrange(0, n - 2));
        }
    }
    let rem = parse_remainders(core, start, n - 2);
    let sq = Coord::from_chars(core[n - 2], core[n - 1]);
    assert(main[n - 2] == core@[n - 2] && main[n - 1] == core@[n - 1]);
    match (sq, rem) {
        (Some(target), Some((rf, rr))) => Some(
            Draw {
                piece,
                target,
                is_hit,
                is_promo: promo.is_some(),
                promoted_piece: promo,
                remainder_file: rf,
                remainder_rank: rr,
            },
        ),
        _ => None,
    }
}

fn is_officer_letter_exec(c: char) -> (b: bool)
    ensures
        b == is_officer_letter(c),
{
    c == 'R' || c == 'N' || c == 'B' || c == 'Q' || c == 'K'
}

impl Draw {
    /// Reads a move in Standard Algebraic Notation; `None` where the text
    /// names no move.
    pub fn parse(mv: &str) -> (r: Option<Draw>)
        ensures
            r == draw_of(mv@),
            r matches Some(d) ==> coord_wf(d.target),
    {
        let v = chars_of(mv);
        let clean = drop_chars(&v, '+', '#');
        let is_hit = contains_char(&clean, 'x');
        let core = drop_chars(&clean, 'x', 'x');
        let n = core.len();
        if n >= 2 && core[n - 2] == '=' {
            match Piece::from(core[n - 1]) {
                Some(p) => parse_main(&core, n - 2, is_hit, Some(p)),
                None => None,
            }
        } else {
            assert(core@.take(n as int) =~= core@);
            parse_main(&core, n, is_hit, None)
        }
    }

    /// Reads a move in Standard Algebraic Notation.
    pub fn from(mv: String) -> (d: Draw)
        requires
            draw_of(mv@) is Some,
        ensures
            d == draw_of(mv@)->0,
            coord_wf(d.target),
    {
        match Draw::parse(mv.as_str()) {
            Some(d) => d,
            None => {
                proof { assert(false); }
                Draw {
                    piece: Piece::P,
                    target: Coord::from_idx(0),
                    is_hit: false,
                    is_promo: false,
                    promoted_piece: None,
                    remainder_file: None,
                    remainder_rank: None,
                }
            },
        }
    }
}

} // verus!

use vstd::prelude::*;
use crate::text::{chars_of, string_from_chars};

verus! {

/// A square of the board.
///
/// Squares are numbered row by row from a8 (`idx` 0) to h1 (`idx` 63);
/// `x` counts files from the a-file (0) and `y` counts ranks from the first
/// rank (0).  The two diagonal numbers are shared by the squares of one
/// diagonal in each direction.
#[derive(Clone, Copy, Debug, PartialEq, Eq, Structural, Hash)]
pub struct Coord {
    pub idx: i8,
    pub x: i8,
    pub y: i8,
    pub file: char,
    pub rank: char,
    pub main_diagonal: i8,
    pub anti_diagonal: i8,
}

/// The file letter of column `x`.
pub open spec fn file_char(x: int) -> char {
    (97 + x) as char
}

/// The rank digit of row `y`.
pub open spec fn rank_char(y: int) -> char {
    (49 + y) as char
}

/// The column named by a file letter.
pub open spec fn file_of_char(c: char) -> Option<int> {
    if 'a' <= c && c <= 'h' {
        Some(c as int - 97)
    } else {
        None
    }
}

/// The row named by a rank digit.
pub open spec fn rank_of_char(c: char) -> Option<int> {
    if '1' <= c && c <= '8' {
        Some(c as int - 49)
    } else {
        None
    }
}

/// Whether `i` numbers a square of the board.
pub open spec fn valid_index(i: int) -> bool {
    0 <= i < 64
}

/// The square with board index `i`.
pub open spec fn coord_at(i: int) -> Coord {
    let x = i % 8;
    let y = 7 - i / 8;
    Coord {
        idx: i as i8,
        x: x as i8,
        y: y as i8,
        file: file_char(x),
        rank: rank_char(y),
        main_diagonal: (x - y) as i8,
        anti_diagonal: (x + y) as i8,
    }
}

/// A coordinate whose fields all describe one square of the board.
pub open spec fn coord_wf(c: Coord) -> bool {
    valid_index(c.idx as int) && c == coord_at(c.idx as int)
}

/// The 64 squares in index order.
pub open spec fn board_spec() -> Seq<Coord> {
    Seq::new(64, |i: int| coord_at(i))
}

/// The square named by a file letter and a rank digit.
pub open spec fn square_of_chars(f: char, r: char) -> Option<Coord> {
    match (file_of_char(f), rank_of_char(r)) {
        (Some(x), Some(y)) => Some(coord_at((7 - y) * 8 + x)),
        _ => None,
    }
}

/// The square named by a two-character text such as `e4`.
pub open spec fn square_of(s: Seq<char>) -> Option<Coord> {
    if s.len() == 2 {
        square_of_chars(s[0], s[1])
    } else {
        None
    }
}

/// The name of a square, such as `e4`.
pub open spec fn square_name(c: Coord) -> Seq<char> {
    seq![c.file, c.rank]
}

pub proof fn lemma_coord_at_wf(i: int)
    requires
        valid_index(i),
    ensures
        coord_wf(coord_at(i)),
        coord_at(i).idx == i,
        0 <= coord_at(i).x < 8,
        0 <= coord_at(i).y < 8,
        coord_at(i).x == i % 8,
        coord_at(i).y == 7 - i / 8,
{
}

pub proof fn lemma_square_name_roundtrip(c: Coord)
    requires
        coord_wf(c),
    ensures
        square_of(square_name(c)) == Some(c),
{
    let i = c.idx as int;
    let x = i % 8;
    let y = 7 - i / 8;
    assert(file_of_char(file_char(x)) == Some(x));
    assert(rank_of_char(rank_char(y)) == Some(y));
    assert((7 - y) * 8 + x == i);
}

/// Whether `idx` numbers a square of the board.
pub fn valid_idx(idx: i8) -> (b: bool)
    ensures
        b == valid_index(idx as int),
{
    idx >= 0 && idx < 64
}

impl Coord {
    /// The square with board index `i`.
    pub fn from_idx(i: i8) -> (c: Coord)
        requires
            valid_index(i as int),
        ensures
            c == coord_at(i as int),
            coord_wf(c),
    {
        let x: i8 = i % 8;
        let y: i8 = 7 - i / 8;
        let file = (97u8 + x as u8) as char;
        let rank = (49u8 + y as u8) as char;
        Coord { idx: i, x, y, file, rank, main_diagonal: x - y, anti_diagonal: x + y }
    }

    /// The square named by a file letter and a rank digit, if they name one.
    pub fn from_chars(f: char, r: char) -> (c: Option<Coord>)
        ensures
            c == square_of_chars(f, r),
            c matches Some(s) ==> coord_wf(s),
    {
        if 'a' <= f && f <= 'h' && '1' <= r && r <= '8' {
            let x: i8 = ((f as u32) - 97) as i8;
            let y: i8 = ((r as u32) - 49) as i8;
            let c = Coord::from_idx((7 - y) * 8 + x);
            proof {
                lemma_coord_at_wf((7 - y) * 8 + x);
            }
            Some(c)
        } else {
            None
        }
    }

    /// The square named by a text such as `e4`.
    pub fn from(s: &str) -> (c: Coord)
        requires
            square_of(s@) is Some,
        ensures
            c == square_of(s@)->0,
            coord_wf(c),
    {
        let v = chars_of(s);
        match Coord::from_chars(v[0], v[1]) {
            Some(c) => c,
            None => { proof { assert(false); } Coord::from_idx(0) },
        }
    }

    /// The name of the square, such as `e4`.
    pub fn to_chars(&self) -> (v: Vec<char>)
        ensures
            v@ == square_name(*self),
    {
        let mut v: Vec<char> = Vec::new();
        v.push(self.file);
        v.push(self.rank);
        assert(v@ =~= square_name(*self));
        v
    }

    /// The name of the square, such as `e4`.
    pub fn to_string(&self) -> (s: String)
        ensures
            s@ == square_name(*self),
    {
        let v = self.to_chars();
        string_from_chars(&v)
    }
}

/// The 64 squares of the board in index order.
pub fn get_board() -> (board: Vec<Coord>)
    ensures
        board@ == board_spec(),
{
    let mut board: Vec<Coord> = Vec::new();
    let mut i: i8 = 0;
    while i < 64
        invariant
            0 <= i <= 64,
            board@ == board_spec().take(i as int),
        decreases 64 - i,
    {
        board.push(Coord::from_idx(i));
        i = i + 1;
        assert(board@ =~= board_spec().take(i as int));
    }
    assert(board@ =~= board_spec());
    board
}

} // verus!

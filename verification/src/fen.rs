use vstd::prelude::*;
use crate::castling::{Castling, castling_of, castling_text};
use crate::color::{Color, color_char, color_of_char};
use crate::coord::{Coord, board_spec, coord_at, get_board, square_name, square_of};
use crate::figure::{Figure, color_of_letter, figure_char, letter_color};
use crate::game::{Game, GameView, game_wf};
use crate::piece::{Piece, piece_of_char};
use crate::text::{
    char_to_digit, chars_of, digit_char, digit_to_char, digit_value, string_from_chars,
};

verus! {

// ------------------------------------------------------------------
// Splitting a record into fields

/// The parts of `s` between the separators `sep`, as `str::split` gives
/// them: one more part than there are separators, empty parts included.
pub open spec fn split_on(s: Seq<char>, sep: char) -> Seq<Seq<char>>
    decreases s.len(),
{
    if s.len() == 0 {
        seq![Seq::<char>::empty()]
    } else {
        let r = split_on(s.drop_last(), sep);
        if s.last() == sep {
            r.push(Seq::empty())
        } else {
            r.update(r.len() - 1, r.last().push(s.last()))
        }
    }
}

pub proof fn lemma_split_on_nonempty(s: Seq<char>, sep: char)
    ensures
        split_on(s, sep).len() >= 1,
    decreases s.len(),
{
    if s.len() > 0 {
        lemma_split_on_nonempty(s.drop_last(), sep);
    }
}

// ------------------------------------------------------------------
// Numbers

/// The value of a text of decimal digits.
pub open spec fn digits_value(s: Seq<char>) -> nat
    decreases s.len(),
{
    if s.len() == 0 {
        0
    } else {
        digits_value(s.drop_last()) * 10 + match digit_value(s.last()) {
            Some(d) => d as nat,
            None => 0,
        }
    }
}

pub open spec fn all_digits(s: Seq<char>) -> bool {
    forall|k: int| 0 <= k < s.len() ==> (#[trigger] digit_value(s[k])) is Some
}

/// A `u16` read from text as `str::parse` reads it: an optional `+`, then
/// at least one decimal digit, the value not above `u16::MAX`.
pub open spec fn parse_u16(s: Seq<char>) -> Option<u16> {
    let body = if s.len() > 0 && s[0] == '+' {
        s.drop_first()
    } else {
        s
    };
    if body.len() > 0 && all_digits(body) && digits_value(body) <= u16::MAX {
        Some(digits_value(body) as u16)
    } else {
        None
    }
}

/// The decimal text of a number, without leading zeros.
pub open spec fn decimal(n: nat) -> Seq<char>
    decreases n,
{
    if n < 10 {
        seq![digit_char(n as int)]
    } else {
        decimal(n / 10).push(digit_char((n % 10) as int))
    }
}

// ------------------------------------------------------------------
// Piece placement

/// The state of reading a piece placement: the index of the next square,
/// the squares filled so far, and whether every character was accepted.
pub struct PlacementScan {
    pub next: nat,
    pub squares: Seq<Option<Figure>>,
    pub ok: bool,
}

pub open spec fn empty_squares() -> Seq<Option<Figure>> {
    Seq::new(64, |i: int| None::<Figure>)
}

/// One character of a piece placement: a digit skips that many squares, a
/// `/` is passed over, a piece letter puts the figure on the next square
/// (upper case for white); anything else, or a figure past the last
/// square, fails.
pub open spec fn placement_step(st: PlacementScan, c: char) -> PlacementScan {
    if !st.ok {
        st
    } else if digit_value(c) is Some {
        PlacementScan { next: st.next + digit_value(c)->0 as nat, ..st }
    } else if c == '/' {
        st
    } else {
        match piece_of_char(c) {
            Some(p) => if st.next < 64 {
                PlacementScan {
                    next: st.next + 1,
                    squares: st.squares.update(
                        st.next as int,
                        Some(Figure { color: color_of_letter(c), coord: coord_at(st.next as int), piece: p }),
                    ),
                    ok: true,
                }
            } else {
                PlacementScan { ok: false, ..st }
            },
            None => PlacementScan { ok: false, ..st },
        }
    }
}

pub open spec fn placement_fold(st: PlacementScan, s: Seq<char>) -> PlacementScan
    decreases s.len(),
{
    if s.len() == 0 {
        st
    } else {
        placement_step(placement_fold(st, s.drop_last()), s.last())
    }
}

pub open spec fn placement_start() -> PlacementScan {
    PlacementScan { next: 0, squares: empty_squares(), ok: true }
}

/// The squares described by the piece-placement field of a FEN record.
pub open spec fn position_of_fen(s: Seq<char>) -> Option<Seq<Option<Figure>>> {
    let st = placement_fold(placement_start(), s);
    if st.ok {
        Some(st.squares)
    } else {
        None
    }
}

/// The figures standing on the squares, in index order.
pub open spec fn figures_of(p: Seq<Option<Figure>>) -> Seq<Figure>
    decreases p.len(),
{
    if p.len() == 0 {
        Seq::empty()
    } else {
        figures_of(p.drop_last()) + match p.last() {
            Some(f) => seq![f],
            None => Seq::empty(),
        }
    }
}

/// A pending count of empty squares, written as a digit.
pub open spec fn unload(t: Seq<char>, spacer: nat) -> Seq<char> {
    if spacer > 0 {
        t.push(digit_char(spacer as int))
    } else {
        t
    }
}

/// One square written: a rank separator before the square starting a new
/// rank (after the pending empty squares), then either one more pending
/// empty square or the pending empty squares and the figure letter.
pub open spec fn scan_next(prev: (Seq<char>, nat), f: int, sq: Option<Figure>) -> (Seq<char>, nat) {
    let (t, sp) = prev;
    let (t1, sp1) = if f > 0 && f % 8 == 0 {
        (unload(t, sp).push('/'), 0nat)
    } else {
        (t, sp)
    };
    match sq {
        None => (t1, sp1 + 1),
        Some(fig) => (unload(t1, sp1).push(figure_char(fig)), 0nat),
    }
}

/// The state of writing a piece placement: the text so far and the number
/// of empty squares not yet written.
pub open spec fn placement_text_scan(p: Seq<Option<Figure>>) -> (Seq<char>, nat)
    decreases p.len(),
{
    if p.len() == 0 {
        (Seq::empty(), 0)
    } else {
        scan_next(placement_text_scan(p.drop_last()), p.len() - 1, p.last())
    }
}

/// The piece-placement field of a FEN record: the ranks from the eighth to
/// the first, separated by `/`, each a run of figure letters and digits
/// counting empty squares.
pub open spec fn placement_text(p: Seq<Option<Figure>>) -> Seq<char> {
    let (t, sp) = placement_text_scan(p);
    unload(t, sp)
}

// ------------------------------------------------------------------
// Whole records

pub open spec fn en_passant_text(e: Option<Coord>) -> Seq<char> {
    match e {
        None => seq!['-'],
        Some(c) => square_name(c),
    }
}

pub open spec fn en_passant_of(s: Seq<char>) -> Option<Option<Coord>> {
    if s == seq!['-'] {
        Some(None)
    } else {
        match square_of(s) {
            Some(c) => Some(Some(c)),
            None => None,
        }
    }
}

pub open spec fn color_field_of(s: Seq<char>) -> Option<Color> {
    if s.len() > 0 {
        color_of_char(s[0])
    } else {
        None
    }
}

/// The FEN record of a game: its six fields separated by single spaces.
pub open spec fn fen_of(g: GameView) -> Seq<char> {
    placement_text(g.position) + seq![' ', color_char(g.color), ' '] + castling_text(g.castling)
        + seq![' '] + en_passant_text(g.en_passant) + seq![' '] + decimal(
        g.half_move_clock as nat,
    ) + seq![' '] + decimal(g.full_move_clock as nat)
}

/// The game a FEN record describes.  The record is split at each space; of
/// the parts, the first six are read as the piece placement, the side to
/// move (its first letter, `w` or `b`), the castling rights, the
/// en-passant square (`-` or a square), and the two clocks.  `None` where
/// a part cannot be read.
pub open spec fn game_of_fen(s: Seq<char>) -> Option<GameView> {
    let parts = split_on(s, ' ');
    if parts.len() < 6 {
        None
    } else {
        match (
            position_of_fen(parts[0]),
            color_field_of(parts[1]),
            en_passant_of(parts[3]),
            parse_u16(parts[4]),
            parse_u16(parts[5]),
        ) {
            (Some(p), Some(c), Some(e), Some(h), Some(f)) => Some(
                GameView {
                    board: board_spec(),
                    position: p,
                    figures: figures_of(p),
                    color: c,
                    castling: castling_of(parts[2]),
                    en_passant: e,
                    half_move_clock: h,
                    full_move_clock: f,
                },
            ),
            _ => None,
        }
    }
}

} // verus!

verus! {

// ------------------------------------------------------------------
// Lemmas on the specifications

pub proof fn lemma_placement_fold_shape(s: Seq<char>)
    ensures
        placement_fold(placement_start(), s).squares.len() == 64,
        forall|i: int|
            0 <= i < 64 ==> (#[trigger] placement_fold(placement_start(), s).squares[i] matches Some(
                f,
            ) ==> f.coord == coord_at(i)),
    decreases s.len(),
{
    if s.len() > 0 {
        lemma_placement_fold_shape(s.drop_last());
    }
}

/// The figures of the squares, each from the square it stands on.
pub proof fn lemma_figures_of(p: Seq<Option<Figure>>)
    requires
        p.len() <= 64,
        forall|i: int| 0 <= i < p.len() ==> (#[trigger] p[i] matches Some(f) ==> f.coord == coord_at(i)),
    ensures
        forall|k: int|
            0 <= k < figures_of(p).len() ==> {
                let f = #[trigger] figures_of(p)[k];
                &&& 0 <= f.coord.idx < p.len()
                &&& p[f.coord.idx as int] == Some(f)
                &&& f.coord == coord_at(f.coord.idx as int)
            },
        crate::figset::figs_sorted(figures_of(p)),
    decreases p.len(),
{
    if p.len() > 0 {
        let q = p.drop_last();
        assert forall|i: int| 0 <= i < q.len() implies (#[trigger] q[i] matches Some(f) ==> f.coord
            == coord_at(i)) by {
            assert(q[i] == p[i]);
        }
        lemma_figures_of(q);
        let r = figures_of(q);
        let n = p.len() - 1;
        match p.last() {
            Some(f) => {
                let t = r + seq![f];
                assert(figures_of(p) == t);
                assert(p[n] == Some(f));
                crate::coord::lemma_coord_at_wf(n);
                assert forall|k: int| 0 <= k < t.len() implies {
                    let g = #[trigger] t[k];
                    &&& 0 <= g.coord.idx < p.len()
                    &&& p[g.coord.idx as int] == Some(g)
                    &&& g.coord == coord_at(g.coord.idx as int)
                } by {
                    if k < r.len() {
                        assert(t[k] == r[k]);
                        assert(q[r[k].coord.idx as int] == p[r[k].coord.idx as int]);
                    }
                }
                assert forall|a: int, b: int| 0 <= a < b < t.len() implies crate::figset::fig_key(
                    t[a],
                ) < crate::figset::fig_key(t[b]) by {
                    if b == r.len() {
                        assert(t[a] == r[a]);
                        assert(r[a].coord.idx < n);
                    } else {
                        assert(t[a] == r[a] && t[b] == r[b]);
                    }
                }
            },
            None => {
                assert(figures_of(p) =~= r);
                assert forall|k: int| 0 <= k < r.len() implies {
                    let g = #[trigger] r[k];
                    &&& 0 <= g.coord.idx < p.len()
                    &&& p[g.coord.idx as int] == Some(g)
                    &&& g.coord == coord_at(g.coord.idx as int)
                } by {
                    assert(q[r[k].coord.idx as int] == p[r[k].coord.idx as int]);
                }
            },
        }
    }
}

/// A game read from FEN keeps the invariant of games.
pub proof fn lemma_game_of_fen_wf(s: Seq<char>)
    requires
        game_of_fen(s) is Some,
    ensures
        game_wf(game_of_fen(s)->0),
{
    let parts = split_on(s, ' ');
    lemma_placement_fold_shape(parts[0]);
    let p = position_of_fen(parts[0])->0;
    lemma_figures_of(p);
    let g = game_of_fen(s)->0;
    assert forall|j: int| 0 <= j < g.figures.len() implies crate::figure::figure_wf(
        #[trigger] g.figures[j],
    ) by {
        let f = g.figures[j];
        crate::coord::lemma_coord_at_wf(f.coord.idx as int);
    }
    if let Some(c) = g.en_passant {
        assert(square_of(parts[3]) == Some(c));
        let x = crate::coord::file_of_char(parts[3][0])->0;
        let y = crate::coord::rank_of_char(parts[3][1])->0;
        crate::coord::lemma_coord_at_wf((7 - y) * 8 + x);
    }
}

// ------------------------------------------------------------------
// Reading

/// Splits the text at each space.
fn split_fields(v: &Vec<char>) -> (r: Vec<Vec<char>>)
    ensures
        r@.len() == split_on(v@, ' ').len(),
        forall|k: int| 0 <= k < r@.len() ==> (#[trigger] r@[k])@ == split_on(v@, ' ')[k],
{
    let mut done: Vec<Vec<char>> = Vec::new();
    let mut cur: Vec<char> = Vec::new();
    let mut i: usize = 0;
    while i < v.len()
        invariant
            i <= v.len(),
            done@.len() + 1 == split_on(v@.take(i as int), ' ').len(),
            forall|k: int| 0 <= k < done@.len() ==> (#[trigger] done@[k])@ == split_on(v@.take(i as int), ' ')[k],
            cur@ == split_on(v@.take(i as int), ' ').last(),
        decreases v.len() - i,
    {
        let ghost before = split_on(v@.take(i as int), ' ');
        assert(v@.take(i + 1).drop_last() =~= v@.take(i as int));
        assert(v@.take(i + 1).last() == v@[i as int]);
        if v[i] == ' ' {
            let finished = cur;
            done.push(finished);
            cur = Vec::new();
            proof {
                let after = split_on(v@.take(i + 1), ' ');
                assert(after == before.push(Seq::empty()));
                assert forall|k: int| 0 <= k < done@.len() implies (#[trigger] done@[k])@ == after[k] by {
                    if k < done@.len() - 1 {
                    } else {
                        assert(after[k] == before[k]);
                    }
                }
            }
        } else {
            cur.push(v[i]);
            proof {
                let after = split_on(v@.take(i + 1), ' ');
                lemma_split_on_nonempty(v@.take(i as int), ' ');
                assert(after == before.update(before.len() - 1, before.last().push(v@[i as int])));
            }
        }
        i = i + 1;
    }
    assert(v@.take(v.len() as int) =~= v@);
    done.push(cur);
    done
}

/// Reads a `u16` as `str::parse` does.
pub fn parse_u16_field(s: &Vec<char>) -> (r: Option<u16>)
    ensures
        r == parse_u16(s@),
{
    let start: usize = if s.len() > 0 && s[0] == '+' {
        1
    } else {
        0
    };
    let ghost body = if s@.len() > 0 && s@[0] == '+' {
        s@.drop_first()
    } else {
        s@
    };
    assert(body =~= s@.subrange(start as int, s@.len() as int));
    if start >= s.len() {
        return None;
    }
    let mut acc: u32 = 0;
    let mut i: usize = start;
    while i < s.len()
        invariant
            start <= i <= s.len(),
            body =~= s@.subrange(start as int, s@.len() as int),
            body == (if s@.len() > 0 && s@[0] == '+' {
                s@.drop_first()
            } else {
                s@
            }),
            all_digits(s@.subrange(start as int, i as int)),
            acc as nat == if digits_value(s@.subrange(start as int, i as int)) < 70000 {
                digits_value(s@.subrange(start as int, i as int))
            } else {
                70000
            },
        decreases s.len() - i,
    {
        let ghost pre = s@.subrange(start as int, i as int);
        let ghost post = s@.subrange(start as int, i + 1);
        assert(post.drop_last() =~= pre);
        match char_to_digit(s[i]) {
            Some(d) => {
                assert(post.last() == s@[i as int]);
                if acc >= 70000 {
                    acc = 70000;
                } else {
                    acc = acc * 10 + d as u32;
                    if acc > 70000 {
                        acc = 70000;
                    }
                }
                assert forall|k: int| 0 <= k < post.len() implies (#[trigger] digit_value(post[k])) is Some by {
                    if k < pre.len() {
                        assert(post[k] == pre[k]);
                    }
                }
            },
            None => {
                proof {
                    assert(body[i - start] == s@[i as int]);
                    assert(digit_value(body[i - start]) is None);
                    assert(!all_digits(body));
                }
                return None;
            },
        }
        i = i + 1;
    }
    assert(s@.subrange(start as int, s.len() as int) =~= body);
    if acc <= 65535 {
        Some(acc as u16)
    } else {
        None
    }
}

/// Reads the piece-placement field of a FEN record.
pub fn fen_to_position(fen: &Vec<char>, board: &Vec<Coord>) -> (r: Option<Vec<Option<Figure>>>)
    requires
        board@ == board_spec(),
    ensures
        match r {
            Some(p) => position_of_fen(fen@) == Some(p@),
            None => position_of_fen(fen@) is None,
        },
{
    let mut figures: Vec<Option<Figure>> = Vec::new();
    let mut k: usize = 0;
    while k < 64
        invariant
            k <= 64,
            figures@ == empty_squares().take(k as int),
        decreases 64 - k,
    {
        figures.push(None);
        k = k + 1;
        assert(figures@ =~= empty_squares().take(k as int));
    }
    assert(figures@ =~= empty_squares());
    let mut i: usize = 0;
    let mut ok: bool = true;
    let mut n: usize = 0;
    while n < fen.len()
        invariant
            board@ == board_spec(),
            n <= fen.len(),
            placement_fold(placement_start(), fen@.take(n as int)).ok == ok,
            ok ==> placement_fold(placement_start(), fen@.take(n as int)).squares == figures@,
            ok ==> i as nat == if placement_fold(placement_start(), fen@.take(n as int)).next < 100 {
                placement_fold(placement_start(), fen@.take(n as int)).next
            } else {
                100
            },
            figures@.len() == 64,
        decreases fen.len() - n,
    {
        let l = fen[n];
        assert(fen@.take(n + 1).drop_last() =~= fen@.take(n as int));
        assert(fen@.take(n + 1).last() == l);
        if ok {
            match char_to_digit(l) {
                Some(d) => {
                    i = if i + (d as usize) < 100 {
                        i + d as usize
                    } else {
                        100
                    };
                },
                None => {
                    if l == '/' {
                    } else {
                        match Piece::from(l) {
                            Some(p) => {
                                if i < 64 {
                                    figures.set(
                                        i,
                                        Some(Figure { color: letter_color(l), coord: board[i], piece: p }),
                                    );
                                    i = i + 1;
                                } else {
                                    ok = false;
                                }
                            },
                            None => {
                                ok = false;
                            },
                        }
                    }
                },
            }
        }
        n = n + 1;
    }
    assert(fen@.take(fen.len() as int) =~= fen@);
    if ok {
        Some(figures)
    } else {
        None
    }
}

/// The figures standing on the squares, in index order.
pub fn figures_from(position: &Vec<Option<Figure>>) -> (r: Vec<Figure>)
    ensures
        r@ == figures_of(position@),
{
    let mut r: Vec<Figure> = Vec::new();
    let mut i: usize = 0;
    while i < position.len()
        invariant
            i <= position.len(),
            r@ == figures_of(position@.take(i as int)),
        decreases position.len() - i,
    {
        assert(position@.take(i + 1).drop_last() =~= position@.take(i as int));
        match position[i] {
            Some(f) => {
                r.push(f);
                assert(r@ =~= figures_of(position@.take(i + 1)));
            },
            None => {
                assert(r@ =~= figures_of(position@.take(i + 1)));
            },
        }
        i = i + 1;
    }
    assert(position@.take(position.len() as int) =~= position@);
    r
}

fn is_dash(v: &Vec<char>) -> (b: bool)
    ensures
        b == (v@ == seq!['-']),
{
    if v.len() == 1 && v[0] == '-' {
        assert(v@ =~= seq!['-']);
        true
    } else {
        proof {
            if v@ == seq!['-'] {
                assert(v@[0] == '-');
            }
        }
        false
    }
}

/// Reads a FEN record; `None` where it describes no game.
pub fn parse_fen(fen: &str) -> (r: Option<Game>)
    ensures
        match r {
            Some(g) => game_of_fen(fen@) == Some(g@),
            None => game_of_fen(fen@) is None,
        },
{
    let board = get_board();
    let v = chars_of(fen);
    let fen_parts = split_fields(&v);
    if fen_parts.len() < 6 {
        return None;
    }
    let position = match fen_to_position(&fen_parts[0], &board) {
        Some(p) => p,
        None => {
            return None;
        },
    };
    let color_str = &fen_parts[1];
    let color = if color_str.len() > 0 {
        match Color::from(color_str[0]) {
            Some(c) => c,
            None => {
                return None;
            },
        }
    } else {
        return None;
    };
    let castling = Castling::from_chars(&fen_parts[2]);
    let ep_str = &fen_parts[3];
    let en_passant = if is_dash(ep_str) {
        None
    } else if ep_str.len() == 2 {
        match Coord::from_chars(ep_str[0], ep_str[1]) {
            Some(c) => Some(c),
            None => {
                return None;
            },
        }
    } else {
        return None;
    };
    let half_move_clock = match parse_u16_field(&fen_parts[4]) {
        Some(h) => h,
        None => {
            return None;
        },
    };
    let full_move_clock = match parse_u16_field(&fen_parts[5]) {
        Some(f) => f,
        None => {
            return None;
        },
    };
    let figures = figures_from(&position);
    let g = Game {
        board,
        position,
        figures,
        color,
        castling,
        en_passant,
        half_move_clock,
        full_move_clock,
    };
    proof {
        let parts = split_on(fen@, ' ');
        assert(fen_parts@[3]@ == parts[3]);
        if ep_str@.len() == 2 {
            assert(ep_str@ =~= seq![ep_str@[0], ep_str@[1]]);
        }
    }
    Some(g)
}

impl Game {
    /// Reads a FEN record.
    pub fn from(fen: String) -> (g: Game)
        requires
            game_of_fen(fen@) is Some,
        ensures
            game_of_fen(fen@) == Some(g@),
            game_wf(g@),
    {
        proof {
            lemma_game_of_fen_wf(fen@);
        }
        match parse_fen(fen.as_str()) {
            Some(g) => g,
            None => {
                proof {
                    assert(false);
                }
                Game {
                    board: Vec::new(),
                    position: Vec::new(),
                    figures: Vec::new(),
                    color: Color::W,
                    castling: Castling::new(),
                    en_passant: None,
                    half_move_clock: 0,
                    full_move_clock: 0,
                }
            },
        }
    }
}

} // verus!

verus! {

// ------------------------------------------------------------------
// Writing

/// Writes the pending count of empty squares, if any; the count starts
/// again from zero.
fn unload_space(spacer: u8, fen: &mut Vec<char>) -> (r: u8)
    requires
        spacer < 10,
    ensures
        final(fen)@ == unload(old(fen)@, spacer as nat),
        r == 0,
{
    if spacer > 0 {
        fen.push(digit_to_char(spacer));
    }
    0
}

/// Writes the piece-placement field of a FEN record.
pub fn position_to_fen(position: &Vec<Option<Figure>>) -> (fen: Vec<char>)
    requires
        position@.len() == 64,
    ensures
        fen@ == placement_text(position@),
{
    let mut fen: Vec<char> = Vec::new();
    let mut spacer: u8 = 0;
    let mut f: usize = 0;
    while f < position.len()
        invariant
            position@.len() == 64,
            f <= 64,
            (fen@, spacer as nat) == placement_text_scan(position@.take(f as int)),
            spacer as int <= if f == 0 {
                0
            } else {
                (f - 1) % 8 + 1
            },
        decreases 64 - f,
    {
        assert(position@.take(f + 1).drop_last() =~= position@.take(f as int));
        assert(position@.take(f + 1).last() == position@[f as int]);
        if f > 0 && f % 8 == 0 {
            spacer = unload_space(spacer, &mut fen);
            fen.push('/');
        }
        match position[f] {
            None => {
                spacer = spacer + 1;
            },
            Some(figure) => {
                spacer = unload_space(spacer, &mut fen);
                fen.push(figure.to_char());
            },
        }
        f = f + 1;
    }
    assert(position@.take(64) =~= position@);
    unload_space(spacer, &mut fen);
    fen
}

/// Appends the decimal text of `n`.
pub fn push_decimal(v: &mut Vec<char>, n: u16)
    ensures
        final(v)@ == old(v)@ + decimal(n as nat),
    decreases n,
{
    if n >= 10 {
        push_decimal(v, n / 10);
    }
    v.push(digit_to_char((n % 10) as u8));
    proof {
        if n < 10 {
            assert(n % 10 == n);
        }
        assert(final(v)@ =~= old(v)@ + decimal(n as nat));
    }
}

impl Game {
    /// The FEN record of the game.
    pub fn to_fen(self) -> (s: String)
        requires
            self@.position.len() == 64,
        ensures
            s@ == fen_of(self@),
    {
        let mut v = position_to_fen(&self.position);
        v.push(' ');
        v.push(self.color.to_char());
        v.push(' ');
        let mut c = self.castling.to_chars();
        v.append(&mut c);
        v.push(' ');
        match self.en_passant {
            None => {
                v.push('-');
            },
            Some(e) => {
                let mut t = e.to_chars();
                v.append(&mut t);
            },
        }
        v.push(' ');
        push_decimal(&mut v, self.half_move_clock);
        v.push(' ');
        push_decimal(&mut v, self.full_move_clock);
        assert(v@ =~= fen_of(self@));
        string_from_chars(&v)
    }
}

} // verus!

use vstd::prelude::*;
use crate::castling::{castling_text, lemma_castling_text_read_back};
use crate::color::color_char;
use crate::coord::{Coord, coord_at, lemma_square_name_roundtrip};
use crate::figure::{Figure, figure_char, lemma_figure_char_read_back};
use crate::fen::{
    PlacementScan, all_digits, color_field_of, decimal, digits_value, empty_squares,
    en_passant_of, en_passant_text, fen_of, game_of_fen, figures_of, lemma_split_on_nonempty,
    parse_u16, placement_fold, placement_start, placement_step, placement_text,
    placement_text_scan, scan_next, position_of_fen, split_on, unload,
};
use crate::game::{GameView, game_wf};
use crate::text::{digit_char, digit_value};

verus! {

// ------------------------------------------------------------------
// Splitting at spaces

pub proof fn lemma_split_on_concat(a: Seq<char>, b: Seq<char>, sep: char)
    ensures
        split_on(a + seq![sep] + b, sep) == split_on(a, sep) + split_on(b, sep),
    decreases b.len(),
{
    let s = a + seq![sep] + b;
    if b.len() == 0 {
        assert(s.drop_last() =~= a);
        assert(split_on(b, sep) =~= seq![Seq::<char>::empty()]);
        assert(split_on(s, sep) =~= split_on(a, sep) + split_on(b, sep));
    } else {
        let b1 = b.drop_last();
        assert(s.drop_last() =~= a + seq![sep] + b1);
        assert(s.last() == b.last());
        lemma_split_on_concat(a, b1, sep);
        lemma_split_on_nonempty(b1, sep);
        let ra = split_on(a, sep);
        let rb = split_on(b1, sep);
        if b.last() == sep {
            assert(split_on(s, sep) =~= ra + split_on(b, sep));
        } else {
            let r = ra + rb;
            assert(split_on(s, sep) == r.update(r.len() - 1, r.last().push(b.last())));
            assert(split_on(b, sep) == rb.update(rb.len() - 1, rb.last().push(b.last())));
            assert(split_on(s, sep) =~= ra + split_on(b, sep));
        }
    }
}

pub proof fn lemma_split_on_single(a: Seq<char>, sep: char)
    requires
        !a.contains(sep),
    ensures
        split_on(a, sep) == seq![a],
    decreases a.len(),
{
    if a.len() == 0 {
        assert(a =~= Seq::<char>::empty());
        assert(split_on(a, sep) =~= seq![a]);
    } else {
        let a1 = a.drop_last();
        assert(!a1.contains(sep)) by {
            if a1.contains(sep) {
                let j = choose|j: int| 0 <= j < a1.len() && a1[j] == sep;
                assert(a[j] == sep);
            }
        }
        lemma_split_on_single(a1, sep);
        assert(a[a.len() - 1] != sep);
        assert(a1.push(a.last()) =~= a);
        assert(split_on(a, sep) == seq![a1].update(0, a1.push(a.last())));
        assert(split_on(a, sep) =~= seq![a]);
    }
}

// ------------------------------------------------------------------
// Numbers

pub proof fn lemma_digit_char(d: int)
    requires
        0 <= d < 10,
    ensures
        digit_value(digit_char(d)) == Some(d),
        digit_char(d) != ' ',
        digit_char(d) != '/',
        digit_char(d) != '+',
        digit_char(d) != '-',
{
}

pub proof fn lemma_decimal(n: nat)
    ensures
        decimal(n).len() > 0,
        all_digits(decimal(n)),
        digits_value(decimal(n)) == n,
        !decimal(n).contains(' '),
    decreases n,
{
    if n < 10 {
        lemma_digit_char(n as int);
        let t = decimal(n);
        assert(t.drop_last() =~= Seq::<char>::empty());
        assert(digits_value(t.drop_last()) == 0);
        assert(t.last() == digit_char(n as int));
        assert(digits_value(t) == n);
        assert(!t.contains(' ')) by {
            if t.contains(' ') {
                assert(t[0] == ' ');
            }
        }
    } else {
        lemma_decimal(n / 10);
        let s = decimal(n / 10);
        let t = decimal(n);
        lemma_digit_char((n % 10) as int);
        assert(t.drop_last() =~= s);
        assert(digits_value(t) == digits_value(s) * 10 + (n % 10));
        assert(n == (n / 10) * 10 + n % 10);
        assert forall|k: int| 0 <= k < t.len() implies (#[trigger] digit_value(t[k])) is Some by {
            if k < s.len() {
                assert(t[k] == s[k]);
            }
        }
        assert(!t.contains(' ')) by {
            if t.contains(' ') {
                let j = choose|j: int| 0 <= j < t.len() && t[j] == ' ';
                if j < s.len() {
                    assert(t[j] == s[j]);
                }
            }
        }
    }
}

pub proof fn lemma_parse_decimal(n: u16)
    ensures
        parse_u16(decimal(n as nat)) == Some(n),
{
    lemma_decimal(n as nat);
    let s = decimal(n as nat);
    assert(digit_value(s[0]) is Some);
    assert(s[0] != '+');
}

// ------------------------------------------------------------------
// Piece placement

pub proof fn lemma_placement_fold_concat(st: PlacementScan, a: Seq<char>, b: Seq<char>)
    ensures
        placement_fold(st, a + b) == placement_fold(placement_fold(st, a), b),
    decreases b.len(),
{
    if b.len() == 0 {
        assert(a + b =~= a);
    } else {
        assert((a + b).drop_last() =~= a + b.drop_last());
        assert((a + b).last() == b.last());
        lemma_placement_fold_concat(st, a, b.drop_last());
    }
}

pub proof fn lemma_placement_fold_one(st: PlacementScan, c: char)
    ensures
        placement_fold(st, seq![c]) == placement_step(st, c),
{
    assert(seq![c].drop_last() =~= Seq::<char>::empty());
    assert(placement_fold(st, Seq::<char>::empty()) == st);
}

/// The squares of `p` before index `k`, the rest empty.
pub open spec fn prefix_squares(p: Seq<Option<Figure>>, k: int) -> Seq<Option<Figure>> {
    Seq::new(64, |i: int| if i < k { p[i] } else { None::<Figure> })
}

pub open spec fn square_wf(p: Seq<Option<Figure>>) -> bool {
    &&& p.len() == 64
    &&& forall|i: int| 0 <= i < 64 ==> (#[trigger] p[i] matches Some(f) ==> f.coord == coord_at(i))
}

/// Writing a pending count of empty squares and reading it back moves the
/// reader past those squares.
pub proof fn lemma_unload_read(t: Seq<char>, sp: nat, st: PlacementScan)
    requires
        sp < 10,
        st.ok,
        placement_fold(placement_start(), t) == st,
    ensures
        placement_fold(placement_start(), unload(t, sp)) == (PlacementScan { next: st.next + sp, ..st }),
{
    if sp > 0 {
        lemma_placement_fold_concat(placement_start(), t, seq![digit_char(sp as int)]);
        assert(unload(t, sp) == t + seq![digit_char(sp as int)]);
        lemma_placement_fold_one(st, digit_char(sp as int));
        lemma_digit_char(sp as int);
    } else {
        assert(PlacementScan { next: st.next + sp, ..st } == st);
    }
}

pub proof fn lemma_read_push(t: Seq<char>, c: char)
    ensures
        placement_fold(placement_start(), t.push(c)) == placement_step(
            placement_fold(placement_start(), t),
            c,
        ),
{
    assert(t.push(c).drop_last() =~= t);
}

pub proof fn lemma_no_space_push(t: Seq<char>, c: char)
    requires
        !t.contains(' '),
        c != ' ',
    ensures
        !t.push(c).contains(' '),
{
    let w = t.push(c);
    if w.contains(' ') {
        let j = choose|j: int| 0 <= j < w.len() && w[j] == ' ';
        if j < t.len() {
            assert(w[j] == t[j]);
        }
    }
}

pub proof fn lemma_no_space_unload(t: Seq<char>, sp: nat)
    requires
        !t.contains(' '),
        sp < 10,
    ensures
        !unload(t, sp).contains(' '),
{
    if sp > 0 {
        lemma_digit_char(sp as int);
        lemma_no_space_push(t, digit_char(sp as int));
    }
}

/// What the writer of a piece placement has written after `k` squares, with
/// `sp` empty squares pending, reads back as those squares.
pub open spec fn written_reads_back(p: Seq<Option<Figure>>, k: int, t: Seq<char>, sp: nat) -> bool {
    &&& sp <= k
    &&& sp <= (if k == 0 {
        0
    } else {
        (k - 1) % 8 + 1
    })
    &&& (forall|i: int| k - sp <= i < k ==> #[trigger] p[i] is None)
    &&& placement_fold(placement_start(), t) == PlacementScan {
        next: (k - sp) as nat,
        squares: prefix_squares(p, k),
        ok: true,
    }
    &&& !t.contains(' ')
}

pub open spec fn scan_reads_back(p: Seq<Option<Figure>>, k: int) -> bool {
    let (t, sp) = placement_text_scan(p.take(k));
    written_reads_back(p, k, t, sp)
}

/// A rank separator after the pending empty squares leaves the reader on
/// square `f`.
pub proof fn lemma_separator_read(t: Seq<char>, sp: nat, p: Seq<Option<Figure>>, f: int)
    requires
        sp < 10,
        sp <= f,
        placement_fold(placement_start(), t) == (PlacementScan {
            next: (f - sp) as nat,
            squares: prefix_squares(p, f),
            ok: true,
        }),
        !t.contains(' '),
    ensures
        placement_fold(placement_start(), unload(t, sp).push('/')) == (PlacementScan {
            next: f as nat,
            squares: prefix_squares(p, f),
            ok: true,
        }),
        !unload(t, sp).push('/').contains(' '),
{
    let st = placement_fold(placement_start(), t);
    lemma_unload_read(t, sp, st);
    lemma_read_push(unload(t, sp), '/');
    assert(digit_value('/') is None);
    lemma_no_space_unload(t, sp);
    lemma_no_space_push(unload(t, sp), '/');
}

/// A figure letter after the pending empty squares puts the figure on
/// square `f`.
pub proof fn lemma_figure_read(t: Seq<char>, sp: nat, p: Seq<Option<Figure>>, f: int, fig: Figure)
    requires
        sp < 10,
        sp <= f,
        0 <= f < 64,
        square_wf(p),
        p[f] == Some(fig),
        placement_fold(placement_start(), t) == (PlacementScan {
            next: (f - sp) as nat,
            squares: prefix_squares(p, f),
            ok: true,
        }),
        !t.contains(' '),
    ensures
        placement_fold(placement_start(), unload(t, sp).push(figure_char(fig))) == (PlacementScan {
            next: (f + 1) as nat,
            squares: prefix_squares(p, f + 1),
            ok: true,
        }),
        !unload(t, sp).push(figure_char(fig)).contains(' '),
{
    let st = placement_fold(placement_start(), t);
    lemma_unload_read(t, sp, st);
    let u = unload(t, sp);
    let c = figure_char(fig);
    lemma_read_push(u, c);
    lemma_figure_char_read_back(fig);
    assert(digit_value(c) is None);
    assert(c != '/');
    assert(fig.coord == coord_at(f));
    assert(prefix_squares(p, f + 1) =~= prefix_squares(p, f).update(f, Some(fig)));
    lemma_no_space_unload(t, sp);
    lemma_no_space_push(u, c);
}

/// Before square `f`: a rank separator where a new rank starts.
pub proof fn lemma_before_square(p: Seq<Option<Figure>>, f: int, t: Seq<char>, sp: nat)
    requires
        0 <= f < 64,
        written_reads_back(p, f, t, sp),
    ensures
        ({
            let (t1, sp1) = if f > 0 && f % 8 == 0 {
                (unload(t, sp).push('/'), 0nat)
            } else {
                (t, sp)
            };
            &&& sp1 <= f
            &&& sp1 <= f % 8
            &&& (forall|i: int| f - sp1 <= i < f ==> #[trigger] p[i] is None)
            &&& placement_fold(placement_start(), t1) == PlacementScan {
                next: (f - sp1) as nat,
                squares: prefix_squares(p, f),
                ok: true,
            }
            &&& !t1.contains(' ')
        }),
{
    if f > 0 && f % 8 == 0 {
        lemma_separator_read(t, sp, p, f);
    }
}

/// Square `f` written after the separator reads back.
pub proof fn lemma_at_square(p: Seq<Option<Figure>>, f: int, t1: Seq<char>, sp1: nat)
    requires
        square_wf(p),
        0 <= f < 64,
        sp1 <= f,
        sp1 <= f % 8,
        forall|i: int| f - sp1 <= i < f ==> #[trigger] p[i] is None,
        placement_fold(placement_start(), t1) == (PlacementScan {
            next: (f - sp1) as nat,
            squares: prefix_squares(p, f),
            ok: true,
        }),
        !t1.contains(' '),
    ensures
        ({
            let (t2, sp2) = match p[f] {
                None => (t1, sp1 + 1),
                Some(fig) => (unload(t1, sp1).push(figure_char(fig)), 0nat),
            };
            written_reads_back(p, f + 1, t2, sp2)
        }),
{
    match p[f] {
        None => {
            assert(prefix_squares(p, f + 1) =~= prefix_squares(p, f));
        },
        Some(fig) => {
            lemma_figure_read(t1, sp1, p, f, fig);
        },
    }
}

pub proof fn lemma_scan_step(p: Seq<Option<Figure>>, k: int)
    requires
        square_wf(p),
        1 <= k <= 64,
        scan_reads_back(p, k - 1),
    ensures
        scan_reads_back(p, k),
{
    let q = p.take(k);
    assert(q.drop_last() =~= p.take(k - 1));
    assert(q.last() == p[k - 1]);
    let prev = placement_text_scan(p.take(k - 1));
    assert(placement_text_scan(q) == scan_next(prev, k - 1, p[k - 1]));
    let (t, sp) = prev;
    let f = k - 1;
    lemma_before_square(p, f, t, sp);
    let (t1, sp1) = if f > 0 && f % 8 == 0 {
        (unload(t, sp).push('/'), 0nat)
    } else {
        (t, sp)
    };
    lemma_at_square(p, f, t1, sp1);
}

pub proof fn lemma_placement_scan_reads_back(p: Seq<Option<Figure>>, k: int)
    requires
        square_wf(p),
        0 <= k <= 64,
    ensures
        scan_reads_back(p, k),
    decreases k,
{
    if k == 0 {
        assert(p.take(0) =~= Seq::<Option<Figure>>::empty());
        assert(prefix_squares(p, 0) =~= empty_squares());
    } else {
        lemma_placement_scan_reads_back(p, k - 1);
        lemma_scan_step(p, k);
    }
}

pub proof fn lemma_placement_reads_back(p: Seq<Option<Figure>>)
    requires
        square_wf(p),
    ensures
        position_of_fen(placement_text(p)) == Some(p),
        !placement_text(p).contains(' '),
{
    lemma_placement_scan_reads_back(p, 64);
    assert(p.take(64) =~= p);
    let (t, sp) = placement_text_scan(p);
    let st = placement_fold(placement_start(), t);
    lemma_unload_read(t, sp, st);
    assert(prefix_squares(p, 64) =~= p);
    lemma_no_space_unload(t, sp);
}

// ------------------------------------------------------------------
// The whole record

pub proof fn lemma_castling_text_no_space(c: crate::castling::Castling)
    ensures
        !castling_text(c).contains(' '),
{
    let k = castling_text(c);
    if k.contains(' ') {
        let j = choose|j: int| 0 <= j < k.len() && k[j] == ' ';
        let kk = crate::castling::letter_if(c.white_kingside, 'K');
        let kq = crate::castling::letter_if(c.white_queenside, 'Q');
        let bk = crate::castling::letter_if(c.black_kingside, 'k');
        let bq = crate::castling::letter_if(c.black_queenside, 'q');
        if !(!c.white_kingside && !c.white_queenside && !c.black_kingside && !c.black_queenside) {
            assert(k =~= kk + kq + bk + bq);
            if j < kk.len() {
            } else if j < kk.len() + kq.len() {
                assert(k[j] == kq[j - kk.len()]);
            } else if j < kk.len() + kq.len() + bk.len() {
                assert(k[j] == bk[j - kk.len() - kq.len()]);
            } else {
                assert(k[j] == bq[j - kk.len() - kq.len() - bk.len()]);
            }
        }
    }
}

pub proof fn lemma_en_passant_text(e: Option<Coord>)
    requires
        e matches Some(c) ==> crate::coord::coord_wf(c),
    ensures
        !en_passant_text(e).contains(' '),
        en_passant_of(en_passant_text(e)) == Some(e),
{
    let t = en_passant_text(e);
    match e {
        None => {
            assert(en_passant_of(t) == Some(None::<Coord>));
            assert(!t.contains(' ')) by {
                if t.contains(' ') {
                    assert(t[0] == ' ');
                }
            }
        },
        Some(cc) => {
            lemma_square_name_roundtrip(cc);
            assert(t.len() == 2);
            assert(t != seq!['-']);
            assert(!t.contains(' ')) by {
                if t.contains(' ') {
                    let j = choose|j: int| 0 <= j < t.len() && t[j] == ' ';
                    assert(cc == coord_at(cc.idx as int));
                    if j == 0 {
                        assert(t[0] == cc.file);
                    } else {
                        assert(t[1] == cc.rank);
                    }
                }
            }
        },
    }
}

/// The six fields of a written record.
pub proof fn lemma_fen_fields(g: GameView)
    requires
        game_wf(g),
    ensures
        split_on(fen_of(g), ' ') == seq![
            placement_text(g.position),
            seq![color_char(g.color)],
            castling_text(g.castling),
            en_passant_text(g.en_passant),
            decimal(g.half_move_clock as nat),
            decimal(g.full_move_clock as nat),
        ],
{
    let p = placement_text(g.position);
    let c = seq![color_char(g.color)];
    let k = castling_text(g.castling);
    let e = en_passant_text(g.en_passant);
    let h = decimal(g.half_move_clock as nat);
    let f = decimal(g.full_move_clock as nat);
    let sp = seq![' '];
    let x1 = p + sp + c;
    let x2 = x1 + sp + k;
    let x3 = x2 + sp + e;
    let x4 = x3 + sp + h;
    assert(fen_of(g) =~= x4 + sp + f);
    lemma_placement_reads_back(g.position);
    lemma_decimal(g.half_move_clock as nat);
    lemma_decimal(g.full_move_clock as nat);
    assert(!c.contains(' ')) by {
        if c.contains(' ') {
            assert(c[0] == ' ');
        }
    }
    lemma_castling_text_no_space(g.castling);
    lemma_en_passant_text(g.en_passant);
    lemma_split_on_single(p, ' ');
    lemma_split_on_single(c, ' ');
    lemma_split_on_single(k, ' ');
    lemma_split_on_single(e, ' ');
    lemma_split_on_single(h, ' ');
    lemma_split_on_single(f, ' ');
    lemma_split_on_concat(p, c, ' ');
    lemma_split_on_concat(x1, k, ' ');
    lemma_split_on_concat(x2, e, ' ');
    lemma_split_on_concat(x3, h, ' ');
    lemma_split_on_concat(x4, f, ' ');
    assert(split_on(fen_of(g), ' ') =~= seq![p, c, k, e, h, f]);
}

/// Writing a game as a FEN record and reading the record back gives the
/// same game, its list of figures taken from its squares in square order.
pub proof fn law_fen_round_trip(g: GameView)
    requires
        game_wf(g),
    ensures
        game_of_fen(fen_of(g)) == Some(GameView { figures: figures_of(g.position), ..g }),
{
    lemma_fen_fields(g);
    lemma_placement_reads_back(g.position);
    lemma_castling_text_read_back(g.castling);
    lemma_parse_decimal(g.half_move_clock);
    lemma_parse_decimal(g.full_move_clock);
    lemma_en_passant_text(g.en_passant);
    let c = seq![color_char(g.color)];
    assert(color_field_of(c) == Some(g.color));
}

} // verus!

verus! {

/// A game whose figures are listed in square order is written as FEN and
/// read back unchanged.
pub proof fn law_fen_round_trip_exact(g: GameView)
    requires
        game_wf(g),
        g.figures == figures_of(g.position),
    ensures
        game_of_fen(fen_of(g)) == Some(g),
{
    law_fen_round_trip(g);
    assert(GameView { figures: figures_of(g.position), ..g } == g);
}

} // verus!

verus! {

/// Every text the library writes as FEN reads back as a game that is
/// written as the same text.
pub proof fn law_fen_text_round_trip(g: GameView)
    requires
        game_wf(g),
    ensures
        game_of_fen(fen_of(g)) is Some,
        fen_of(game_of_fen(fen_of(g))->0) == fen_of(g),
{
    law_fen_round_trip(g);
}

} // verus!

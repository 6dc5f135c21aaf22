use vstd::prelude::*;
use crate::castling::{castling_of, castling_text, letter_if};
use crate::color::color_char;
use crate::coord::{coord_at, file_char, rank_char, square_name, square_of};
use crate::fen::{
    PlacementScan, all_digits, color_field_of, decimal, digits_value, en_passant_of, en_passant_text, fen_of,
    game_of_fen, parse_u16, placement_fold, placement_start, placement_text, placement_text_scan,
    position_of_fen, scan_next, split_on, unload, empty_squares, lemma_split_on_nonempty,
};
use crate::figure::{Figure, color_of_letter, figure_char};
use crate::piece::piece_of_char;
use crate::fen_laws::{lemma_placement_fold_concat, lemma_placement_fold_one};
use crate::text::{digit_char, digit_value};

verus! {

// ------------------------------------------------------------------
// Joining fields

/// The parts joined with `sep` between each two.
pub open spec fn join_on(ps: Seq<Seq<char>>, sep: char) -> Seq<char>
    decreases ps.len(),
{
    if ps.len() == 0 {
        Seq::empty()
    } else if ps.len() == 1 {
        ps[0]
    } else {
        join_on(ps.drop_last(), sep) + seq![sep] + ps.last()
    }
}

/// Joining the parts of a split gives the text back.
pub proof fn lemma_join_split(s: Seq<char>, sep: char)
    ensures
        join_on(split_on(s, sep), sep) == s,
    decreases s.len(),
{
    if s.len() == 0 {
        assert(s =~= Seq::<char>::empty());
    } else {
        let s1 = s.drop_last();
        let c = s.last();
        lemma_join_split(s1, sep);
        lemma_split_on_nonempty(s1, sep);
        let r = split_on(s1, sep);
        if c == sep {
            let u = r.push(Seq::empty());
            assert(u.drop_last() =~= r);
            assert(join_on(u, sep) =~= s);
        } else {
            let u = r.update(r.len() - 1, r.last().push(c));
            assert(s1.push(c) =~= s);
            if r.len() == 1 {
                assert(u.len() == 1);
                assert(join_on(r, sep) == r[0]);
                assert(join_on(u, sep) == u[0]);
                assert(u[0] == r[0].push(c));
            } else {
                assert(u.drop_last() =~= r.drop_last());
                assert(join_on(u, sep) =~= s);
            }
        }
    }
}

// ------------------------------------------------------------------
// Canonical ranks

pub open spec fn is_rank_digit(c: char) -> bool {
    '1' <= c && c <= '8'
}

/// The number of squares a character of a rank covers.
pub open spec fn square_count(c: char) -> int {
    if is_rank_digit(c) {
        c as int - 48
    } else {
        1
    }
}

/// The number of squares a rank text covers.
pub open spec fn rank_width(r: Seq<char>) -> int
    decreases r.len(),
{
    if r.len() == 0 {
        0
    } else {
        rank_width(r.drop_last()) + square_count(r.last())
    }
}

/// A rank text of piece letters and digits 1 to 8, no two digits adjacent.
pub open spec fn rank_chars_ok(r: Seq<char>) -> bool {
    &&& forall|k: int| 0 <= k < r.len() ==> (piece_of_char(#[trigger] r[k]) is Some || is_rank_digit(r[k]))
    &&& forall|k: int| 0 < k < r.len() ==> !(is_rank_digit(r[k - 1]) && is_rank_digit(#[trigger] r[k]))
}

/// A rank text covering exactly eight squares.
pub open spec fn canonical_rank(r: Seq<char>) -> bool {
    rank_chars_ok(r) && rank_width(r) == 8
}

/// A canonical piece-placement field: eight ranks separated by `/`, each
/// of piece letters `pnbrqkPNBRQK` and digits 1 to 8, no two digits
/// adjacent, covering exactly eight squares.
pub open spec fn canonical_placement(s: Seq<char>) -> bool {
    let parts = split_on(s, '/');
    &&& parts.len() == 8
    &&& forall|i: int| 0 <= i < 8 ==> canonical_rank(#[trigger] parts[i])
}

/// The squares a rank text describes, the first at board index `base`.
pub open spec fn decode_rank(r: Seq<char>, base: int) -> Seq<Option<Figure>>
    decreases r.len(),
{
    if r.len() == 0 {
        Seq::empty()
    } else {
        let prev = decode_rank(r.drop_last(), base);
        let c = r.last();
        if is_rank_digit(c) {
            prev + Seq::new((c as int - 48) as nat, |i: int| None::<Figure>)
        } else {
            prev.push(
                Some(
                    Figure {
                        color: color_of_letter(c),
                        coord: coord_at(base + prev.len()),
                        piece: piece_of_char(c)->0,
                    },
                ),
            )
        }
    }
}

pub proof fn lemma_rank_chars_prefix(r: Seq<char>)
    requires
        r.len() > 0,
        rank_chars_ok(r),
    ensures
        rank_chars_ok(r.drop_last()),
{
    let q = r.drop_last();
    assert forall|k: int| 0 <= k < q.len() implies (piece_of_char(#[trigger] q[k]) is Some
        || is_rank_digit(q[k])) by {
        assert(q[k] == r[k]);
    }
    assert forall|k: int| 0 < k < q.len() implies !(is_rank_digit(q[k - 1]) && is_rank_digit(
        #[trigger] q[k],
    )) by {
        assert(q[k] == r[k] && q[k - 1] == r[k - 1]);
    }
}

pub proof fn lemma_decode_len(r: Seq<char>, base: int)
    requires
        rank_chars_ok(r),
    ensures
        decode_rank(r, base).len() == rank_width(r),
        rank_width(r) >= 0,
    decreases r.len(),
{
    if r.len() > 0 {
        lemma_rank_chars_prefix(r);
        lemma_decode_len(r.drop_last(), base);
        assert(piece_of_char(r[r.len() - 1]) is Some || is_rank_digit(r[r.len() - 1]));
    }
}

// ------------------------------------------------------------------
// Reading a rank

pub open spec fn overlay(q: Seq<Option<Figure>>, b: int, d: Seq<Option<Figure>>) -> Seq<Option<Figure>> {
    Seq::new(64, |i: int| if b <= i < b + d.len() { d[i - b] } else { q[i] })
}

/// Reading a rank text from square `b` puts its figures on the squares
/// from `b` on and moves past them.
pub proof fn lemma_read_rank(st: PlacementScan, r: Seq<char>, b: int)
    requires
        rank_chars_ok(r),
        st.ok,
        st.next == b,
        0 <= b,
        b + rank_width(r) <= 64,
        st.squares.len() == 64,
        forall|i: int| b <= i < b + rank_width(r) ==> #[trigger] st.squares[i] is None,
    ensures
        placement_fold(st, r) == (PlacementScan {
            next: (b + rank_width(r)) as nat,
            squares: overlay(st.squares, b, decode_rank(r, b)),
            ok: true,
        }),
    decreases r.len(),
{
    lemma_decode_len(r, b);
    if r.len() == 0 {
        assert(overlay(st.squares, b, decode_rank(r, b)) =~= st.squares);
    } else {
        let r1 = r.drop_last();
        let c = r.last();
        lemma_rank_chars_prefix(r);
        lemma_decode_len(r1, b);
        assert(piece_of_char(r[r.len() - 1]) is Some || is_rank_digit(r[r.len() - 1]));
        let w1 = rank_width(r1);
        assert(square_count(c) >= 1);
        lemma_read_rank(st, r1, b);
        let st1 = placement_fold(st, r1);
        let d1 = decode_rank(r1, b);
        if is_rank_digit(c) {
            assert(digit_value(c) == Some(c as int - 48));
            assert(overlay(st.squares, b, decode_rank(r, b)) =~= overlay(st.squares, b, d1));
        } else {
            assert(digit_value(c) is None);
            assert(c != '/');
            assert(overlay(st.squares, b, decode_rank(r, b)) =~= overlay(st.squares, b, d1).update(
                b + w1,
                Some(
                    Figure {
                        color: color_of_letter(c),
                        coord: coord_at(b + w1),
                        piece: piece_of_char(c)->0,
                    },
                ),
            ));
        }
    }
}

// ------------------------------------------------------------------
// Reading a canonical placement

/// The squares of the first `k` ranks of a placement, in board order.
pub open spec fn decode_ranks(parts: Seq<Seq<char>>, k: int) -> Seq<Option<Figure>>
    decreases k,
{
    if k <= 0 {
        Seq::empty()
    } else {
        decode_ranks(parts, k - 1) + decode_rank(parts[k - 1], 8 * (k - 1))
    }
}

/// The squares of the first `k` ranks, the rest of the board empty.
pub open spec fn read_so_far(parts: Seq<Seq<char>>, k: int) -> Seq<Option<Figure>> {
    let d = decode_ranks(parts, k);
    Seq::new(64, |i: int| if i < d.len() { d[i] } else { None::<Figure> })
}

pub proof fn lemma_decode_ranks_len(parts: Seq<Seq<char>>, k: int)
    requires
        0 <= k <= parts.len(),
        forall|i: int| 0 <= i < parts.len() ==> canonical_rank(#[trigger] parts[i]),
    ensures
        decode_ranks(parts, k).len() == 8 * k,
    decreases k,
{
    if k > 0 {
        lemma_decode_ranks_len(parts, k - 1);
        lemma_decode_len(parts[k - 1], 8 * (k - 1));
    }
}

/// The ranks joined with `/`, up to rank `k`, read as the first `k` ranks.
pub proof fn lemma_read_ranks(parts: Seq<Seq<char>>, k: int)
    requires
        parts.len() == 8,
        1 <= k <= 8,
        forall|i: int| 0 <= i < 8 ==> canonical_rank(#[trigger] parts[i]),
    ensures
        placement_fold(placement_start(), join_on(parts.take(k), '/')) == (PlacementScan {
            next: (8 * k) as nat,
            squares: read_so_far(parts, k),
            ok: true,
        }),
    decreases k,
{
    lemma_decode_ranks_len(parts, k);
    lemma_decode_ranks_len(parts, k - 1);
    let r = parts[k - 1];
    let b = 8 * (k - 1);
    lemma_decode_len(r, b);
    let prev = if k == 1 {
        placement_start()
    } else {
        PlacementScan { next: b as nat, squares: read_so_far(parts, k - 1), ok: true }
    };
    let text = join_on(parts.take(k), '/');
    if k == 1 {
        assert(parts.take(1).len() == 1);
        assert(text == parts[0]);
        assert(read_so_far(parts, 0) =~= empty_squares());
    } else {
        lemma_read_ranks(parts, k - 1);
        assert(parts.take(k).drop_last() =~= parts.take(k - 1));
        assert(text == join_on(parts.take(k - 1), '/') + seq!['/'] + r);
        lemma_placement_fold_concat(
            placement_start(),
            join_on(parts.take(k - 1), '/') + seq!['/'],
            r,
        );
        lemma_placement_fold_concat(placement_start(), join_on(parts.take(k - 1), '/'), seq!['/']);
        lemma_placement_fold_one(prev, '/');
        assert(digit_value('/') is None);
    }
    assert(prev.squares.len() == 64);
    assert(forall|i: int| b <= i < b + rank_width(r) ==> #[trigger] prev.squares[i] is None);
    lemma_read_rank(prev, r, b);
    assert(overlay(prev.squares, b, decode_rank(r, b)) =~= read_so_far(parts, k));
}

/// A canonical placement reads as its ranks decoded one after the other.
pub proof fn lemma_read_placement(s: Seq<char>)
    requires
        canonical_placement(s),
    ensures
        position_of_fen(s) == Some(decode_ranks(split_on(s, '/'), 8)),
        decode_ranks(split_on(s, '/'), 8).len() == 64,
{
    let parts = split_on(s, '/');
    lemma_read_ranks(parts, 8);
    assert(parts.take(8) =~= parts);
    lemma_join_split(s, '/');
    lemma_decode_ranks_len(parts, 8);
    assert(read_so_far(parts, 8) =~= decode_ranks(parts, 8));
}

// ------------------------------------------------------------------
// Writing a rank

/// Writing the squares of one rank: the text so far and the number of
/// empty squares not yet written.
pub open spec fn rank_scan(row: Seq<Option<Figure>>) -> (Seq<char>, nat)
    decreases row.len(),
{
    if row.len() == 0 {
        (Seq::empty(), 0)
    } else {
        rank_scan_step(rank_scan(row.drop_last()), row.last())
    }
}

/// One more square of a rank written: an empty square is one more pending,
/// a figure is written after the pending empty squares.
pub open spec fn rank_scan_step(prev: (Seq<char>, nat), sq: Option<Figure>) -> (Seq<char>, nat) {
    let (t, sp) = prev;
    match sq {
        None => (t, sp + 1),
        Some(fig) => (unload(t, sp).push(figure_char(fig)), 0nat),
    }
}

/// The text of one rank of squares.
pub open spec fn rank_text(row: Seq<Option<Figure>>) -> Seq<char> {
    unload(rank_scan(row).0, rank_scan(row).1)
}

/// The rank texts of the eight ranks of a position.
pub open spec fn rank_texts(p: Seq<Option<Figure>>) -> Seq<Seq<char>> {
    Seq::new(8, |k: int| rank_text(p.subrange(8 * k, 8 * k + 8)))
}

/// What is written before rank `k`: the earlier ranks, each followed by `/`.
pub open spec fn written_before(rs: Seq<Seq<char>>, k: int) -> Seq<char> {
    if k <= 0 {
        Seq::empty()
    } else {
        join_on(rs.take(k), '/') + seq!['/']
    }
}

/// Writing the first `j` squares of rank `k` continues the text of the
/// earlier ranks with the text of those squares.
pub proof fn lemma_write_scan(p: Seq<Option<Figure>>, k: int, j: int)
    requires
        p.len() == 64,
        0 <= k < 8,
        1 <= j <= 8,
    ensures
        ({
            let (a, sp) = rank_scan(p.subrange(8 * k, 8 * k + j));
            placement_text_scan(p.take(8 * k + j)) == (written_before(rank_texts(p), k) + a, sp)
        }),
    decreases 8 * k + j,
{
    let n = 8 * k + j;
    let rs = rank_texts(p);
    let w = written_before(rs, k);
    assert(p.take(n).drop_last() =~= p.take(n - 1));
    assert(p.take(n).last() == p[n - 1]);
    let row = p.subrange(8 * k, 8 * k + j);
    assert(row.last() == p[n - 1]);
    if j >= 2 {
        lemma_write_scan(p, k, j - 1);
        assert(row.drop_last() =~= p.subrange(8 * k, 8 * k + j - 1));
        let (a1, sp1) = rank_scan(row.drop_last());
        assert((n - 1) % 8 == j - 1);
        assert(placement_text_scan(p.take(n - 1)) == (w + a1, sp1));
        assert(placement_text_scan(p.take(n)) == scan_next((w + a1, sp1), n - 1, p[n - 1]));
        assert(rank_scan(row) == rank_scan_step(rank_scan(row.drop_last()), p[n - 1]));
        match p[n - 1] {
            None => {},
            Some(fig) => {
                assert(unload(w + a1, sp1).push(figure_char(fig)) =~= w + unload(a1, sp1).push(
                    figure_char(fig),
                ));
            },
        }
        assert(placement_text_scan(p.take(n)) == (w + rank_scan(row).0, rank_scan(row).1));
    } else {
        assert(row.drop_last() =~= Seq::<Option<Figure>>::empty());
        if k == 0 {
            assert(w =~= Seq::<char>::empty());
            assert(w + unload(Seq::<char>::empty(), 0).push(figure_char(p[0]->0)) =~= unload(
                Seq::<char>::empty(),
                0,
            ).push(figure_char(p[0]->0)));
            assert(w + Seq::<char>::empty() =~= Seq::<char>::empty());
            assert(placement_text_scan(p.take(n)) == (w + rank_scan(row).0, rank_scan(row).1));
        } else {
            lemma_write_scan(p, k - 1, 8);
            let prow = p.subrange(8 * (k - 1), 8 * (k - 1) + 8);
            let (a0, sp0) = rank_scan(prow);
            let wp = written_before(rs, k - 1);
            assert(rs[k - 1] == rank_text(prow));
            assert((n - 1) % 8 == 0);
            assert(unload(wp + a0, sp0) =~= wp + rs[k - 1]);
            if k == 1 {
                assert(rs.take(1) =~= seq![rs[0]]);
                assert(join_on(rs.take(1), '/') == rs[0]);
                assert(wp =~= Seq::<char>::empty());
                assert(w =~= rs[0] + seq!['/']);
            } else {
                assert(rs.take(k).drop_last() =~= rs.take(k - 1));
                assert(rs.take(k).last() == rs[k - 1]);
                assert(w =~= wp + rs[k - 1] + seq!['/']);
            }
            assert(unload(wp + a0, sp0).push('/') =~= w);
            assert(p.take(n - 1) =~= p.take(8 * (k - 1) + 8));
            assert(placement_text_scan(p.take(n - 1)) == (wp + a0, sp0));
            assert(placement_text_scan(p.take(n)) == scan_next((wp + a0, sp0), n - 1, p[n - 1]));
            assert(row.len() == 1);
            assert(rank_scan(row.drop_last()) == (Seq::<char>::empty(), 0nat));
            assert(rank_scan(row) == rank_scan_step(rank_scan(row.drop_last()), row.last()));
            assert(rank_scan(row) == rank_scan_step((Seq::<char>::empty(), 0nat), p[n - 1]));
            match p[n - 1] {
                None => {
                    assert(w + Seq::<char>::empty() =~= w);
                },
                Some(fig) => {
                    assert(unload(w, 0).push(figure_char(fig)) =~= w + unload(
                        Seq::<char>::empty(),
                        0,
                    ).push(figure_char(fig)));
                },
            }
            assert(placement_text_scan(p.take(n)) == (w + rank_scan(row).0, rank_scan(row).1));
        }
    }
}

/// The placement text of a position is its rank texts joined with `/`.
pub proof fn lemma_placement_text_ranks(p: Seq<Option<Figure>>)
    requires
        p.len() == 64,
    ensures
        placement_text(p) == join_on(rank_texts(p), '/'),
{
    let rs = rank_texts(p);
    lemma_write_scan(p, 7, 8);
    assert(p.take(64) =~= p);
    let row = p.subrange(56, 64);
    let (a, sp) = rank_scan(row);
    let w = written_before(rs, 7);
    assert(unload(w + a, sp) =~= w + rank_text(row));
    assert(rs[7] == rank_text(row));
    assert(rs.take(8) =~= rs);
    assert(rs.take(8).drop_last() =~= rs.take(7));
    assert(join_on(rs, '/') =~= join_on(rs.take(7), '/') + seq!['/'] + rs[7]);
}

// ------------------------------------------------------------------
// A canonical rank is written back as it was read

pub open spec fn no_squares(d: int) -> Seq<Option<Figure>> {
    Seq::new(d as nat, |i: int| None::<Figure>)
}

pub proof fn lemma_scan_empty_squares(x: Seq<Option<Figure>>, d: int)
    requires
        0 <= d,
    ensures
        rank_scan(x + no_squares(d)) == (rank_scan(x).0, rank_scan(x).1 + d as nat),
    decreases d,
{
    if d == 0 {
        assert(x + no_squares(d) =~= x);
    } else {
        lemma_scan_empty_squares(x, d - 1);
        assert((x + no_squares(d)).drop_last() =~= x + no_squares(d - 1));
    }
}

pub proof fn lemma_letter_written_back(c: char, coord: crate::coord::Coord)
    requires
        piece_of_char(c) is Some,
    ensures
        figure_char(Figure { color: color_of_letter(c), coord, piece: piece_of_char(c)->0 }) == c,
{
}

/// A rank text of piece letters and digits, no two digits adjacent, is
/// written back as it was read.
pub proof fn lemma_rank_written_back(r: Seq<char>, b: int)
    requires
        rank_chars_ok(r),
    ensures
        rank_text(decode_rank(r, b)) == r,
        r.len() > 0 && is_rank_digit(r.last()) ==> rank_scan(decode_rank(r, b)) == (
            r.drop_last(),
            (r.last() as int - 48) as nat,
        ),
        !(r.len() > 0 && is_rank_digit(r.last())) ==> rank_scan(decode_rank(r, b)) == (r, 0nat),
    decreases r.len(),
{
    if r.len() == 0 {
        assert(decode_rank(r, b) =~= Seq::<Option<Figure>>::empty());
    } else {
        let r1 = r.drop_last();
        let c = r.last();
        lemma_rank_chars_prefix(r);
        lemma_rank_written_back(r1, b);
        let prev = decode_rank(r1, b);
        assert(piece_of_char(r[r.len() - 1]) is Some || is_rank_digit(r[r.len() - 1]));
        if is_rank_digit(c) {
            if r1.len() > 0 {
                assert(!(is_rank_digit(r[r.len() - 2]) && is_rank_digit(r[r.len() - 1])));
            }
            assert(decode_rank(r, b) == prev + no_squares(c as int - 48));
            lemma_scan_empty_squares(prev, c as int - 48);
            assert(r1.push(digit_char(c as int - 48)) =~= r);
        } else {
            lemma_letter_written_back(c, coord_at(b + prev.len()));
            let fig = Figure {
                color: color_of_letter(c),
                coord: coord_at(b + prev.len()),
                piece: piece_of_char(c)->0,
            };
            assert(decode_rank(r, b) == prev.push(Some(fig)));
            assert(decode_rank(r, b).drop_last() =~= prev);
            if r1.len() > 0 && is_rank_digit(r1.last()) {
                assert(unload(r1.drop_last(), (r1.last() as int - 48) as nat) =~= r1);
            }
            assert(rank_scan(prev).0 + Seq::<char>::empty() =~= rank_scan(prev).0);
            assert(unload(rank_scan(prev).0, rank_scan(prev).1) == r1);
            assert(r1.push(c) =~= r);
        }
    }
}

pub proof fn lemma_decoded_rank(parts: Seq<Seq<char>>, k: int, m: int)
    requires
        parts.len() == 8,
        0 <= k < m <= 8,
        forall|i: int| 0 <= i < 8 ==> canonical_rank(#[trigger] parts[i]),
    ensures
        decode_ranks(parts, m).subrange(8 * k, 8 * k + 8) == decode_rank(parts[k], 8 * k),
    decreases m,
{
    lemma_decode_ranks_len(parts, m);
    lemma_decode_ranks_len(parts, m - 1);
    lemma_decode_len(parts[m - 1], 8 * (m - 1));
    if k == m - 1 {
        assert(decode_ranks(parts, m).subrange(8 * k, 8 * k + 8) =~= decode_rank(parts[k], 8 * k));
    } else {
        lemma_decoded_rank(parts, k, m - 1);
        assert(decode_ranks(parts, m).subrange(8 * k, 8 * k + 8) =~= decode_ranks(
            parts,
            m - 1,
        ).subrange(8 * k, 8 * k + 8));
    }
}

/// A canonical piece-placement field is read as a position whose
/// piece-placement text is the field itself.
pub proof fn law_canonical_placement_round_trip(s: Seq<char>)
    requires
        canonical_placement(s),
    ensures
        position_of_fen(s) is Some,
        placement_text(position_of_fen(s)->0) == s,
{
    let parts = split_on(s, '/');
    lemma_read_placement(s);
    let d = decode_ranks(parts, 8);
    lemma_placement_text_ranks(d);
    assert forall|k: int| 0 <= k < 8 implies #[trigger] rank_texts(d)[k] == parts[k] by {
        lemma_decoded_rank(parts, k, 8);
        lemma_rank_written_back(parts[k], 8 * k);
    }
    assert(rank_texts(d) =~= parts);
    lemma_join_split(s, '/');
}

// ------------------------------------------------------------------
// Canonical records

/// A clock field as FEN writes it: decimal digits without leading zeros,
/// the value not above `u16::MAX`.
pub open spec fn canonical_clock(t: Seq<char>) -> bool {
    &&& t.len() > 0
    &&& all_digits(t)
    &&& (t.len() == 1 || t[0] != '0')
    &&& digits_value(t) <= u16::MAX
}

/// A castling field as FEN writes it: `-`, or a non-empty selection of the
/// letters `KQkq` in that order.
pub open spec fn canonical_castling(t: Seq<char>) -> bool {
    ||| t == seq!['-']
    ||| t.len() > 0 && t == letter_if(t.contains('K'), 'K') + letter_if(t.contains('Q'), 'Q')
        + letter_if(t.contains('k'), 'k') + letter_if(t.contains('q'), 'q')
}

/// A FEN record as this library writes one: six fields separated by single
/// spaces; a canonical piece placement; `w` or `b`; a canonical castling
/// field; `-` or the name of a square; two canonical clocks.
pub open spec fn canonical_fen(s: Seq<char>) -> bool {
    let parts = split_on(s, ' ');
    &&& parts.len() == 6
    &&& canonical_placement(parts[0])
    &&& (parts[1] == seq!['w'] || parts[1] == seq!['b'])
    &&& canonical_castling(parts[2])
    &&& (parts[3] == seq!['-'] || square_of(parts[3]) is Some)
    &&& canonical_clock(parts[4])
    &&& canonical_clock(parts[5])
}

pub proof fn lemma_leading_digit(t: Seq<char>)
    requires
        t.len() > 0,
        all_digits(t),
        t[0] != '0',
    ensures
        digits_value(t) >= 1,
    decreases t.len(),
{
    assert(digit_value(t[t.len() - 1]) is Some);
    if t.len() > 1 {
        let t1 = t.drop_last();
        assert forall|k: int| 0 <= k < t1.len() implies (#[trigger] digit_value(t1[k])) is Some by {
            assert(t1[k] == t[k]);
        }
        assert(t1[0] == t[0]);
        lemma_leading_digit(t1);
    } else {
        assert(digit_value(t[0]) is Some);
        assert(t.drop_last() =~= Seq::<char>::empty());
    }
}

/// A clock field is the decimal text of its value.
pub proof fn lemma_clock_written_back(t: Seq<char>)
    requires
        t.len() > 0,
        all_digits(t),
        t.len() == 1 || t[0] != '0',
    ensures
        decimal(digits_value(t)) == t,
    decreases t.len(),
{
    let c = t.last();
    assert(digit_value(t[t.len() - 1]) is Some);
    let d = c as int - 48;
    assert(digit_char(d) == c);
    let t1 = t.drop_last();
    if t.len() == 1 {
        assert(t1 =~= Seq::<char>::empty());
        assert(digits_value(t1) == 0);
        assert(digit_value(c) == Some(d));
        assert(digits_value(t) == d);
        assert(decimal(d as nat) =~= t);
    } else {
        assert forall|k: int| 0 <= k < t1.len() implies (#[trigger] digit_value(t1[k])) is Some by {
            assert(t1[k] == t[k]);
        }
        assert(t1[0] == t[0]);
        lemma_clock_written_back(t1);
        lemma_leading_digit(t1);
        let v1 = digits_value(t1);
        let n = digits_value(t);
        assert(n == v1 * 10 + d);
        assert(n / 10 == v1 && n % 10 == d) by (nonlinear_arith)
            requires
                n == v1 * 10 + d,
                0 <= d < 10,
                v1 >= 1,
        ;
        assert(t1.push(c) =~= t);
    }
}

pub proof fn lemma_clock_round_trip(t: Seq<char>)
    requires
        canonical_clock(t),
    ensures
        parse_u16(t) is Some,
        decimal(parse_u16(t)->0 as nat) == t,
{
    assert(digit_value(t[0]) is Some);
    assert(t[0] != '+');
    lemma_clock_written_back(t);
}

pub proof fn lemma_castling_round_trip(t: Seq<char>)
    requires
        canonical_castling(t),
    ensures
        castling_text(castling_of(t)) == t,
{
    if t == seq!['-'] {
        assert(!t.contains('K'));
        assert(!t.contains('Q'));
        assert(!t.contains('k'));
        assert(!t.contains('q'));
    } else {
        let c = castling_of(t);
        if !c.white_kingside && !c.white_queenside && !c.black_kingside && !c.black_queenside {
            assert(t =~= Seq::<char>::empty());
        }
    }
}

pub proof fn lemma_en_passant_round_trip(t: Seq<char>)
    requires
        t == seq!['-'] || square_of(t) is Some,
    ensures
        en_passant_of(t) is Some,
        en_passant_text(en_passant_of(t)->0) == t,
{
    if t != seq!['-'] {
        let x = t[0] as int - 97;
        let y = t[1] as int - 49;
        assert(0 <= x < 8 && 0 <= y < 8);
        let i = (7 - y) * 8 + x;
        assert(i % 8 == x && i / 8 == 7 - y) by (nonlinear_arith)
            requires
                i == (7 - y) * 8 + x,
                0 <= x < 8,
                0 <= y < 8,
        ;
        assert(file_char(x) == t[0]);
        assert(rank_char(y) == t[1]);
        assert(square_name(coord_at(i)) =~= t);
    }
}

pub proof fn lemma_join_six(ps: Seq<Seq<char>>, sep: char)
    requires
        ps.len() == 6,
    ensures
        join_on(ps, sep) == ps[0] + seq![sep] + ps[1] + seq![sep] + ps[2] + seq![sep] + ps[3]
            + seq![sep] + ps[4] + seq![sep] + ps[5],
{
    let q5 = ps.drop_last();
    let q4 = q5.drop_last();
    let q3 = q4.drop_last();
    let q2 = q3.drop_last();
    let q1 = q2.drop_last();
    assert(join_on(q1, sep) == ps[0]);
    assert(join_on(q2, sep) == ps[0] + seq![sep] + ps[1]);
    assert(join_on(q3, sep) == ps[0] + seq![sep] + ps[1] + seq![sep] + ps[2]);
    assert(join_on(q4, sep) == ps[0] + seq![sep] + ps[1] + seq![sep] + ps[2] + seq![sep] + ps[3]);
    assert(join_on(q5, sep) == ps[0] + seq![sep] + ps[1] + seq![sep] + ps[2] + seq![sep] + ps[3]
        + seq![sep] + ps[4]);
}

/// A canonical FEN record is read as a game whose FEN record is the text
/// itself.
pub proof fn law_canonical_fen_round_trip(s: Seq<char>)
    requires
        canonical_fen(s),
    ensures
        game_of_fen(s) is Some,
        fen_of(game_of_fen(s)->0) == s,
{
    let parts = split_on(s, ' ');
    law_canonical_placement_round_trip(parts[0]);
    lemma_castling_round_trip(parts[2]);
    lemma_en_passant_round_trip(parts[3]);
    lemma_clock_round_trip(parts[4]);
    lemma_clock_round_trip(parts[5]);
    assert(color_field_of(parts[1]) is Some);
    let g = game_of_fen(s)->0;
    assert(seq![color_char(g.color)] == parts[1]);
    lemma_join_split(s, ' ');
    lemma_join_six(parts, ' ');
    assert(fen_of(g) =~= parts[0] + seq![' '] + parts[1] + seq![' '] + parts[2] + seq![' ']
        + parts[3] + seq![' '] + parts[4] + seq![' '] + parts[5]);
}

} // verus!

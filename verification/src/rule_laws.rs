use vstd::prelude::*;
use crate::color::{Color, factor_of, next_of};
use crate::coord::{coord_at, lemma_coord_at_wf, square_of_chars};
use crate::draw::{Draw, draw_of};
use crate::figure::Figure;
use crate::figset::lemma_filter_subset;
use crate::game::{GameView, game_wf, king_of, move_figure_spec};
use crate::moves::{abs, move_targets};
use crate::piece::Piece;
use crate::play::{ep_pred, has_long_castle, has_short_castle, play_move_spec};
use crate::play_laws::law_mover_kind;
use crate::select::{checker_pred, checkers, mover_of, pin_base, pins_choice, unpinned_pred};

verus! {

// ------------------------------------------------------------------
// Pins

/// The figure chosen by the pin filter, once moved to the target, leaves
/// no enemy rook, bishop or queen able to move onto its own king's square.
pub proof fn law_pin_choice_leaves_king_unattacked(figs: Seq<Figure>, d: Draw, g: GameView)
    requires
        pins_choice(figs, d, g) is Some,
    ensures
        ({
            let m = pins_choice(figs, d, g)->0;
            let k = king_of(g, g.color)->0;
            let alt = move_figure_spec(pin_base(g, d)->0, m, d.target);
            forall|q: Figure|
                #[trigger] alt.figures.contains(q) && q.color != g.color && (q.piece == Piece::R
                    || q.piece == Piece::B || q.piece == Piece::Q) ==> !move_targets(alt, q).contains(
                    k.coord,
                )
        }),
{
    let m = pins_choice(figs, d, g)->0;
    let k = king_of(g, g.color)->0;
    let b = pin_base(g, d)->0;
    let p = unpinned_pred(b, g.color, k.coord, d.target);
    lemma_filter_subset(figs, p);
    assert(p(m));
    let alt = move_figure_spec(b, m, d.target);
    let cp = checker_pred(alt, g.color, k.coord);
    assert(checkers(alt, g.color, k.coord).len() == 0);
    assert forall|q: Figure|
        #[trigger] alt.figures.contains(q) && q.color != g.color && (q.piece == Piece::R || q.piece
            == Piece::B || q.piece == Piece::Q) implies !move_targets(alt, q).contains(k.coord) by {
        if move_targets(alt, q).contains(k.coord) {
            assert(cp(q));
            let j = choose|j: int| 0 <= j < alt.figures.len() && alt.figures[j] == q;
            alt.figures.lemma_filter_contains(cp, j);
            assert(alt.figures.filter(cp).contains(q));
        }
    }
}

// ------------------------------------------------------------------
// Pawn advances

/// A pawn advances only where the square in front of it is empty: each
/// square it may move to is that square, or, from its starting rank, the
/// square two in front.
pub proof fn law_pawn_advances_past_empty_front(g: GameView, fig: Figure)
    requires
        fig.piece == Piece::P,
    ensures
        ({
            let front = fig.coord.idx - factor_of(fig.color) * 8;
            let two = fig.coord.idx - factor_of(fig.color) * 16;
            let t = move_targets(g, fig);
            &&& t.len() > 0 ==> g.position[front] is None && t[0] == coord_at(front)
            &&& t.len() <= 2
            &&& t.len() == 2 ==> t[1] == coord_at(two) && (fig.color == Color::W ==> fig.coord.y
                == 1) && (fig.color == Color::B ==> fig.coord.y == 6)
        }),
{
}

// ------------------------------------------------------------------
// En passant

/// An en-passant square is offered only on the square a pawn passed over,
/// and only where a pawn of the side now to move stands beside the pawn's
/// target, on its rank and one file away.
pub proof fn law_en_passant_needs_enemy_pawn_beside(g: GameView, mv: Seq<char>)
    requires
        play_move_spec(g, mv) is Some,
        play_move_spec(g, mv)->0.en_passant is Some,
    ensures
        ({
            let d = draw_of(mv)->0;
            let h = play_move_spec(g, mv)->0;
            &&& h.en_passant == Some(coord_at(d.target.idx + factor_of(g.color) * 8))
            &&& exists|f: Figure|
                #[trigger] g.figures.contains(f) && f.color == next_of(g.color) && f.color
                    == h.color && f.piece == Piece::P && f.coord.y == d.target.y && abs(
                    f.coord.x - d.target.x,
                ) == 1
        }),
{
    let d = draw_of(mv)->0;
    let p = ep_pred(g.color, d.target);
    lemma_filter_subset(g.figures, p);
    let f = g.figures.filter(p)[0];
    assert(g.figures.contains(f));
    assert(p(f));
}

// ------------------------------------------------------------------
// Castling rights

/// Whether `m` stands on the corner square at `file` on its own side's
/// back rank.
pub open spec fn on_corner(m: Figure, file: char) -> bool {
    m.coord.file == file && m.coord.rank == (if m.color == Color::W {
        '1'
    } else {
        '8'
    })
}

/// After a move other than castling, a side loses a castling right exactly
/// where its king moved, or its rook moved away from the corner of that
/// wing (`h` for the king's side, `a` for the queen's side); every other
/// right stays as it was.
pub proof fn law_move_castling_rights(g: GameView, mv: Seq<char>)
    requires
        game_wf(g),
        play_move_spec(g, mv) is Some,
        !has_short_castle(mv),
    ensures
        ({
            let m = mover_of(g, draw_of(mv)->0)->0;
            let r = g.castling;
            let h = play_move_spec(g, mv)->0.castling;
            let gives_up = |side: Color, file: char|
                m.color == side && (m.piece == Piece::K || (m.piece == Piece::R && on_corner(
                    m,
                    file,
                )));
            &&& h.white_kingside == (r.white_kingside && !gives_up(Color::W, 'h'))
            &&& h.white_queenside == (r.white_queenside && !gives_up(Color::W, 'a'))
            &&& h.black_kingside == (r.black_kingside && !gives_up(Color::B, 'h'))
            &&& h.black_queenside == (r.black_queenside && !gives_up(Color::B, 'a'))
        }),
{
    let d = draw_of(mv)->0;
    let m = mover_of(g, d)->0;
    law_mover_kind(g, d);
    crate::game::lemma_game_wf_figs(g);
    let j = choose|j: int| 0 <= j < g.figures.len() && g.figures[j] == m;
    assert(crate::figure::figure_wf(g.figures[j]));
    let i = m.coord.idx as int;
    lemma_coord_at_wf(i);
    assert(m.coord == coord_at(i));
    assert(i == 8 * (i / 8) + i % 8);
    assert(m.coord.file == ((97 + i % 8) as char));
    assert(m.coord.rank == ((49 + (7 - i / 8)) as char));
}

/// Castling gives up both rights of the side that castles and leaves the
/// rights of the other side as they were.
pub proof fn law_castle_castling_rights(g: GameView, mv: Seq<char>)
    requires
        play_move_spec(g, mv) is Some,
        has_short_castle(mv),
    ensures
        ({
            let r = g.castling;
            let h = play_move_spec(g, mv)->0.castling;
            &&& g.color == Color::W ==> !h.white_kingside && !h.white_queenside
                && h.black_kingside == r.black_kingside && h.black_queenside == r.black_queenside
            &&& g.color == Color::B ==> !h.black_kingside && !h.black_queenside
                && h.white_kingside == r.white_kingside && h.white_queenside == r.white_queenside
        }),
{
}

// ------------------------------------------------------------------
// What a move does to the board and the clocks

/// The index of the square named by a file letter and a rank digit.
pub open spec fn square_at(file: char, rank: char) -> int {
    square_of_chars(file, rank)->0.idx as int
}

/// A move other than castling empties the mover's square, puts on the
/// target the mover (or, for a promotion, the named piece of the side to
/// move), and leaves every other square as it was but the square of a
/// pawn taken en passant, one row behind the target or ahead of it.
pub proof fn law_move_board(g: GameView, mv: Seq<char>)
    requires
        game_wf(g),
        play_move_spec(g, mv) is Some,
        !has_short_castle(mv),
    ensures
        ({
            let d = draw_of(mv)->0;
            let m = mover_of(g, d)->0;
            let h = play_move_spec(g, mv)->0;
            let t = d.target.idx as int;
            let ep = d.is_hit && g.en_passant == Some(d.target) && m.piece == Piece::P;
            &&& h.position[t] == Some(
                Figure {
                    color: g.color,
                    coord: d.target,
                    piece: if d.is_promo {
                        d.promoted_piece->0
                    } else {
                        m.piece
                    },
                },
            )
            &&& m.coord.idx != t ==> h.position[m.coord.idx as int] is None
            &&& forall|i: int|
                0 <= i < 64 && i != t && i != m.coord.idx && !(ep && (i == t - 8 || i == t + 8))
                    ==> #[trigger] h.position[i] == g.position[i]
        }),
{
    let d = draw_of(mv)->0;
    let m = mover_of(g, d)->0;
    law_mover_kind(g, d);
    crate::game::lemma_game_wf_figs(g);
    let j = choose|j: int| 0 <= j < g.figures.len() && g.figures[j] == m;
    assert(crate::figure::figure_wf(g.figures[j]));
    crate::draw::lemma_draw_target_wf(mv);
    let figs1 = crate::figset::set_remove(g.figures, m);
    let t = d.target.idx as int;
    if d.is_hit {
        let ep = g.en_passant is Some && m.piece == Piece::P && d.target == g.en_passant->0;
        if ep {
            crate::play_laws::lemma_first_of_filter(figs1, crate::play::ep_victim_pred(d.target));
        } else {
            crate::play_laws::lemma_first_of_filter(figs1, crate::play::on_square_pred(d.target));
        }
    }
    let h = play_move_spec(g, mv)->0;
    assert(draw_of(mv) == Some(d));
    assert(mover_of(g, d) == Some(m));
    assert(h == crate::play::move_with(g, d, m)->0);
    assert(0 <= t < 64);
    let victim = crate::play::victim_of(g, d, m, figs1);
    let p = crate::play::placed_figure(g, d, m)->0;
    let vac = g.position.update(m.coord.idx as int, None);
    let cl = if d.is_hit {
        vac.update(victim->0.coord.idx as int, None)
    } else {
        vac
    };
    assert(crate::coord::valid_index(m.coord.idx as int));
    if d.is_hit {
        let v = victim->0;
        crate::play_laws::lemma_set_remove_contains(g.figures, m, v);
        let jv = choose|jv: int| 0 <= jv < g.figures.len() && g.figures[jv] == v;
        assert(crate::figure::figure_wf(g.figures[jv]));
        assert(crate::coord::valid_index(v.coord.idx as int));
    }
    assert(vac.len() == 64);
    assert(cl.len() == 64);
    assert(h.position == cl.update(t, Some(p)));
    assert(h.position[t] == Some(crate::play::placed_figure(g, d, m)->0));
    assert(m.coord.idx != t ==> h.position[m.coord.idx as int] is None);
}

/// The half-move clock starts again from zero after a capture or a pawn's
/// move and grows by one after any other move, castling included.
pub proof fn law_half_move_clock(g: GameView, mv: Seq<char>)
    requires
        play_move_spec(g, mv) is Some,
    ensures
        ({
            let h = play_move_spec(g, mv)->0;
            let d = draw_of(mv)->0;
            &&& has_short_castle(mv) ==> h.half_move_clock == g.half_move_clock + 1
            &&& !has_short_castle(mv) ==> h.half_move_clock == (if d.is_hit || d.piece == Piece::P {
                0
            } else {
                g.half_move_clock + 1
            })
        }),
{
}

/// Castling moves the figure on the `e` file of the side's back rank two
/// files toward the corner (to `g` on the king's side, `c` on the queen's
/// side) and the figure in that corner (`h` or `a`) to the square the king
/// passed over (`f` or `d`); every other square stays as it was, and no
/// en-passant square is offered.
pub proof fn law_castle_board(g: GameView, mv: Seq<char>)
    requires
        game_wf(g),
        play_move_spec(g, mv) is Some,
        has_short_castle(mv),
    ensures
        ({
            let h = play_move_spec(g, mv)->0;
            let long = has_long_castle(mv);
            let r = if g.color == Color::W {
                '1'
            } else {
                '8'
            };
            let ks = square_at('e', r);
            let rs = square_at(if long { 'a' } else { 'h' }, r);
            let kt = square_at(if long { 'c' } else { 'g' }, r);
            let rt = square_at(if long { 'd' } else { 'f' }, r);
            &&& g.position[ks] is Some && g.position[rs] is Some
            &&& h.position[kt] == Some(Figure { coord: coord_at(kt), ..g.position[ks]->0 })
            &&& h.position[rt] == Some(Figure { coord: coord_at(rt), ..g.position[rs]->0 })
            &&& h.position[ks] is None && h.position[rs] is None
            &&& forall|i: int|
                0 <= i < 64 && i != ks && i != rs && i != kt && i != rt ==> #[trigger] h.position[i]
                    == g.position[i]
            &&& h.en_passant is None
        }),
{
    assert(square_at('a', '1') == 56);
    assert(square_at('c', '1') == 58);
    assert(square_at('d', '1') == 59);
    assert(square_at('e', '1') == 60);
    assert(square_at('f', '1') == 61);
    assert(square_at('g', '1') == 62);
    assert(square_at('h', '1') == 63);
    assert(square_at('a', '8') == 0);
    assert(square_at('c', '8') == 2);
    assert(square_at('d', '8') == 3);
    assert(square_at('e', '8') == 4);
    assert(square_at('f', '8') == 5);
    assert(square_at('g', '8') == 6);
    assert(square_at('h', '8') == 7);
}

// ------------------------------------------------------------------
// Pawn captures

/// A pawn takes only on one of the two squares diagonally ahead of it (by
/// index, seven or nine squares ahead), and only where a figure stands
/// there that is of the other side or stands on the en-passant square.
pub proof fn law_pawn_hits_ahead(g: GameView, fig: Figure)
    requires
        fig.piece == Piece::P,
    ensures
        ({
            let t = crate::moves::hit_targets(g, fig);
            let f = factor_of(fig.color);
            forall|k: int|
                0 <= k < t.len() ==> {
                    let i = (#[trigger] t[k]).idx as int;
                    &&& i == fig.coord.idx - f * 7 || i == fig.coord.idx - f * 9
                    &&& 0 <= i < 64
                    &&& t[k] == coord_at(i)
                    &&& g.position[i] is Some
                    &&& g.position[i]->0.color != fig.color || (g.en_passant is Some
                        && g.en_passant->0.idx == i)
                }
        }),
{
    let t = crate::moves::hit_targets(g, fig);
    let f = factor_of(fig.color);
    let a = crate::moves::pawn_hit_toward(g, fig, 7);
    let b = crate::moves::pawn_hit_toward(g, fig, 9);
    assert forall|k: int| 0 <= k < t.len() implies {
        let i = (#[trigger] t[k]).idx as int;
        &&& i == fig.coord.idx - f * 7 || i == fig.coord.idx - f * 9
        &&& 0 <= i < 64
        &&& t[k] == coord_at(i)
        &&& g.position[i] is Some
        &&& g.position[i]->0.color != fig.color || (g.en_passant is Some && g.en_passant->0.idx
            == i)
    } by {
        let s = a + b;
        assert(t[k] == coord_at(s[k] as int));
        if k < a.len() {
            let i = fig.coord.idx - f * 7;
            assert(s[k] == a[k]);
            lemma_coord_at_wf(i);
        } else {
            let i = fig.coord.idx - f * 9;
            assert(s[k] == b[k - a.len()]);
            lemma_coord_at_wf(i);
        }
    }
}

// ------------------------------------------------------------------
// Knight jumps

proof fn lemma_knight_jump(i: int, a: int, b: int)
    requires
        0 <= i < 64,
        0 <= i + 8 * a + b < 64,
        -2 <= a <= 2,
        -2 <= b <= 2,
        b != 0,
        abs(coord_at(i).x - coord_at(i + 8 * a + b).x) < 3,
    ensures
        coord_at(i + 8 * a + b).x == coord_at(i).x + b,
        coord_at(i + 8 * a + b).y == coord_at(i).y - a,
{
    let t = i + 8 * a + b;
    let x = i % 8;
    let q = i / 8;
    assert(i == 8 * q + x && 0 <= x < 8);
    assert(t == 8 * (q + a) + (x + b));
    if x + b < 0 {
        assert(t == 8 * (q + a - 1) + (x + b + 8));
        assert(t % 8 == x + b + 8);
    } else if x + b >= 8 {
        assert(t == 8 * (q + a + 1) + (x + b - 8));
        assert(t % 8 == x + b - 8);
    } else {
        assert(t % 8 == x + b);
        assert(t / 8 == q + a);
    }
}

/// Every square produced by the first `n` knight jumps is the knight's
/// square moved by one of those jumps, on the board and at most two files
/// away.
proof fn lemma_knight_steps(g: GameView, fig: Figure, n: nat)
    requires
        n <= 8,
    ensures
        forall|k: int|
            0 <= k < crate::moves::steps(g, fig, crate::moves::knight_deltas(), n, false).len()
                ==> {
                let t = #[trigger] crate::moves::steps(
                    g,
                    fig,
                    crate::moves::knight_deltas(),
                    n,
                    false,
                )[k] as int;
                exists|j: int|
                    0 <= j < n && t == fig.coord.idx + #[trigger] crate::moves::knight_deltas()[j]
                        && 0 <= t < 64 && abs(fig.coord.x - coord_at(t).x) < 3
            },
    decreases n,
{
    if n > 0 {
        lemma_knight_steps(g, fig, (n - 1) as nat);
        let deltas = crate::moves::knight_deltas();
        let prev = crate::moves::steps(g, fig, deltas, (n - 1) as nat, false);
        let st = crate::moves::knight_step(g, fig, deltas[n - 1]);
        let all = crate::moves::steps(g, fig, deltas, n, false);
        assert(all == prev + st);
        assert forall|k: int| 0 <= k < all.len() implies {
            let t = #[trigger] all[k] as int;
            exists|j: int|
                0 <= j < n && t == fig.coord.idx + #[trigger] deltas[j] && 0 <= t < 64 && abs(
                    fig.coord.x - coord_at(t).x,
                ) < 3
        } by {
            if k < prev.len() {
                assert(all[k] == prev[k]);
            } else {
                assert(all[k] == st[k - prev.len()]);
                let ti = fig.coord.idx + deltas[n - 1];
                assert(st.len() > 0);
                assert(all[k] as int == ti);
                assert(deltas[n - 1] == deltas[n - 1]);
            }
        }
    }
}

/// A knight moves to squares one file and two ranks, or two files and one
/// rank, away from its own.
pub proof fn law_knight_jumps(g: GameView, fig: Figure)
    requires
        fig.piece == Piece::N,
        crate::coord::coord_wf(fig.coord),
    ensures
        forall|k: int|
            0 <= k < move_targets(g, fig).len() ==> {
                let c = #[trigger] move_targets(g, fig)[k];
                let dx = abs(c.x - fig.coord.x);
                let dy = abs(c.y - fig.coord.y);
                (dx == 1 && dy == 2) || (dx == 2 && dy == 1)
            },
{
    let deltas = crate::moves::knight_deltas();
    let s = crate::moves::knight_moves(g, fig);
    lemma_knight_steps(g, fig, 8);
    let i = fig.coord.idx as int;
    lemma_coord_at_wf(i);
    assert forall|k: int| 0 <= k < move_targets(g, fig).len() implies {
        let c = #[trigger] move_targets(g, fig)[k];
        let dx = abs(c.x - fig.coord.x);
        let dy = abs(c.y - fig.coord.y);
        (dx == 1 && dy == 2) || (dx == 2 && dy == 1)
    } by {
        let t = s[k] as int;
        assert(move_targets(g, fig)[k] == coord_at(t));
        let j = choose|j: int|
            0 <= j < 8 && t == fig.coord.idx + #[trigger] deltas[j] && 0 <= t < 64 && abs(
                fig.coord.x - coord_at(t).x,
            ) < 3;
        lemma_coord_at_wf(t);
        if j == 0 {
            lemma_knight_jump(i, -2, -1);
        } else if j == 1 {
            lemma_knight_jump(i, -2, 1);
        } else if j == 2 {
            lemma_knight_jump(i, -1, -2);
        } else if j == 3 {
            lemma_knight_jump(i, -1, 2);
        } else if j == 4 {
            lemma_knight_jump(i, 1, -2);
        } else if j == 5 {
            lemma_knight_jump(i, 1, 2);
        } else if j == 6 {
            lemma_knight_jump(i, 2, -1);
        } else {
            lemma_knight_jump(i, 2, 1);
        }
    }
}

// ------------------------------------------------------------------
// Sliding pieces

proof fn lemma_slide_on_line(g: GameView, fig: Figure, d: int, ti: int, straight: bool)
    ensures
        forall|k: int|
            0 <= k < crate::moves::slide(g, fig, d, ti, straight).len() ==> {
                let t = #[trigger] crate::moves::slide(g, fig, d, ti, straight)[k] as int;
                &&& 0 <= t < 64
                &&& crate::moves::aligned(fig, t, straight)
                &&& d > 0 ==> t >= ti
                &&& d < 0 ==> t <= ti
            },
    decreases crate::moves::slide_measure(d, ti),
{
    let s = crate::moves::slide(g, fig, d, ti, straight);
    if d != 0 && crate::coord::valid_index(ti) && crate::moves::aligned(fig, ti, straight) {
        if g.position[ti] is None {
            lemma_slide_on_line(g, fig, d, ti + d, straight);
            let rest = crate::moves::slide(g, fig, d, ti + d, straight);
            assert(s == seq![ti as i8] + rest);
            assert forall|k: int| 0 <= k < s.len() implies {
                let t = #[trigger] s[k] as int;
                &&& 0 <= t < 64
                &&& crate::moves::aligned(fig, t, straight)
                &&& d > 0 ==> t >= ti
                &&& d < 0 ==> t <= ti
            } by {
                if k > 0 {
                    assert(s[k] == rest[k - 1]);
                }
            }
        }
    }
}

proof fn lemma_ray_on_line(g: GameView, fig: Figure, d: int, straight: bool)
    requires
        d != 0,
    ensures
        forall|k: int|
            0 <= k < crate::moves::ray(g, fig, d, straight).len() ==> {
                let t = #[trigger] crate::moves::ray(g, fig, d, straight)[k] as int;
                &&& 0 <= t < 64
                &&& crate::moves::aligned(fig, t, straight)
                &&& t != fig.coord.idx
            },
{
    lemma_slide_on_line(g, fig, d, fig.coord.idx + d, straight);
}

proof fn lemma_four_rays_on_line(g: GameView, fig: Figure, a: int, b: int, c: int, e: int, straight: bool)
    requires
        a != 0,
        b != 0,
        c != 0,
        e != 0,
    ensures
        ({
            let s = crate::moves::ray(g, fig, a, straight) + crate::moves::ray(g, fig, b, straight)
                + crate::moves::ray(g, fig, c, straight) + crate::moves::ray(g, fig, e, straight);
            forall|k: int|
                0 <= k < s.len() ==> {
                    let t = #[trigger] s[k] as int;
                    &&& 0 <= t < 64
                    &&& crate::moves::aligned(fig, t, straight)
                    &&& t != fig.coord.idx
                }
        }),
{
    let r1 = crate::moves::ray(g, fig, a, straight);
    let r2 = crate::moves::ray(g, fig, b, straight);
    let r3 = crate::moves::ray(g, fig, c, straight);
    let r4 = crate::moves::ray(g, fig, e, straight);
    lemma_ray_on_line(g, fig, a, straight);
    lemma_ray_on_line(g, fig, b, straight);
    lemma_ray_on_line(g, fig, c, straight);
    lemma_ray_on_line(g, fig, e, straight);
    let s = r1 + r2 + r3 + r4;
    assert forall|k: int| 0 <= k < s.len() implies {
        let t = #[trigger] s[k] as int;
        &&& 0 <= t < 64
        &&& crate::moves::aligned(fig, t, straight)
        &&& t != fig.coord.idx
    } by {
        let n1 = r1.len() as int;
        let n2 = n1 + r2.len();
        let n3 = n2 + r3.len();
        if k < n1 {
            assert(s[k] == r1[k]);
        } else if k < n2 {
            assert(s[k] == r2[k - n1]);
        } else if k < n3 {
            assert(s[k] == r3[k - n2]);
        } else {
            assert(s[k] == r4[k - n3]);
        }
    }
}

/// A rook moves only to other squares of its own file or rank, a bishop
/// only to other squares of its own diagonals.
pub proof fn law_sliders_stay_on_their_lines(g: GameView, fig: Figure)
    requires
        fig.piece == Piece::R || fig.piece == Piece::B,
    ensures
        forall|k: int|
            0 <= k < move_targets(g, fig).len() ==> {
                let c = #[trigger] move_targets(g, fig)[k];
                &&& c.idx != fig.coord.idx
                &&& fig.piece == Piece::R ==> (c.x == fig.coord.x || c.y == fig.coord.y)
                &&& fig.piece == Piece::B ==> (c.main_diagonal == fig.coord.main_diagonal
                    || c.anti_diagonal == fig.coord.anti_diagonal)
            },
{
    let straight = fig.piece == Piece::R;
    if straight {
        lemma_four_rays_on_line(g, fig, -8, -1, 1, 8, true);
    } else {
        lemma_four_rays_on_line(g, fig, -9, -7, 7, 9, false);
    }
    let s = crate::moves::moves_of(g, fig);
    if straight {
        assert(s == crate::moves::ray(g, fig, -8, true) + crate::moves::ray(g, fig, -1, true)
            + crate::moves::ray(g, fig, 1, true) + crate::moves::ray(g, fig, 8, true));
    } else {
        assert(s == crate::moves::ray(g, fig, -9, false) + crate::moves::ray(g, fig, -7, false)
            + crate::moves::ray(g, fig, 7, false) + crate::moves::ray(g, fig, 9, false));
    }
    assert forall|k: int| 0 <= k < move_targets(g, fig).len() implies {
        let c = #[trigger] move_targets(g, fig)[k];
        &&& c.idx != fig.coord.idx
        &&& fig.piece == Piece::R ==> (c.x == fig.coord.x || c.y == fig.coord.y)
        &&& fig.piece == Piece::B ==> (c.main_diagonal == fig.coord.main_diagonal
            || c.anti_diagonal == fig.coord.anti_diagonal)
    } by {
        let t = s[k] as int;
        assert(move_targets(g, fig)[k] == coord_at(t));
        lemma_coord_at_wf(t);
        assert(coord_at(t).idx == t);
    }
}

} // verus!

use vstd::prelude::*;
use crate::color::{Color, next_of};
use crate::coord::coord_wf;
use crate::draw::{Draw, draw_of};
use crate::figure::{Figure, figure_wf};
use crate::figset::{first_of, lemma_filter_subset, lemma_set_insert_contains};
use crate::game::{GameView, game_wf, lemma_game_wf_figs};
use crate::moves::{
    moves_of, reach, slide, steps, bishop_moves, rook_moves, ray, king_step, knight_step,
    knight_deltas, king_deltas, slide_measure,
};
use crate::piece::Piece;
use crate::play::{
    castle_spec, has_long_castle, has_short_castle, is_double_step, lemma_castle_wf,
    lemma_move_with_wf, move_with, next_full_move, play_move_spec,
};
use crate::select::{
    after_moves, after_remainder, mover_of, mover_pred, pins_choice, reach_pred,
    remainder_filter, remainder_pred, unpinned_pred,
};

verus! {

pub proof fn lemma_first_of_filter(s: Seq<Figure>, p: spec_fn(Figure) -> bool)
    ensures
        first_of(s.filter(p)) matches Some(f) ==> s.contains(f) && p(f),
{
    lemma_filter_subset(s, p);
    if s.filter(p).len() > 0 {
        assert(s.contains(s.filter(p)[0]));
    }
}

pub proof fn lemma_after_moves_in(figs: Seq<Figure>, d: Draw, g: GameView)
    ensures
        after_moves(figs, d, g) matches Some(f) ==> figs.contains(f),
{
    let c = figs.filter(reach_pred(g, d));
    lemma_filter_subset(figs, reach_pred(g, d));
    if c.len() == 1 {
        assert(figs.contains(c[0]));
    } else {
        match pins_choice(c, d, g) {
            Some(f) => {
                let k = crate::game::king_of(g, g.color)->0;
                let base = if d.is_hit {
                    crate::game::remove_figure_spec(g, g.position[d.target.idx as int]->0)
                } else {
                    g
                };
                lemma_first_of_filter(c, unpinned_pred(base, g.color, k.coord, d.target));
                let j = choose|j: int| 0 <= j < c.len() && c[j] == f;
                assert(figs.contains(c[j]));
            },
            None => {},
        }
    }
}

pub proof fn lemma_after_remainder_in(figs: Seq<Figure>, d: Draw, g: GameView)
    ensures
        after_remainder(figs, d, g) matches Some(f) ==> figs.contains(f),
{
    let b = remainder_filter(figs, d);
    lemma_filter_subset(figs, remainder_pred(d));
    assert forall|k: int| 0 <= k < b.len() implies figs.contains(#[trigger] b[k]) by {
        if !(d.remainder_file is None && d.remainder_rank is None) {
            assert(figs.contains(figs.filter(remainder_pred(d))[k]));
        } else {
            assert(figs[k] == b[k]);
        }
    }
    if b.len() == 1 {
        assert(figs.contains(b[0]));
    } else {
        lemma_after_moves_in(b, d, g);
        if let Some(f) = after_moves(b, d, g) {
            let j = choose|j: int| 0 <= j < b.len() && b[j] == f;
            assert(figs.contains(b[j]));
        }
    }
}

/// The figure that makes a move belongs to the side to move, is of the kind
/// the move names, and is in play.
pub proof fn law_mover_kind(g: GameView, d: Draw)
    ensures
        mover_of(g, d) matches Some(m) ==> {
            &&& g.figures.contains(m)
            &&& m.color == g.color
            &&& m.piece == d.piece
        },
{
    let p = mover_pred(g.color, d.piece);
    let a = g.figures.filter(p);
    lemma_filter_subset(g.figures, p);
    if let Some(m) = mover_of(g, d) {
        if a.len() == 1 {
            assert(a[0] == m);
        } else {
            lemma_after_remainder_in(a, d, g);
            let j = choose|j: int| 0 <= j < a.len() && a[j] == m;
        }
        let j = choose|j: int| 0 <= j < a.len() && a[j] == m;
        assert(p(a[j]));
    }
}

/// Playing a move keeps the invariant of games.
pub proof fn law_play_move_keeps_wf(g: GameView, mv: Seq<char>)
    requires
        game_wf(g),
        play_move_spec(g, mv) is Some,
    ensures
        game_wf(play_move_spec(g, mv)->0),
{
    if has_short_castle(mv) {
        lemma_castle_wf(g, has_long_castle(mv));
    } else {
        let d = draw_of(mv)->0;
        let m = mover_of(g, d)->0;
        law_mover_kind(g, d);
        lemma_game_wf_figs(g);
        let j = choose|j: int| 0 <= j < g.figures.len() && g.figures[j] == m;
        assert(figure_wf(g.figures[j]));
        crate::draw::lemma_draw_target_wf(mv);
        lemma_move_with_wf(g, d, m);
    }
}

/// After every move the other side is to move, the board is unchanged, the
/// full-move number grows by one after black's move only, and the
/// half-move clock either starts again from zero or grows by one.
pub proof fn law_play_move_turn(g: GameView, mv: Seq<char>)
    requires
        play_move_spec(g, mv) is Some,
    ensures
        ({
            let h = play_move_spec(g, mv)->0;
            &&& h.color == next_of(g.color)
            &&& h.board == g.board
            &&& h.full_move_clock == next_full_move(g.color, g.full_move_clock)
            &&& g.color == Color::B ==> h.full_move_clock == g.full_move_clock + 1
            &&& g.color == Color::W ==> h.full_move_clock == g.full_move_clock
            &&& (h.half_move_clock == 0 || h.half_move_clock == g.half_move_clock + 1)
        }),
{
}

/// A move never gives back a castling right: every right held after it
/// was held before.
pub proof fn law_castling_rights_only_shrink(g: GameView, mv: Seq<char>)
    requires
        play_move_spec(g, mv) is Some,
    ensures
        ({
            let h = play_move_spec(g, mv)->0;
            &&& h.castling.white_kingside ==> g.castling.white_kingside
            &&& h.castling.white_queenside ==> g.castling.white_queenside
            &&& h.castling.black_kingside ==> g.castling.black_kingside
            &&& h.castling.black_queenside ==> g.castling.black_queenside
        }),
{
}

/// An en-passant square is offered only after a pawn's double step.
pub proof fn law_en_passant_after_double_step(g: GameView, mv: Seq<char>)
    requires
        play_move_spec(g, mv) is Some,
        play_move_spec(g, mv)->0.en_passant is Some,
    ensures
        !has_short_castle(mv),
        ({
            let d = draw_of(mv)->0;
            let m = mover_of(g, d)->0;
            is_double_step(d, m)
        }),
{
}

} // verus!

verus! {

/// Every index of `s` is a square of the board that is empty or held by the
/// other side of `fig`.
pub open spec fn lands_well(g: GameView, fig: Figure, s: Seq<i8>) -> bool {
    forall|k: int|
        0 <= k < s.len() ==> crate::coord::valid_index(#[trigger] s[k] as int) && (g.position[s[k]
            as int] matches Some(o) ==> o.color != fig.color)
}

pub proof fn lemma_lands_well_concat(g: GameView, fig: Figure, a: Seq<i8>, b: Seq<i8>)
    requires
        lands_well(g, fig, a),
        lands_well(g, fig, b),
    ensures
        lands_well(g, fig, a + b),
{
    assert forall|k: int| 0 <= k < (a + b).len() implies crate::coord::valid_index(
        #[trigger] (a + b)[k] as int,
    ) && (g.position[(a + b)[k] as int] matches Some(o) ==> o.color != fig.color) by {
        if k < a.len() {
            assert((a + b)[k] == a[k]);
        } else {
            assert((a + b)[k] == b[k - a.len()]);
        }
    }
}

pub proof fn lemma_reach_lands_well(g: GameView, fig: Figure, ti: int)
    requires
        crate::coord::valid_index(ti),
    ensures
        lands_well(g, fig, reach(g, fig, ti)),
{
}

pub proof fn lemma_slide_lands_well(g: GameView, fig: Figure, d: int, ti: int, straight: bool)
    ensures
        lands_well(g, fig, slide(g, fig, d, ti, straight)),
    decreases slide_measure(d, ti),
{
    if d == 0 || !crate::coord::valid_index(ti) || !crate::moves::aligned(fig, ti, straight) {
    } else {
        match g.position[ti] {
            None => {
                lemma_slide_lands_well(g, fig, d, ti + d, straight);
                lemma_lands_well_concat(g, fig, seq![ti as i8], slide(g, fig, d, ti + d, straight));
            },
            Some(o) => {},
        }
    }
}

pub proof fn lemma_steps_land_well(g: GameView, fig: Figure, deltas: Seq<int>, n: nat, king: bool)
    ensures
        lands_well(g, fig, steps(g, fig, deltas, n, king)),
    decreases n,
{
    if n > 0 {
        lemma_steps_land_well(g, fig, deltas, (n - 1) as nat, king);
        let d = deltas[n - 1];
        let ti = fig.coord.idx + d;
        if crate::coord::valid_index(ti) {
            lemma_reach_lands_well(g, fig, ti);
        }
        let last = if king {
            king_step(g, fig, d)
        } else {
            knight_step(g, fig, d)
        };
        lemma_lands_well_concat(g, fig, steps(g, fig, deltas, (n - 1) as nat, king), last);
    }
}

/// A rook, knight, bishop, queen or king moves only to squares of the board
/// that are empty or held by the other side.
pub proof fn law_moves_stay_off_own_figures(g: GameView, fig: Figure)
    requires
        fig.piece != Piece::P,
    ensures
        lands_well(g, fig, moves_of(g, fig)),
{
    let bishop = bishop_moves(g, fig);
    let rook = rook_moves(g, fig);
    lemma_slide_lands_well(g, fig, -9, fig.coord.idx - 9, false);
    lemma_slide_lands_well(g, fig, -7, fig.coord.idx - 7, false);
    lemma_slide_lands_well(g, fig, 7, fig.coord.idx + 7, false);
    lemma_slide_lands_well(g, fig, 9, fig.coord.idx + 9, false);
    lemma_lands_well_concat(g, fig, ray(g, fig, -9, false), ray(g, fig, -7, false));
    lemma_lands_well_concat(g, fig, ray(g, fig, -9, false) + ray(g, fig, -7, false), ray(g, fig, 7, false));
    lemma_lands_well_concat(
        g,
        fig,
        ray(g, fig, -9, false) + ray(g, fig, -7, false) + ray(g, fig, 7, false),
        ray(g, fig, 9, false),
    );
    lemma_slide_lands_well(g, fig, -8, fig.coord.idx - 8, true);
    lemma_slide_lands_well(g, fig, -1, fig.coord.idx - 1, true);
    lemma_slide_lands_well(g, fig, 1, fig.coord.idx + 1, true);
    lemma_slide_lands_well(g, fig, 8, fig.coord.idx + 8, true);
    lemma_lands_well_concat(g, fig, ray(g, fig, -8, true), ray(g, fig, -1, true));
    lemma_lands_well_concat(g, fig, ray(g, fig, -8, true) + ray(g, fig, -1, true), ray(g, fig, 1, true));
    lemma_lands_well_concat(
        g,
        fig,
        ray(g, fig, -8, true) + ray(g, fig, -1, true) + ray(g, fig, 1, true),
        ray(g, fig, 8, true),
    );
    lemma_lands_well_concat(g, fig, bishop, rook);
    lemma_steps_land_well(g, fig, knight_deltas(), 8, false);
    lemma_steps_land_well(g, fig, king_deltas(), 8, true);
}

/// A queen moves where a bishop and where a rook on its square would move,
/// the bishop's squares first.
pub proof fn law_queen_moves(g: GameView, fig: Figure)
    requires
        fig.piece == Piece::Q,
    ensures
        moves_of(g, fig) == bishop_moves(g, fig) + rook_moves(g, fig),
{
}

} // verus!

verus! {

/// The figures in play are exactly the figures on the board.
pub open spec fn figures_match(g: GameView) -> bool {
    forall|f: Figure|
        #![trigger g.figures.contains(f)]
        g.figures.contains(f) <==> (0 <= f.coord.idx < 64 && g.position[f.coord.idx as int] == Some(
            f,
        ))
}

pub proof fn lemma_set_remove_contains(s: Seq<Figure>, x: Figure, f: Figure)
    ensures
        crate::figset::set_remove(s, x).contains(f) <==> (s.contains(f) && f != x),
{
    let p = crate::figset::other_than(x);
    if crate::figset::set_remove(s, x).contains(f) {
        s.lemma_filter_contains_rev(p, f);
        let j = choose|j: int| 0 <= j < s.filter(p).len() && s.filter(p)[j] == f;
        s.lemma_filter_pred(p, j);
    }
    if s.contains(f) && f != x {
        let j = choose|j: int| 0 <= j < s.len() && s[j] == f;
        s.lemma_filter_contains(p, j);
    }
}

/// Whether the move `d` by `m` is a capture en passant.
pub open spec fn is_en_passant_capture(g: GameView, d: Draw, m: Figure) -> bool {
    d.is_hit && g.en_passant is Some && m.piece == Piece::P && d.target == g.en_passant->0
}

/// The moves after which the figures in play stay the figures on the
/// board: castling onto empty squares, a capture on the target square, and
/// any other move (a capture en passant included) onto an empty square.
pub open spec fn regular_move(g: GameView, mv: Seq<char>) -> bool {
    if has_short_castle(mv) {
        let (ks, rs, kt, rt) = crate::play::castle_squares(g.color, has_long_castle(mv));
        g.position[kt] is None && g.position[rt] is None
    } else {
        let d = draw_of(mv)->0;
        let m = mover_of(g, d)->0;
        d.is_hit && !is_en_passant_capture(g, d, m) || g.position[d.target.idx as int] is None
    }
}

pub proof fn lemma_castle_keeps_match(g: GameView, long: bool)
    requires
        game_wf(g),
        figures_match(g),
        castle_spec(g, long) is Some,
        ({
            let (ks, rs, kt, rt) = crate::play::castle_squares(g.color, long);
            g.position[kt] is None && g.position[rt] is None
        }),
    ensures
        figures_match(castle_spec(g, long)->0),
{
    let (ks, rs, kt, rt) = crate::play::castle_squares(g.color, long);
    let king = g.position[ks]->0;
    let rook = g.position[rs]->0;
    let new_king = Figure { coord: crate::coord::coord_at(kt), ..king };
    let new_rook = Figure { coord: crate::coord::coord_at(rt), ..rook };
    let h = castle_spec(g, long)->0;
    let f1 = crate::figset::set_remove(g.figures, king);
    let f2 = crate::figset::set_remove(f1, rook);
    let f3 = crate::figset::set_insert(f2, new_king);
    assert(h.figures == crate::figset::set_insert(f3, new_rook));
    crate::coord::lemma_coord_at_wf(kt);
    crate::coord::lemma_coord_at_wf(rt);
    assert(king.coord == crate::coord::coord_at(ks));
    assert(rook.coord == crate::coord::coord_at(rs));
    crate::coord::lemma_coord_at_wf(ks);
    crate::coord::lemma_coord_at_wf(rs);
    assert forall|f: Figure| #![trigger h.figures.contains(f)]
        h.figures.contains(f) <==> (0 <= f.coord.idx < 64 && h.position[f.coord.idx as int] == Some(f)) by {
        lemma_set_remove_contains(g.figures, king, f);
        lemma_set_remove_contains(f1, rook, f);
        lemma_set_insert_contains(f2, new_king, f);
        lemma_set_insert_contains(f3, new_rook, f);
        assert(f3.contains(f) <==> (f2.contains(f) || f == new_king));
        assert(h.figures.contains(f) <==> (f3.contains(f) || f == new_rook));
        assert(g.figures.contains(f) <==> (0 <= f.coord.idx < 64 && g.position[f.coord.idx as int] == Some(f)));
    }
}

pub proof fn lemma_move_keeps_match(g: GameView, d: Draw, m: Figure)
    requires
        game_wf(g),
        figures_match(g),
        coord_wf(d.target),
        g.figures.contains(m),
        move_with(g, d, m) is Some,
        d.is_hit && !is_en_passant_capture(g, d, m) || g.position[d.target.idx as int] is None,
    ensures
        figures_match(move_with(g, d, m)->0),
{
    let h = move_with(g, d, m)->0;
    let t = d.target.idx as int;
    let figs1 = crate::figset::set_remove(g.figures, m);
    let victim = crate::play::victim_of(g, d, m, figs1);
    let p = crate::play::placed_figure(g, d, m)->0;
    assert(m.coord.idx >= 0 && m.coord.idx < 64 && g.position[m.coord.idx as int] == Some(m));
    assert(p.coord == d.target);
    crate::coord::lemma_coord_at_wf(t);
    if is_en_passant_capture(g, d, m) {
        let v = victim->0;
        lemma_first_of_filter(figs1, crate::play::ep_victim_pred(d.target));
        lemma_set_remove_contains(g.figures, m, v);
        assert(g.figures.contains(v));
        assert(v.coord.idx == t - crate::color::factor_of(v.color) * 8);
        assert(0 <= v.coord.idx < 64 && g.position[v.coord.idx as int] == Some(v));
        assert(v.coord.idx != t);
        assert(m != v);
        assert(m.coord.idx != v.coord.idx);
        assert(m.coord.idx != t);
        let figs2 = crate::figset::set_remove(figs1, v);
        assert(h.figures == crate::figset::set_insert(figs2, p));
        assert(h.position == g.position.update(m.coord.idx as int, None).update(
            v.coord.idx as int,
            None,
        ).update(t, Some(p)));
        assert forall|f: Figure| #![trigger h.figures.contains(f)]
            h.figures.contains(f) <==> (0 <= f.coord.idx < 64 && h.position[f.coord.idx as int] == Some(f)) by {
            lemma_set_remove_contains(g.figures, m, f);
            lemma_set_remove_contains(figs1, v, f);
            lemma_set_insert_contains(figs2, p, f);
            assert(h.figures.contains(f) <==> (figs2.contains(f) || f == p));
            assert(g.figures.contains(f) <==> (0 <= f.coord.idx < 64 && g.position[f.coord.idx as int] == Some(f)));
        }
    } else if d.is_hit {
        let v = victim->0;
        lemma_first_of_filter(figs1, crate::play::on_square_pred(d.target));
        lemma_set_remove_contains(g.figures, m, v);
        assert(v.coord == d.target);
        assert(g.figures.contains(v));
        assert(g.position[t] == Some(v));
        assert(m != v);
        assert(m.coord.idx != t);
        let figs2 = crate::figset::set_remove(figs1, v);
        assert(h.figures == crate::figset::set_insert(figs2, p));
        assert forall|f: Figure| #![trigger h.figures.contains(f)]
            h.figures.contains(f) <==> (0 <= f.coord.idx < 64 && h.position[f.coord.idx as int] == Some(f)) by {
            lemma_set_remove_contains(g.figures, m, f);
            lemma_set_remove_contains(figs1, v, f);
            lemma_set_insert_contains(figs2, p, f);
            assert(h.figures.contains(f) <==> (figs2.contains(f) || f == p));
            assert(g.figures.contains(f) <==> (0 <= f.coord.idx < 64 && g.position[f.coord.idx as int] == Some(f)));
        }
    } else {
        assert(m.coord.idx != t);
        assert(h.figures == crate::figset::set_insert(figs1, p));
        assert forall|f: Figure| #![trigger h.figures.contains(f)]
            h.figures.contains(f) <==> (0 <= f.coord.idx < 64 && h.position[f.coord.idx as int] == Some(f)) by {
            lemma_set_remove_contains(g.figures, m, f);
            lemma_set_insert_contains(figs1, p, f);
            assert(h.figures.contains(f) <==> (figs1.contains(f) || f == p));
            assert(g.figures.contains(f) <==> (0 <= f.coord.idx < 64 && g.position[f.coord.idx as int] == Some(f)));
        }
    }
}

/// A regular move keeps the figures in play equal to the figures on the
/// board.
pub proof fn law_figures_stay_on_board(g: GameView, mv: Seq<char>)
    requires
        game_wf(g),
        figures_match(g),
        play_move_spec(g, mv) is Some,
        regular_move(g, mv),
    ensures
        figures_match(play_move_spec(g, mv)->0),
{
    if has_short_castle(mv) {
        lemma_castle_keeps_match(g, has_long_castle(mv));
    } else {
        let d = draw_of(mv)->0;
        let m = mover_of(g, d)->0;
        law_mover_kind(g, d);
        crate::draw::lemma_draw_target_wf(mv);
        lemma_move_keeps_match(g, d, m);
    }
}

} // verus!

verus! {

pub proof fn lemma_figures_of_complete(p: Seq<Option<Figure>>)
    ensures
        forall|i: int|
            0 <= i < p.len() ==> (#[trigger] p[i] matches Some(f) ==> crate::fen::figures_of(
                p,
            ).contains(f)),
    decreases p.len(),
{
    if p.len() > 0 {
        let q = p.drop_last();
        lemma_figures_of_complete(q);
        let r = crate::fen::figures_of(q);
        let tail = match p.last() {
            Some(f) => seq![f],
            None => Seq::<Figure>::empty(),
        };
        assert(crate::fen::figures_of(p) == r + tail);
        assert forall|i: int| 0 <= i < p.len() implies (#[trigger] p[i] matches Some(f)
            ==> crate::fen::figures_of(p).contains(f)) by {
            if let Some(f) = p[i] {
                if i < q.len() {
                    assert(q[i] == p[i]);
                    let j = choose|j: int| 0 <= j < r.len() && r[j] == f;
                    assert((r + tail)[j] == f);
                } else {
                    assert((r + tail)[r.len() as int] == f);
                }
            }
        }
    }
}

pub proof fn lemma_figures_of_match(g: GameView)
    requires
        game_wf(g),
        g.figures == crate::fen::figures_of(g.position),
    ensures
        figures_match(g),
{
    crate::fen::lemma_figures_of(g.position);
    lemma_figures_of_complete(g.position);
    assert forall|f: Figure| #![trigger g.figures.contains(f)]
        g.figures.contains(f) <==> (0 <= f.coord.idx < 64 && g.position[f.coord.idx as int] == Some(f)) by {
        if g.figures.contains(f) {
            let j = choose|j: int| 0 <= j < g.figures.len() && g.figures[j] == f;
        }
    }
}

/// In a game read from FEN the figures in play are exactly the figures on
/// the board.
pub proof fn law_fen_figures_on_board(s: Seq<char>)
    requires
        crate::fen::game_of_fen(s) is Some,
    ensures
        figures_match(crate::fen::game_of_fen(s)->0),
{
    crate::fen::lemma_game_of_fen_wf(s);
    lemma_figures_of_match(crate::fen::game_of_fen(s)->0);
}

/// At the start of a game the figures in play are exactly the figures on
/// the board.
pub proof fn law_start_figures_on_board()
    ensures
        figures_match(crate::game::start_game()),
{
    crate::game::lemma_start_game_wf();
    lemma_figures_of_match(crate::game::start_game());
}

} // verus!

verus! {

/// A pawn is offered the double step only together with the square in
/// front of it, which is then empty.
pub proof fn law_pawn_double_step_needs_free_front(g: GameView, fig: Figure)
    requires
        fig.piece == Piece::P,
        crate::moves::pawn_moves(g, fig).len() == 2,
    ensures
        ({
            let front = fig.coord.idx - crate::color::factor_of(fig.color) * 8;
            &&& crate::moves::pawn_moves(g, fig)[0] == front
            &&& g.position[front] is None
        }),
{
}

/// The figure chosen among pinned candidates leaves its king out of reach
/// of every enemy rook, bishop and queen.
pub proof fn law_chosen_mover_is_not_pinned(figs: Seq<Figure>, d: Draw, g: GameView)
    requires
        pins_choice(figs, d, g) is Some,
    ensures
        ({
            let m = pins_choice(figs, d, g)->0;
            let king = crate::game::king_of(g, g.color)->0;
            let base = if d.is_hit {
                crate::game::remove_figure_spec(g, g.position[d.target.idx as int]->0)
            } else {
                g
            };
            &&& figs.contains(m)
            &&& crate::select::checkers(
                crate::game::move_figure_spec(base, m, d.target),
                g.color,
                king.coord,
            ).len() == 0
        }),
{
    let king = crate::game::king_of(g, g.color)->0;
    let base = if d.is_hit {
        crate::game::remove_figure_spec(g, g.position[d.target.idx as int]->0)
    } else {
        g
    };
    lemma_first_of_filter(figs, unpinned_pred(base, g.color, king.coord, d.target));
}

} // verus!

verus! {

/// Two lists in rank order that hold the same figures are equal.
pub proof fn lemma_sorted_same_figures(a: Seq<Figure>, b: Seq<Figure>)
    requires
        crate::figset::figs_sorted(a),
        crate::figset::figs_sorted(b),
        forall|f: Figure| #![trigger a.contains(f)] #![trigger b.contains(f)] a.contains(f) <==> b.contains(f),
    ensures
        a == b,
    decreases a.len(),
{
    if a.len() == 0 {
        if b.len() > 0 {
            assert(b.contains(b[0]));
        }
        assert(a =~= b);
    } else {
        assert(a.contains(a[0]));
        assert(b.contains(a[0]));
        let j = choose|j: int| 0 <= j < b.len() && b[j] == a[0];
        assert(b.contains(b[0]));
        assert(a.contains(b[0]));
        let i = choose|i: int| 0 <= i < a.len() && a[i] == b[0];
        assert(i == 0) by {
            if i > 0 {
                assert(crate::figset::fig_key(a[0]) < crate::figset::fig_key(a[i]));
                if j > 0 {
                    assert(crate::figset::fig_key(b[0]) < crate::figset::fig_key(b[j]));
                }
            }
        }
        let a1 = a.drop_first();
        let b1 = b.drop_first();
        assert forall|f: Figure| #![trigger a1.contains(f)] #![trigger b1.contains(f)] a1.contains(f) <==> b1.contains(f) by {
            if a1.contains(f) {
                let k = choose|k: int| 0 <= k < a1.len() && a1[k] == f;
                assert(a[k + 1] == f);
                assert(crate::figset::fig_key(a[0]) < crate::figset::fig_key(a[k + 1]));
                assert(b.contains(f));
                let m = choose|m: int| 0 <= m < b.len() && b[m] == f;
                assert(m != 0);
                assert(b1[m - 1] == f);
            }
            if b1.contains(f) {
                let k = choose|k: int| 0 <= k < b1.len() && b1[k] == f;
                assert(b[k + 1] == f);
                assert(crate::figset::fig_key(b[0]) < crate::figset::fig_key(b[k + 1]));
                assert(a.contains(f));
                let m = choose|m: int| 0 <= m < a.len() && a[m] == f;
                assert(m != 0);
                assert(a1[m - 1] == f);
            }
        }
        lemma_sorted_same_figures(a1, b1);
        assert(a =~= seq![a[0]] + a1);
        assert(b =~= seq![b[0]] + b1);
    }
}

/// Where the figures in play are the figures on the board, they are listed
/// in square order.
pub proof fn law_figures_in_square_order(g: GameView)
    requires
        game_wf(g),
        figures_match(g),
    ensures
        g.figures == crate::fen::figures_of(g.position),
{
    let r = crate::fen::figures_of(g.position);
    crate::fen::lemma_figures_of(g.position);
    lemma_figures_of_complete(g.position);
    assert forall|f: Figure| #![trigger g.figures.contains(f)] #![trigger r.contains(f)]
        g.figures.contains(f) <==> r.contains(f) by {
        assert(g.figures.contains(f) <==> (0 <= f.coord.idx < 64 && g.position[f.coord.idx as int] == Some(f)));
        if r.contains(f) {
            let k = choose|k: int| 0 <= k < r.len() && r[k] == f;
        }
    }
    lemma_sorted_same_figures(g.figures, r);
}

/// A game whose figures in play are the figures on its board, as after
/// reading FEN, at the start, and after every regular move, is written as
/// FEN and read back unchanged.
pub proof fn law_fen_round_trip_figures_on_board(g: GameView)
    requires
        game_wf(g),
        figures_match(g),
    ensures
        crate::fen::game_of_fen(crate::fen::fen_of(g)) == Some(g),
{
    law_figures_in_square_order(g);
    crate::fen_laws::law_fen_round_trip_exact(g);
}

} // verus!

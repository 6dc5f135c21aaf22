use vstd::prelude::*;
use crate::castling::{after_castle, after_move};
use crate::color::{Color, factor_of, next_of};
use crate::coord::{Coord, coord_at, coord_wf, valid_index, valid_idx, lemma_coord_at_wf};
use crate::draw::{Draw, draw_of};
use crate::figure::{Figure, figure_wf};
use crate::figset::{
    filter_figs, first_of, insert_fig, lemma_filter_figs_wf, lemma_set_insert_wf, other_than,
    remove_fig, set_insert, set_remove, copy_vec,
};
use crate::game::{Game, GameView, game_wf, lemma_game_wf_figs};
use crate::moves::abs;
use crate::piece::Piece;
use crate::select::{choose_mover, mover_of};
use crate::text::chars_of;

verus! {

/// Whether the move text holds `O-O`, the mark of castling.
pub open spec fn has_short_castle(s: Seq<char>) -> bool {
    exists|i: int| #![trigger s[i]] 0 <= i && i + 3 <= s.len() && s[i] == 'O' && s[i + 1] == '-' && s[i + 2] == 'O'
}

/// Whether the move text holds `O-O-O`, the mark of castling on the
/// queen's side.
pub open spec fn has_long_castle(s: Seq<char>) -> bool {
    exists|i: int|
        #![trigger s[i]]
        0 <= i && i + 5 <= s.len() && s[i] == 'O' && s[i + 1] == '-' && s[i + 2] == 'O' && s[i + 3]
            == '-' && s[i + 4] == 'O'
}

/// The squares of castling: where the king and the rook start and where
/// they end.
pub open spec fn castle_squares(c: Color, long: bool) -> (int, int, int, int) {
    match c {
        Color::B => if long {
            (4, 0, 2, 3)
        } else {
            (4, 7, 6, 5)
        },
        Color::W => if long {
            (60, 56, 58, 59)
        } else {
            (60, 63, 62, 61)
        },
    }
}

/// The full-move number after the side `c` has moved.
pub open spec fn next_full_move(c: Color, n: u16) -> u16 {
    match c {
        Color::W => n,
        Color::B => (n + 1) as u16,
    }
}

/// Whether the clocks can count the move without passing their limit.
pub open spec fn clocks_fit(g: GameView, reset: bool) -> bool {
    &&& (reset || g.half_move_clock < u16::MAX)
    &&& (g.color == Color::B ==> g.full_move_clock < u16::MAX)
}

/// The game after the side to move castles: whatever stands on the king's
/// and the rook's squares moves to the squares of castling.  `None` where
/// either square is empty or a clock would pass its limit.
pub open spec fn castle_spec(g: GameView, long: bool) -> Option<GameView> {
    let (ks, rs, kt, rt) = castle_squares(g.color, long);
    match (g.position[ks], g.position[rs]) {
        (Some(king), Some(rook)) => {
            let new_king = Figure { coord: coord_at(kt), ..king };
            let new_rook = Figure { coord: coord_at(rt), ..rook };
            if !clocks_fit(g, false) {
                None
            } else {
                Some(
                    GameView {
                        board: g.board,
                        position: g.position.update(ks, None).update(rs, None).update(
                            kt,
                            Some(new_king),
                        ).update(rt, Some(new_rook)),
                        figures: set_insert(
                            set_insert(set_remove(set_remove(g.figures, king), rook), new_king),
                            new_rook,
                        ),
                        color: next_of(g.color),
                        castling: after_castle(g.castling, g.color),
                        en_passant: None,
                        half_move_clock: (g.half_move_clock + 1) as u16,
                        full_move_clock: next_full_move(g.color, g.full_move_clock),
                    },
                )
            }
        },
        _ => None,
    }
}

/// The pawn taken en passant on target `t`: the one a row behind `t` as
/// seen from its own side.
pub open spec fn ep_victim_pred(t: Coord) -> spec_fn(Figure) -> bool {
    |f: Figure| f.coord.idx == t.idx - factor_of(f.color) * 8
}

/// The figure standing on `t`.
pub open spec fn on_square_pred(t: Coord) -> spec_fn(Figure) -> bool {
    |f: Figure| f.coord == t
}

/// The pawns of the side after `c` standing beside the square `t`.
pub open spec fn ep_pred(c: Color, t: Coord) -> spec_fn(Figure) -> bool {
    |f: Figure|
        f.color == next_of(c) && f.piece == Piece::P && f.coord.y == t.y && abs(f.coord.x - t.x)
            == 1
}

/// The figure a move of `m` to the target of `d` places there: the
/// promoted piece, or `m` itself.
pub open spec fn placed_figure(g: GameView, d: Draw, m: Figure) -> Option<Figure> {
    if d.is_promo {
        match d.promoted_piece {
            Some(p) => Some(Figure { color: g.color, coord: d.target, piece: p }),
            None => None,
        }
    } else {
        Some(Figure { coord: d.target, ..m })
    }
}

/// The figure a capture takes: the en-passant victim where a pawn takes on
/// the en-passant square, else the first figure on the target square.
pub open spec fn victim_of(g: GameView, d: Draw, m: Figure, figs: Seq<Figure>) -> Option<Figure> {
    if g.en_passant is Some && m.piece == Piece::P && d.target == g.en_passant->0 {
        first_of(figs.filter(ep_victim_pred(d.target)))
    } else {
        first_of(figs.filter(on_square_pred(d.target)))
    }
}

/// Whether the move is a pawn's double step.
pub open spec fn is_double_step(d: Draw, m: Figure) -> bool {
    m.piece == Piece::P && abs(m.coord.y - d.target.y) == 2
}

/// The en-passant square after the move: the square passed over by a
/// pawn's double step where an enemy pawn stands beside the target.
pub open spec fn en_passant_after(g: GameView, d: Draw, m: Figure) -> Option<Coord> {
    if is_double_step(d, m) && g.figures.filter(ep_pred(g.color, d.target)).len() > 0 {
        Some(coord_at(d.target.idx + factor_of(g.color) * 8))
    } else {
        None
    }
}

/// The game after `m` makes the move `d`: `m` leaves its square, the
/// figure it takes (on the target, or the pawn taken en passant behind it)
/// leaves the board, and the placed figure stands on the target.  `None` where a capture finds
/// nothing to take, a promotion names no piece, the square passed over by
/// a double step lies off the board, or a clock would pass its limit.
pub open spec fn move_with(g: GameView, d: Draw, m: Figure) -> Option<GameView> {
    let figs1 = set_remove(g.figures, m);
    let victim = victim_of(g, d, m, figs1);
    let placed = placed_figure(g, d, m);
    let reset = d.is_hit || d.piece == Piece::P;
    if (d.is_hit && victim is None) || placed is None || (is_double_step(d, m) && !valid_index(
        d.target.idx + factor_of(g.color) * 8,
    )) || !clocks_fit(g, reset) {
        None
    } else {
        let figs2 = if d.is_hit {
            set_remove(figs1, victim->0)
        } else {
            figs1
        };
        let p = placed->0;
        let vacated = g.position.update(m.coord.idx as int, None);
        let cleared = if d.is_hit {
            vacated.update(victim->0.coord.idx as int, None)
        } else {
            vacated
        };
        Some(
            GameView {
                board: g.board,
                position: cleared.update(d.target.idx as int, Some(p)),
                figures: set_insert(figs2, p),
                color: next_of(g.color),
                castling: after_move(g.castling, m),
                en_passant: en_passant_after(g, d, m),
                half_move_clock: if reset {
                    0
                } else {
                    (g.half_move_clock + 1) as u16
                },
                full_move_clock: next_full_move(g.color, g.full_move_clock),
            },
        )
    }
}

/// The game after the move `mv`, given in Standard Algebraic Notation.
/// A text holding `O-O` castles (on the queen's side where it holds
/// `O-O-O`); any other names the piece that moves and its target.  `None`
/// where the text names no move, no figure can be found to make it, or the
/// move cannot be carried out (see `castle_spec` and `move_with`).
pub open spec fn play_move_spec(g: GameView, mv: Seq<char>) -> Option<GameView> {
    if has_short_castle(mv) {
        castle_spec(g, has_long_castle(mv))
    } else {
        match draw_of(mv) {
            None => None,
            Some(d) => match mover_of(g, d) {
                None => None,
                Some(m) => move_with(g, d, m),
            },
        }
    }
}

fn has_castle_mark(v: &Vec<char>, long: bool) -> (b: bool)
    ensures
        b == (if long {
            has_long_castle(v@)
        } else {
            has_short_castle(v@)
        }),
{
    let w: usize = if long {
        5
    } else {
        3
    };
    if v.len() < w {
        return false;
    }
    let mut i: usize = 0;
    while i <= v.len() - w
        invariant
            w == (if long {
                5usize
            } else {
                3usize
            }),
            w <= v.len(),
            i <= v.len() - w + 1,
            forall|j: int|
                #![trigger v@[j]]
                0 <= j < i ==> !(v@[j] == 'O' && v@[j + 1] == '-' && v@[j + 2] == 'O' && (long
                    ==> v@[j + 3] == '-' && v@[j + 4] == 'O')),
        decreases v.len() - i,
    {
        if v[i] == 'O' && v[i + 1] == '-' && v[i + 2] == 'O' && (!long || (v[i + 3] == '-' && v[i
            + 4] == 'O')) {
            return true;
        }
        i = i + 1;
    }
    false
}

pub proof fn lemma_castle_wf(g: GameView, long: bool)
    requires
        game_wf(g),
        castle_spec(g, long) is Some,
    ensures
        game_wf(castle_spec(g, long)->0),
{
    let (ks, rs, kt, rt) = castle_squares(g.color, long);
    let king = g.position[ks]->0;
    let rook = g.position[rs]->0;
    let new_king = Figure { coord: coord_at(kt), ..king };
    let new_rook = Figure { coord: coord_at(rt), ..rook };
    lemma_coord_at_wf(kt);
    lemma_coord_at_wf(rt);
    lemma_game_wf_figs(g);
    let f1 = set_remove(g.figures, king);
    lemma_filter_figs_wf(g.figures, other_than(king));
    lemma_filter_figs_wf(f1, other_than(rook));
    lemma_set_insert_wf(set_remove(f1, rook), new_king);
    lemma_set_insert_wf(set_insert(set_remove(f1, rook), new_king), new_rook);
}

pub proof fn lemma_move_with_wf(g: GameView, d: Draw, m: Figure)
    requires
        game_wf(g),
        coord_wf(d.target),
        figure_wf(m),
        move_with(g, d, m) is Some,
    ensures
        game_wf(move_with(g, d, m)->0),
{
    lemma_game_wf_figs(g);
    let figs1 = set_remove(g.figures, m);
    lemma_filter_figs_wf(g.figures, other_than(m));
    let victim = victim_of(g, d, m, figs1);
    let p = placed_figure(g, d, m)->0;
    if d.is_hit {
        if g.en_passant is Some && m.piece == Piece::P && d.target == g.en_passant->0 {
            lemma_filter_figs_wf(figs1, ep_victim_pred(d.target));
            assert(figure_wf(figs1.filter(ep_victim_pred(d.target))[0]));
        } else {
            lemma_filter_figs_wf(figs1, on_square_pred(d.target));
            assert(figure_wf(figs1.filter(on_square_pred(d.target))[0]));
        }
        assert(figure_wf(victim->0));
        lemma_coord_at_wf(victim->0.coord.idx as int);
        lemma_filter_figs_wf(figs1, other_than(victim->0));
        lemma_set_insert_wf(set_remove(figs1, victim->0), p);
    } else {
        lemma_set_insert_wf(figs1, p);
    }
    if is_double_step(d, m) {
        lemma_coord_at_wf(d.target.idx + factor_of(g.color) * 8);
    }
}

impl Game {
    /// Castling of the side to move, on the queen's side where the move
    /// text `mv` holds `O-O-O`; `None` where it cannot be carried out.
    fn castle(self, mv: String) -> (r: Option<Game>)
        requires
            game_wf(self@),
        ensures
            match r {
                Some(g) => castle_spec(self@, has_long_castle(mv@)) == Some(g@) && game_wf(g@),
                None => castle_spec(self@, has_long_castle(mv@)) is None,
            },
    {
        let ghost g0 = self@;
        let long = has_castle_mark(&chars_of(mv.as_str()), true);
        let mut figures = self.figures;
        let mut position = self.position;
        let (king_src, rook_src, king_tgt, rook_tgt): (usize, usize, usize, usize) = match self.color {
            Color::B => if long {
                (4, 0, 2, 3)
            } else {
                (4, 7, 6, 5)
            },
            Color::W => if long {
                (60, 56, 58, 59)
            } else {
                (60, 63, 62, 61)
            },
        };
        let king = match position[king_src] {
            Some(k) => k,
            None => {
                return None;
            },
        };
        let rook = match position[rook_src] {
            Some(r) => r,
            None => {
                return None;
            },
        };
        if self.half_move_clock == u16::MAX || (self.color == Color::B && self.full_move_clock
            == u16::MAX) {
            return None;
        }
        let new_king = king.move_to(&self.board[king_tgt]);
        let new_rook = rook.move_to(&self.board[rook_tgt]);
        figures = remove_fig(&figures, &king);
        figures = remove_fig(&figures, &rook);
        insert_fig(&mut figures, new_king);
        insert_fig(&mut figures, new_rook);
        position.set(king_src, None);
        position.set(rook_src, None);
        position.set(king_tgt, Some(new_king));
        position.set(rook_tgt, Some(new_rook));
        let full_move_clock = match self.color {
            Color::W => self.full_move_clock,
            Color::B => self.full_move_clock + 1,
        };
        let g = Game {
            board: self.board,
            position,
            figures,
            color: self.color.next(),
            castling: self.castling.castle(self.color),
            en_passant: None,
            half_move_clock: self.half_move_clock + 1,
            full_move_clock,
        };
        proof {
            lemma_castle_wf(g0, long);
            assert(g@.position =~= castle_spec(g0, long)->0.position);
        }
        Some(g)
    }

    /// Plays the move `mv`, given in Standard Algebraic Notation, and
    /// returns the game after it.
    pub fn play_move(self, mv: String) -> (g: Game)
        requires
            game_wf(self@),
            play_move_spec(self@, mv@) is Some,
        ensures
            g@ == play_move_spec(self@, mv@)->0,
            game_wf(g@),
    {
        match self.try_play_move(mv) {
            Some(g) => g,
            None => {
                proof {
                    assert(false);
                }
                Game::new()
            },
        }
    }

    /// Plays the move `mv`, given in Standard Algebraic Notation; `None`
    /// where the text names no move, no figure is found to make it, or it
    /// cannot be carried out (see `play_move_spec`).
    pub fn try_play_move(self, mv: String) -> (r: Option<Game>)
        requires
            game_wf(self@),
        ensures
            r is None <==> play_move_spec(self@, mv@) is None,
            r matches Some(g) ==> g@ == play_move_spec(self@, mv@)->0 && game_wf(g@),
    {
        let v = chars_of(mv.as_str());
        if has_castle_mark(&v, false) {
            return self.castle(mv);
        }
        let draw = match Draw::parse(mv.as_str()) {
            Some(d) => d,
            None => {
                return None;
            },
        };
        let ghost g0 = self@;
        let moving_figure = match choose_mover(&draw, &self) {
            Some(m) => m,
            None => {
                return None;
            },
        };
        let mut position = copy_vec(&self.position);
        position.set(moving_figure.coord.idx as usize, None);
        let mut figures = remove_fig(&self.figures, &moving_figure);
        proof {
            lemma_game_wf_figs(g0);
            lemma_filter_figs_wf(g0.figures, other_than(moving_figure));
        }
        if draw.is_hit {
            let ghost figs1 = figures@;
            let is_ep = match self.en_passant {
                Some(e) => moving_figure.piece == Piece::P && draw.target == e,
                None => false,
            };
            let target = draw.target;
            let found = if is_ep {
                let pred = |f: &Figure| -> (b: bool)
                    requires
                        figure_wf(*f),
                    ensures
                        b == ep_victim_pred(target)(*f),
                    { f.coord.idx == target.idx - f.color.factor() * 8 };
                filter_figs(&figures, pred, Ghost(ep_victim_pred(target)))
            } else {
                let pred = |f: &Figure| -> (b: bool)
                    ensures
                        b == on_square_pred(target)(*f),
                    { f.coord == target };
                filter_figs(&figures, pred, Ghost(on_square_pred(target)))
            };
            if found.len() == 0 {
                return None;
            }
            proof {
                lemma_filter_figs_wf(figs1, if is_ep {
                    ep_victim_pred(target)
                } else {
                    on_square_pred(target)
                });
                assert(figure_wf(found@[0]));
            }
            position.set(found[0].coord.idx as usize, None);
            figures = remove_fig(&figures, &found[0]);
        }
        let placed = if draw.is_promo {
            match draw.promoted_piece {
                Some(p) => Figure { color: self.color, coord: draw.target, piece: p },
                None => {
                    return None;
                },
            }
        } else {
            moving_figure.move_to(&draw.target)
        };
        position.set(placed.coord.idx as usize, Some(placed));
        insert_fig(&mut figures, placed);
        let mut en_passant: Option<Coord> = None;
        let dy = moving_figure.coord.y - draw.target.y;
        if moving_figure.piece == Piece::P && (dy == 2 || dy == -2) {
            let ep_idx: i8 = draw.target.idx + self.color.factor() * 8;
            if !valid_idx(ep_idx) {
                return None;
            }
            let ep_coord = self.board[ep_idx as usize];
            let color = self.color;
            let target = draw.target;
            let pred = |f: &Figure| -> (b: bool)
                requires
                    figure_wf(*f),
                ensures
                    b == ep_pred(color, target)(*f),
                {
                    let dx = f.coord.x - target.x;
                    f.color == color.next() && f.piece == Piece::P && f.coord.y == target.y && (dx
                        == 1 || dx == -1)
                };
            let ep_candidates = filter_figs(&self.figures, pred, Ghost(ep_pred(color, target)));
            if ep_candidates.len() > 0 {
                en_passant = Some(ep_coord);
            }
            proof {
                lemma_coord_at_wf(ep_idx as int);
            }
        }
        if !(draw.is_hit || draw.piece == Piece::P) && self.half_move_clock == u16::MAX {
            return None;
        }
        if self.color == Color::B && self.full_move_clock == u16::MAX {
            return None;
        }
        let g = Game {
            board: self.board,
            position,
            figures,
            color: self.color.next(),
            castling: self.castling.update(moving_figure),
            en_passant,
            half_move_clock: if draw.is_hit || draw.piece == Piece::P {
                0
            } else {
                self.half_move_clock + 1
            },
            full_move_clock: match self.color {
                Color::B => self.full_move_clock + 1,
                Color::W => self.full_move_clock,
            },
        };
        proof {
            lemma_move_with_wf(g0, draw, moving_figure);
            assert(g@.position =~= play_move_spec(g0, mv@)->0.position);
        }
        Some(g)
    }
}

} // verus!

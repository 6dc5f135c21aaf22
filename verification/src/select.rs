use vstd::prelude::*;
use crate::color::Color;
use crate::coord::{Coord, coord_wf};
use crate::draw::Draw;
use crate::figure::{Figure, figure_wf};
use crate::figset::{figs_wf, filter_figs, first_of, lemma_filter_figs_wf, lemma_filter_subset};
use crate::game::{
    Game, GameView, game_wf, king_of, lemma_game_wf_figs, move_figure_spec, remove_figure_spec,
};
use crate::moves::{get_hits, get_moves, hit_targets, move_targets};
use crate::piece::Piece;

verus! {

/// The figures of side `c` of kind `p`.
pub open spec fn mover_pred(c: Color, p: Piece) -> spec_fn(Figure) -> bool {
    |f: Figure| f.color == c && f.piece == p
}

/// The figures standing on the file and rank that the move names.
pub open spec fn remainder_pred(d: Draw) -> spec_fn(Figure) -> bool {
    |f: Figure|
        (d.remainder_file matches Some(a) ==> f.coord.file == a) && (d.remainder_rank matches Some(
            b,
        ) ==> f.coord.rank == b)
}

/// The candidates left by the file and rank the move names.
pub open spec fn remainder_filter(figs: Seq<Figure>, d: Draw) -> Seq<Figure> {
    if d.remainder_file is None && d.remainder_rank is None {
        figs
    } else {
        figs.filter(remainder_pred(d))
    }
}

/// The figures that can reach the target of the move: by taking where the
/// move takes, else by moving.
pub open spec fn reach_pred(g: GameView, d: Draw) -> spec_fn(Figure) -> bool {
    |f: Figure|
        if d.is_hit {
            hit_targets(g, f).contains(d.target)
        } else {
            move_targets(g, f).contains(d.target)
        }
}

/// The rooks, bishops and queens of the side other than `c` that reach the
/// square `kc`.
pub open spec fn checker_pred(alt: GameView, c: Color, kc: Coord) -> spec_fn(Figure) -> bool {
    |f: Figure|
        f.color != c && (f.piece == Piece::R || f.piece == Piece::B || f.piece == Piece::Q)
            && move_targets(alt, f).contains(kc)
}

pub open spec fn checkers(alt: GameView, c: Color, kc: Coord) -> Seq<Figure> {
    alt.figures.filter(checker_pred(alt, c, kc))
}

/// The candidates whose move to `target` leaves the king on `kc` out of
/// reach of every enemy rook, bishop and queen.
pub open spec fn unpinned_pred(base: GameView, c: Color, kc: Coord, target: Coord) -> spec_fn(
    Figure,
) -> bool {
    |fig: Figure| checkers(move_figure_spec(base, fig, target), c, kc).len() == 0
}

/// The first candidate that is not pinned to its king; `None` where the
/// side has no king, where a capture finds nothing on the target square,
/// or where every candidate is pinned.
pub open spec fn pins_choice(figs: Seq<Figure>, d: Draw, g: GameView) -> Option<Figure> {
    match king_of(g, g.color) {
        None => None,
        Some(k) => {
            let base = if d.is_hit {
                match g.position[d.target.idx as int] {
                    Some(v) => Some(remove_figure_spec(g, v)),
                    None => None,
                }
            } else {
                Some(g)
            };
            match base {
                None => None,
                Some(b) => first_of(figs.filter(unpinned_pred(b, g.color, k.coord, d.target))),
            }
        },
    }
}

pub open spec fn after_moves(figs: Seq<Figure>, d: Draw, g: GameView) -> Option<Figure> {
    let c = figs.filter(reach_pred(g, d));
    if c.len() == 1 {
        Some(c[0])
    } else {
        pins_choice(c, d, g)
    }
}

pub open spec fn after_remainder(figs: Seq<Figure>, d: Draw, g: GameView) -> Option<Figure> {
    let b = remainder_filter(figs, d);
    if b.len() == 1 {
        Some(b[0])
    } else {
        after_moves(b, d, g)
    }
}

/// The figure that makes the move `d`: among the figures of the side to
/// move of the kind the move names, the only one, else the only one on the
/// named file and rank, else the only one that reaches the target, else
/// the first of those that is not pinned.
pub open spec fn mover_of(g: GameView, d: Draw) -> Option<Figure> {
    let a = g.figures.filter(mover_pred(g.color, d.piece));
    if a.len() == 1 {
        Some(a[0])
    } else {
        after_remainder(a, d, g)
    }
}

/// Whether `v` holds the square `c`.
pub fn contains_coord(v: &Vec<Coord>, c: &Coord) -> (b: bool)
    ensures
        b == v@.contains(*c),
{
    let mut i: usize = 0;
    while i < v.len()
        invariant
            i <= v.len(),
            forall|j: int| 0 <= j < i ==> v@[j] != *c,
        decreases v.len() - i,
    {
        if v[i] == *c {
            return true;
        }
        i = i + 1;
    }
    false
}

/// The number of enemy rooks, bishops and queens that reach `kc`.
fn count_checkers(alt: &Game, color: Color, kc: &Coord) -> (n: usize)
    requires
        game_wf(alt@),
    ensures
        n == checkers(alt@, color, *kc).len(),
{
    let kc = *kc;
    let is_checker = |f: &Figure| -> (b: bool)
        requires
            game_wf(alt@),
            figure_wf(*f),
        ensures
            b == checker_pred(alt@, color, kc)(*f),
        {
            f.color != color && (f.piece == Piece::R || f.piece == Piece::B || f.piece == Piece::Q)
                && contains_coord(&get_moves(f, alt), &kc)
        };
    let found = filter_figs(&alt.figures, is_checker, Ghost(checker_pred(alt@, color, kc)));
    found.len()
}

/// Chooses among `figures` the first one that is not pinned; `None` where
/// the side to move has no king, a capture finds its target empty, or
/// every candidate is pinned.
pub fn choose_unpinned(figures: Vec<Figure>, draw: &Draw, game: &Game) -> (r: Option<Figure>)
    requires
        game_wf(game@),
        figs_wf(figures@),
        coord_wf(draw.target),
    ensures
        r == pins_choice(figures@, *draw, game@),
        r matches Some(f) ==> figures@.contains(f),
{
    let king_coord = match game.copy().try_find_king(game.color) {
        Some(k) => k.coord,
        None => {
            return None;
        },
    };
    let base_game = if draw.is_hit {
        match game.position[draw.target.idx as usize] {
            Some(v) => {
                proof {
                    assert(figure_wf(v));
                }
                game.copy().remove_figure(&v)
            },
            None => {
                return None;
            },
        }
    } else {
        game.copy()
    };
    let ghost base = base_game@;
    let color = game.color;
    let target = draw.target;
    let unpinned = |fig: &Figure| -> (b: bool)
        requires
            game_wf(base_game@),
            figure_wf(*fig),
            coord_wf(target),
        ensures
            b == unpinned_pred(base_game@, color, king_coord, target)(*fig),
        {
            let alt_game = base_game.copy().move_figure(fig, &target);
            let n_checkers = count_checkers(&alt_game, color, &king_coord);
            n_checkers == 0
        };
    let figs = filter_figs(&figures, unpinned, Ghost(unpinned_pred(base, color, king_coord, target)));
    proof {
        lemma_filter_subset(figures@, unpinned_pred(base, color, king_coord, target));
    }
    if figs.len() > 0 {
        Some(figs[0])
    } else {
        None
    }
}

/// Chooses among `figures` the first one that is not pinned.
pub fn filter_on_pins(figures: Vec<Figure>, draw: &Draw, game: &Game) -> (r: Figure)
    requires
        game_wf(game@),
        figs_wf(figures@),
        coord_wf(draw.target),
        pins_choice(figures@, *draw, game@) is Some,
    ensures
        r == pins_choice(figures@, *draw, game@)->0,
        figures@.contains(r),
{
    match choose_unpinned(figures, draw, game) {
        Some(f) => f,
        None => {
            proof {
                assert(false);
            }
            game.copy().find_king(game.color)
        },
    }
}

/// Chooses among `figures` by the target of the move; `None` where more
/// than one, or none, reaches it and no candidate is left by the pins.
pub fn choose_by_moves(figures: Vec<Figure>, draw: &Draw, game: &Game) -> (r: Option<Figure>)
    requires
        game_wf(game@),
        figs_wf(figures@),
        coord_wf(draw.target),
    ensures
        r == after_moves(figures@, *draw, game@),
        r matches Some(f) ==> figures@.contains(f),
{
    let d = *draw;
    let reaches = |f: &Figure| -> (b: bool)
        requires
            game_wf(game@),
            figure_wf(*f),
        ensures
            b == reach_pred(game@, d)(*f),
        {
            if d.is_hit {
                contains_coord(&get_hits(f, game), &d.target)
            } else {
                contains_coord(&get_moves(f, game), &d.target)
            }
        };
    let figs = filter_figs(&figures, reaches, Ghost(reach_pred(game@, d)));
    proof {
        lemma_filter_figs_wf(figures@, reach_pred(game@, d));
        lemma_filter_subset(figures@, reach_pred(game@, d));
    }
    if figs.len() == 1 {
        Some(figs[0])
    } else {
        choose_unpinned(figs, draw, game)
    }
}

/// Chooses among `figures` by the target of the move.
pub fn filter_on_moves(figures: Vec<Figure>, draw: &Draw, game: &Game) -> (r: Figure)
    requires
        game_wf(game@),
        figs_wf(figures@),
        coord_wf(draw.target),
        after_moves(figures@, *draw, game@) is Some,
    ensures
        r == after_moves(figures@, *draw, game@)->0,
        figures@.contains(r),
{
    match choose_by_moves(figures, draw, game) {
        Some(f) => f,
        None => {
            proof {
                assert(false);
            }
            game.copy().find_king(game.color)
        },
    }
}

/// Chooses among `figures` by the file and rank the move names, then by
/// the target; `None` where no single candidate is found.
pub fn choose_by_remainder(figures: Vec<Figure>, draw: &Draw, game: &Game) -> (r: Option<Figure>)
    requires
        game_wf(game@),
        figs_wf(figures@),
        coord_wf(draw.target),
    ensures
        r == after_remainder(figures@, *draw, game@),
        r matches Some(f) ==> figures@.contains(f),
{
    let d = *draw;
    let figs = if d.remainder_file.is_none() && d.remainder_rank.is_none() {
        figures
    } else {
        let on_remainder = |f: &Figure| -> (b: bool)
            ensures
                b == remainder_pred(d)(*f),
            {
                (match d.remainder_file {
                    Some(a) => f.coord.file == a,
                    None => true,
                }) && (match d.remainder_rank {
                    Some(b) => f.coord.rank == b,
                    None => true,
                })
            };
        let r = filter_figs(&figures, on_remainder, Ghost(remainder_pred(d)));
        proof {
            lemma_filter_figs_wf(figures@, remainder_pred(d));
            lemma_filter_subset(figures@, remainder_pred(d));
        }
        r
    };
    if figs.len() == 1 {
        Some(figs[0])
    } else {
        choose_by_moves(figs, draw, game)
    }
}

/// Chooses among `figures` by the file and rank the move names.
pub fn filter_on_remainder(figures: Vec<Figure>, draw: &Draw, game: &Game) -> (r: Figure)
    requires
        game_wf(game@),
        figs_wf(figures@),
        coord_wf(draw.target),
        after_remainder(figures@, *draw, game@) is Some,
    ensures
        r == after_remainder(figures@, *draw, game@)->0,
        figures@.contains(r),
{
    match choose_by_remainder(figures, draw, game) {
        Some(f) => f,
        None => {
            proof {
                assert(false);
            }
            game.copy().find_king(game.color)
        },
    }
}

/// The figure that makes the move `draw`; `None` where none is found.
pub fn choose_mover(draw: &Draw, game: &Game) -> (r: Option<Figure>)
    requires
        game_wf(game@),
        coord_wf(draw.target),
    ensures
        r == mover_of(game@, *draw),
        r matches Some(f) ==> game@.figures.contains(f) && figure_wf(f),
{
    let color = game.color;
    let piece = draw.piece;
    let is_mover = |f: &Figure| -> (b: bool)
        ensures
            b == mover_pred(color, piece)(*f),
        { f.color == color && f.piece == piece };
    let figs = filter_figs(&game.figures, is_mover, Ghost(mover_pred(color, piece)));
    proof {
        lemma_game_wf_figs(game@);
        lemma_filter_figs_wf(game@.figures, mover_pred(color, piece));
        lemma_filter_subset(game@.figures, mover_pred(color, piece));
    }
    let r = if figs.len() == 1 {
        Some(figs[0])
    } else {
        choose_by_remainder(figs, draw, game)
    };
    proof {
        if r is Some {
            assert(figs@.contains(r->0));
            assert(game@.figures.contains(r->0));
        }
    }
    r
}

/// The figure that makes the move `draw`.
pub fn filter_mover(draw: &Draw, game: &Game) -> (r: Figure)
    requires
        game_wf(game@),
        coord_wf(draw.target),
        mover_of(game@, *draw) is Some,
    ensures
        r == mover_of(game@, *draw)->0,
        game@.figures.contains(r),
        figure_wf(r),
{
    match choose_mover(draw, game) {
        Some(f) => f,
        None => {
            proof {
                assert(false);
            }
            game.copy().find_king(game.color)
        },
    }
}

// ------------------------------------------------------------------
// A single legal mover is the one chosen

/// The game in which pins are judged: without the taken figure where the
/// move takes; `None` where it takes and nothing stands on the target.
pub open spec fn pin_base(g: GameView, d: Draw) -> Option<GameView> {
    if d.is_hit {
        match g.position[d.target.idx as int] {
            Some(v) => Some(remove_figure_spec(g, v)),
            None => None,
        }
    } else {
        Some(g)
    }
}

/// Whether `f` moving to the target of `d` leaves the king of the side to
/// move out of reach of every enemy rook, bishop and queen.
pub open spec fn unpinned_mover(g: GameView, d: Draw, f: Figure) -> bool {
    match (king_of(g, g.color), pin_base(g, d)) {
        (Some(k), Some(b)) => unpinned_pred(b, g.color, k.coord, d.target)(f),
        _ => false,
    }
}

/// Whether `f` can make the move `d`: a figure of the side to move of the
/// named kind, on the named file and rank, reaching the target, not pinned.
pub open spec fn legal_mover(g: GameView, d: Draw, f: Figure) -> bool {
    &&& g.figures.contains(f)
    &&& mover_pred(g.color, d.piece)(f)
    &&& remainder_pred(d)(f)
    &&& reach_pred(g, d)(f)
    &&& unpinned_mover(g, d, f)
}

proof fn lemma_in_filter(s: Seq<Figure>, p: spec_fn(Figure) -> bool, x: Figure)
    requires
        s.contains(x),
        p(x),
    ensures
        s.filter(p).contains(x),
{
    let j = choose|j: int| 0 <= j < s.len() && s[j] == x;
    s.lemma_filter_contains(p, j);
}

proof fn lemma_only_member(s: Seq<Figure>, x: Figure)
    requires
        s.len() == 1,
        s.contains(x),
    ensures
        s[0] == x,
{
}

/// Among candidates of which exactly one is not pinned, the pin filter
/// chooses that one.
pub proof fn law_pins_choose_the_unpinned(figs: Seq<Figure>, d: Draw, g: GameView, f: Figure)
    requires
        figs.contains(f),
        unpinned_mover(g, d, f),
        forall|x: Figure| #[trigger] figs.contains(x) && unpinned_mover(g, d, x) ==> x == f,
    ensures
        pins_choice(figs, d, g) == Some(f),
{
    let k = king_of(g, g.color)->0;
    let b = pin_base(g, d)->0;
    let p = unpinned_pred(b, g.color, k.coord, d.target);
    let e = figs.filter(p);
    lemma_in_filter(figs, p, f);
    lemma_filter_subset(figs, p);
    assert(figs.contains(e[0]));
    assert(p(e[0]));
    assert(unpinned_mover(g, d, e[0]));
}

/// Among candidates of which exactly one reaches the target unpinned, the
/// reach and pin filters choose that one.
pub proof fn law_moves_choose_the_legal(figs: Seq<Figure>, d: Draw, g: GameView, f: Figure)
    requires
        figs.contains(f),
        reach_pred(g, d)(f),
        unpinned_mover(g, d, f),
        forall|x: Figure|
            #[trigger] figs.contains(x) && reach_pred(g, d)(x) && unpinned_mover(g, d, x) ==> x
                == f,
    ensures
        after_moves(figs, d, g) == Some(f),
{
    let c = figs.filter(reach_pred(g, d));
    lemma_in_filter(figs, reach_pred(g, d), f);
    lemma_filter_subset(figs, reach_pred(g, d));
    if c.len() == 1 {
        lemma_only_member(c, f);
    } else {
        assert forall|x: Figure| #[trigger] c.contains(x) && unpinned_mover(g, d, x) implies x
            == f by {
            let j = choose|j: int| 0 <= j < c.len() && c[j] == x;
            assert(figs.contains(c[j]));
            assert(reach_pred(g, d)(c[j]));
        }
        law_pins_choose_the_unpinned(c, d, g, f);
    }
}

/// Among candidates of which exactly one stands on the named file and
/// rank and reaches the target unpinned, the remaining filters choose it.
pub proof fn law_remainder_chooses_the_legal(figs: Seq<Figure>, d: Draw, g: GameView, f: Figure)
    requires
        figs.contains(f),
        remainder_pred(d)(f),
        reach_pred(g, d)(f),
        unpinned_mover(g, d, f),
        forall|x: Figure|
            #[trigger] figs.contains(x) && remainder_pred(d)(x) && reach_pred(g, d)(x)
                && unpinned_mover(g, d, x) ==> x == f,
    ensures
        after_remainder(figs, d, g) == Some(f),
{
    let b = remainder_filter(figs, d);
    if d.remainder_file is None && d.remainder_rank is None {
        assert(b == figs);
    } else {
        lemma_in_filter(figs, remainder_pred(d), f);
        lemma_filter_subset(figs, remainder_pred(d));
    }
    assert(b.contains(f));
    if b.len() == 1 {
        lemma_only_member(b, f);
    } else {
        assert forall|x: Figure|
            #[trigger] b.contains(x) && reach_pred(g, d)(x) && unpinned_mover(g, d, x) implies x
            == f by {
            let j = choose|j: int| 0 <= j < b.len() && b[j] == x;
            assert(figs.contains(b[j]));
            assert(remainder_pred(d)(b[j]));
        }
        law_moves_choose_the_legal(b, d, g, f);
    }
}

/// Where exactly one figure can legally make the move, it is the figure
/// chosen to make it.
pub proof fn law_the_single_legal_mover_is_chosen(g: GameView, d: Draw, f: Figure)
    requires
        legal_mover(g, d, f),
        forall|x: Figure| #[trigger] legal_mover(g, d, x) ==> x == f,
    ensures
        mover_of(g, d) == Some(f),
{
    let p = mover_pred(g.color, d.piece);
    let a = g.figures.filter(p);
    lemma_in_filter(g.figures, p, f);
    lemma_filter_subset(g.figures, p);
    if a.len() == 1 {
        lemma_only_member(a, f);
    } else {
        assert forall|x: Figure|
            #[trigger] a.contains(x) && remainder_pred(d)(x) && reach_pred(g, d)(x)
                && unpinned_mover(g, d, x) implies x == f by {
            let j = choose|j: int| 0 <= j < a.len() && a[j] == x;
            assert(g.figures.contains(a[j]));
            assert(p(a[j]));
            assert(legal_mover(g, d, x));
        }
        law_remainder_chooses_the_legal(a, d, g, f);
    }
}

} // verus!

use vstd::prelude::*;
use crate::castling::Castling;
use crate::color::Color;
use crate::coord::{Coord, board_spec, coord_at, coord_wf, get_board, valid_index};
use crate::fen::{figures_from, figures_of, lemma_figures_of};
use crate::figure::{Figure, figure_wf};
use crate::figset::{
    copy_vec, figs_sorted, figs_wf, filter_figs, first_of, insert_fig, lemma_filter_figs_wf, lemma_set_insert_wf,
    other_than, remove_fig, set_insert, set_remove,
};
use crate::piece::Piece;

verus! {

/// The state of a game, with one field for each part of a FEN record.
#[derive(Clone, Debug, PartialEq, Eq)]
pub struct Game {
    /// The 64 squares in index order, for looking squares up by index.
    pub board: Vec<Coord>,
    /// What stands on each square.
    pub position: Vec<Option<Figure>>,
    /// The figures in play, each once.
    pub figures: Vec<Figure>,
    /// The side to move.
    pub color: Color,
    /// The castling rights left.
    pub castling: Castling,
    /// The square a pawn may be taken on en passant, if any.
    pub en_passant: Option<Coord>,
    /// Half-moves since the last capture or pawn move.
    pub half_move_clock: u16,
    /// The number of the full move, starting at 1.
    pub full_move_clock: u16,
}

/// The mathematical value of a game.
pub struct GameView {
    pub board: Seq<Coord>,
    pub position: Seq<Option<Figure>>,
    pub figures: Seq<Figure>,
    pub color: Color,
    pub castling: Castling,
    pub en_passant: Option<Coord>,
    pub half_move_clock: u16,
    pub full_move_clock: u16,
}

impl View for Game {
    type V = GameView;

    open spec fn view(&self) -> GameView {
        GameView {
            board: self.board@,
            position: self.position@,
            figures: self.figures@,
            color: self.color,
            castling: self.castling,
            en_passant: self.en_passant,
            half_move_clock: self.half_move_clock,
            full_move_clock: self.full_move_clock,
        }
    }
}

/// What every game keeps: the standard board, 64 squares each holding
/// nothing or a figure standing on that square, figures on well-formed
/// squares listed in rank order (so each once), and a well-formed
/// en-passant square.
pub open spec fn game_wf(g: GameView) -> bool {
    &&& g.board == board_spec()
    &&& g.position.len() == 64
    &&& forall|i: int|
        0 <= i < 64 ==> (#[trigger] g.position[i] matches Some(f) ==> f.coord == coord_at(i))
    &&& forall|j: int| 0 <= j < g.figures.len() ==> figure_wf(#[trigger] g.figures[j])
    &&& figs_sorted(g.figures)
    &&& (g.en_passant matches Some(c) ==> coord_wf(c))
}

} // verus!

verus! {

/// The predicate that holds of the king of side `c`.
pub open spec fn is_king_of(c: Color) -> spec_fn(Figure) -> bool {
    |f: Figure| f.piece == Piece::K && f.color == c
}

/// The first king of side `c` among the figures, if any.
pub open spec fn king_of(g: GameView, c: Color) -> Option<Figure> {
    first_of(g.figures.filter(is_king_of(c)))
}

/// The game with `fig` taken off the board.
pub open spec fn remove_figure_spec(g: GameView, fig: Figure) -> GameView {
    GameView {
        figures: set_remove(g.figures, fig),
        position: g.position.update(fig.coord.idx as int, None),
        ..g
    }
}

/// The game with `fig` moved to `target`, whatever stood there replaced.
pub open spec fn move_figure_spec(g: GameView, fig: Figure, target: Coord) -> GameView {
    let moved = Figure { coord: target, ..fig };
    GameView {
        figures: set_remove(set_insert(g.figures, moved), fig),
        position: g.position.update(target.idx as int, Some(moved)).update(fig.coord.idx as int, None),
        ..g
    }
}

pub proof fn lemma_game_wf_figs(g: GameView)
    requires
        game_wf(g),
    ensures
        figs_wf(g.figures),
{
}

pub proof fn lemma_remove_figure_wf(g: GameView, fig: Figure)
    requires
        game_wf(g),
        figure_wf(fig),
    ensures
        game_wf(remove_figure_spec(g, fig)),
{
    lemma_filter_figs_wf(g.figures, other_than(fig));
}

pub proof fn lemma_move_figure_wf(g: GameView, fig: Figure, target: Coord)
    requires
        game_wf(g),
        figure_wf(fig),
        coord_wf(target),
    ensures
        game_wf(move_figure_spec(g, fig, target)),
{
    let moved = Figure { coord: target, ..fig };
    lemma_set_insert_wf(g.figures, moved);
    lemma_filter_figs_wf(set_insert(g.figures, moved), other_than(fig));
}

impl Game {
    /// A copy of the game.
    pub fn copy(&self) -> (g: Game)
        ensures
            g@ == self@,
    {
        Game {
            board: copy_vec(&self.board),
            position: copy_vec(&self.position),
            figures: copy_vec(&self.figures),
            color: self.color,
            castling: self.castling,
            en_passant: self.en_passant,
            half_move_clock: self.half_move_clock,
            full_move_clock: self.full_move_clock,
        }
    }

    /// The king of side `color`, if it has one.
    pub fn try_find_king(self, color: Color) -> (r: Option<Figure>)
        ensures
            r == king_of(self@, color),
    {
        let is_king = |f: &Figure| -> (b: bool)
            ensures
                b == is_king_of(color)(*f),
            { f.piece == Piece::K && f.color == color };
        let kings = filter_figs(&self.figures, is_king, Ghost(is_king_of(color)));
        if kings.len() > 0 {
            Some(kings[0])
        } else {
            None
        }
    }

    /// The king of side `color`.
    pub fn find_king(self, color: Color) -> (f: Figure)
        requires
            king_of(self@, color) is Some,
        ensures
            f == king_of(self@, color)->0,
    {
        let is_king = |f: &Figure| -> (b: bool)
            ensures
                b == is_king_of(color)(*f),
            { f.piece == Piece::K && f.color == color };
        let kings = filter_figs(&self.figures, is_king, Ghost(is_king_of(color)));
        kings[0]
    }

    /// The game with `figure` taken off the board.
    pub fn remove_figure(self, figure: &Figure) -> (g: Game)
        requires
            game_wf(self@),
            figure_wf(*figure),
        ensures
            g@ == remove_figure_spec(self@, *figure),
            game_wf(g@),
    {
        let new_figures = remove_fig(&self.figures, figure);
        let mut new_position = self.position;
        new_position.set(figure.coord.idx as usize, None);
        proof {
            lemma_remove_figure_wf(self@, *figure);
        }
        Game {
            board: self.board,
            position: new_position,
            figures: new_figures,
            color: self.color,
            castling: self.castling,
            en_passant: self.en_passant,
            half_move_clock: self.half_move_clock,
            full_move_clock: self.full_move_clock,
        }
    }

    /// The game with `figure` moved to `target`.
    pub fn move_figure(self, figure: &Figure, target: &Coord) -> (g: Game)
        requires
            game_wf(self@),
            figure_wf(*figure),
            coord_wf(*target),
        ensures
            g@ == move_figure_spec(self@, *figure, *target),
            game_wf(g@),
    {
        let moved_figure = figure.move_to(target);
        let mut new_figures = self.figures;
        insert_fig(&mut new_figures, moved_figure);
        let new_figures = remove_fig(&new_figures, figure);
        let mut new_position = self.position;
        new_position.set(target.idx as usize, Some(moved_figure));
        new_position.set(figure.coord.idx as usize, None);
        proof {
            lemma_move_figure_wf(self@, *figure, *target);
        }
        Game {
            board: self.board,
            position: new_position,
            figures: new_figures,
            color: self.color,
            castling: self.castling,
            en_passant: self.en_passant,
            half_move_clock: self.half_move_clock,
            full_move_clock: self.full_move_clock,
        }
    }
}

} // verus!

verus! {

/// The piece that starts on file `x` of a back rank.
pub open spec fn home_piece(x: int) -> Piece {
    if x == 0 || x == 7 {
        Piece::R
    } else if x == 1 || x == 6 {
        Piece::N
    } else if x == 2 || x == 5 {
        Piece::B
    } else if x == 3 {
        Piece::Q
    } else {
        Piece::K
    }
}

/// What stands on square `i` at the start of a game.
pub open spec fn start_square(i: int) -> Option<Figure> {
    if 0 <= i < 8 {
        Some(Figure { color: Color::B, coord: coord_at(i), piece: home_piece(i) })
    } else if 8 <= i < 16 {
        Some(Figure { color: Color::B, coord: coord_at(i), piece: Piece::P })
    } else if 48 <= i < 56 {
        Some(Figure { color: Color::W, coord: coord_at(i), piece: Piece::P })
    } else if 56 <= i < 64 {
        Some(Figure { color: Color::W, coord: coord_at(i), piece: home_piece(i - 56) })
    } else {
        None
    }
}

pub open spec fn start_position() -> Seq<Option<Figure>> {
    Seq::new(64, |i: int| start_square(i))
}

/// The game at the start of a standard match.
pub open spec fn start_game() -> GameView {
    GameView {
        board: board_spec(),
        position: start_position(),
        figures: figures_of(start_position()),
        color: Color::W,
        castling: Castling {
            white_kingside: true,
            white_queenside: true,
            black_kingside: true,
            black_queenside: true,
        },
        en_passant: None,
        half_move_clock: 0,
        full_move_clock: 1,
    }
}

fn home_piece_of(x: i8) -> (p: Piece)
    ensures
        p == home_piece(x as int),
{
    if x == 0 || x == 7 {
        Piece::R
    } else if x == 1 || x == 6 {
        Piece::N
    } else if x == 2 || x == 5 {
        Piece::B
    } else if x == 3 {
        Piece::Q
    } else {
        Piece::K
    }
}

fn start_square_of(i: i8) -> (r: Option<Figure>)
    requires
        valid_index(i as int),
    ensures
        r == start_square(i as int),
{
    if i < 8 {
        Some(Figure { color: Color::B, coord: Coord::from_idx(i), piece: home_piece_of(i) })
    } else if i < 16 {
        Some(Figure { color: Color::B, coord: Coord::from_idx(i), piece: Piece::P })
    } else if i >= 56 {
        Some(Figure { color: Color::W, coord: Coord::from_idx(i), piece: home_piece_of(i - 56) })
    } else if i >= 48 {
        Some(Figure { color: Color::W, coord: Coord::from_idx(i), piece: Piece::P })
    } else {
        None
    }
}

pub proof fn lemma_start_game_wf()
    ensures
        game_wf(start_game()),
{
    let p = start_position();
    assert forall|i: int| 0 <= i < 64 implies (#[trigger] p[i] matches Some(f) ==> f.coord
        == coord_at(i)) by {}
    lemma_figures_of(p);
    let g = start_game();
    assert forall|j: int| 0 <= j < g.figures.len() implies figure_wf(#[trigger] g.figures[j]) by {
        crate::coord::lemma_coord_at_wf(g.figures[j].coord.idx as int);
    }
}

impl Game {
    /// The game at the beginning of a standard match.
    pub fn new() -> (g: Game)
        ensures
            g@ == start_game(),
            game_wf(g@),
    {
        let mut position: Vec<Option<Figure>> = Vec::new();
        let mut i: i8 = 0;
        while i < 64
            invariant
                0 <= i <= 64,
                position@ == start_position().take(i as int),
            decreases 64 - i,
        {
            position.push(start_square_of(i));
            i = i + 1;
            assert(position@ =~= start_position().take(i as int));
        }
        assert(position@ =~= start_position());
        let figures = figures_from(&position);
        proof {
            lemma_start_game_wf();
        }
        Game {
            board: get_board(),
            position,
            figures,
            color: Color::W,
            castling: Castling::new(),
            en_passant: None,
            half_move_clock: 0,
            full_move_clock: 1,
        }
    }
}

} // verus!

use vstd::prelude::*;
use crate::color::{Color, factor_of};
use crate::coord::{Coord, coord_at, coord_wf, square_of, valid_index, valid_idx, lemma_coord_at_wf};
use crate::figure::{Figure, figure_wf};
use crate::game::{Game, GameView, game_wf};
use crate::piece::Piece;

verus! {

pub open spec fn abs(i: int) -> int {
    if i < 0 {
        -i
    } else {
        i
    }
}

/// Square `ti` as a target of `fig`: an empty square or one held by the
/// other side; a square held by its own side is no target.
pub open spec fn reach(g: GameView, fig: Figure, ti: int) -> Seq<i8> {
    match g.position[ti] {
        None => seq![ti as i8],
        Some(o) => if o.color != fig.color {
            seq![ti as i8]
        } else {
            Seq::empty()
        },
    }
}

/// The squares a pawn may advance to: the square in front if it is empty,
/// and from the pawn's starting rank also the square two in front.
pub open spec fn pawn_moves(g: GameView, fig: Figure) -> Seq<i8> {
    let ci = fig.coord.idx as int;
    let f = factor_of(fig.color);
    let ti = ci - f * 8;
    let first = if valid_index(ti) && g.position[ti] is None {
        seq![ti as i8]
    } else {
        Seq::<i8>::empty()
    };
    let home = (fig.color == Color::W && fig.coord.y == 1) || (fig.color == Color::B
        && fig.coord.y == 6);
    let tii = ci - f * 16;
    if home && valid_index(tii) && first.len() > 0 {
        first.push(tii as i8)
    } else {
        first
    }
}

/// The capture of a pawn along one diagonal, `i` being 7 or 9: a square
/// held by the other side, and the same square once more where it is the
/// en-passant square.
pub open spec fn pawn_hit_toward(g: GameView, fig: Figure, i: int) -> Seq<i8> {
    let ti = fig.coord.idx - factor_of(fig.color) * i;
    if valid_index(ti) && g.position[ti] is Some {
        (if g.position[ti]->0.color != fig.color {
            seq![ti as i8]
        } else {
            Seq::<i8>::empty()
        }) + (if g.en_passant matches Some(e) && e.idx == ti {
            seq![ti as i8]
        } else {
            Seq::<i8>::empty()
        })
    } else {
        Seq::empty()
    }
}

/// The squares a pawn may take on.
pub open spec fn pawn_hits(g: GameView, fig: Figure) -> Seq<i8> {
    pawn_hit_toward(g, fig, 7) + pawn_hit_toward(g, fig, 9)
}

pub open spec fn knight_deltas() -> Seq<int> {
    seq![-17, -15, -10, -6, 6, 10, 15, 17]
}

pub open spec fn king_deltas() -> Seq<int> {
    seq![-9, -8, -7, -1, 1, 7, 8, 9]
}

/// One jump of a knight, kept where it lands on the board at most two
/// files away.
pub open spec fn knight_step(g: GameView, fig: Figure, d: int) -> Seq<i8> {
    let ti = fig.coord.idx + d;
    if valid_index(ti) && abs(fig.coord.x - coord_at(ti).x) < 3 {
        reach(g, fig, ti)
    } else {
        Seq::empty()
    }
}

/// One step of a king, kept where it lands on the board with the file of
/// the target at most one away from the king's file or from its rank
/// number.
pub open spec fn king_step(g: GameView, fig: Figure, d: int) -> Seq<i8> {
    let ti = fig.coord.idx + d;
    if valid_index(ti) && (abs(fig.coord.x - coord_at(ti).x) <= 1 || abs(
        fig.coord.y - coord_at(ti).x,
    ) <= 1) {
        reach(g, fig, ti)
    } else {
        Seq::empty()
    }
}

/// The steps along the first `n` deltas, in order.
pub open spec fn steps(g: GameView, fig: Figure, deltas: Seq<int>, n: nat, king: bool) -> Seq<i8>
    decreases n,
{
    if n == 0 {
        Seq::empty()
    } else {
        steps(g, fig, deltas, (n - 1) as nat, king) + if king {
            king_step(g, fig, deltas[n - 1])
        } else {
            knight_step(g, fig, deltas[n - 1])
        }
    }
}

pub open spec fn knight_moves(g: GameView, fig: Figure) -> Seq<i8> {
    steps(g, fig, knight_deltas(), 8, false)
}

pub open spec fn king_moves(g: GameView, fig: Figure) -> Seq<i8> {
    steps(g, fig, king_deltas(), 8, true)
}

/// Whether square `ti` lies on a line of `fig`: its file or rank where
/// `straight`, else one of its diagonals.
pub open spec fn aligned(fig: Figure, ti: int, straight: bool) -> bool {
    let c = coord_at(ti);
    if straight {
        c.x == fig.coord.x || c.y == fig.coord.y
    } else {
        c.main_diagonal == fig.coord.main_diagonal || c.anti_diagonal == fig.coord.anti_diagonal
    }
}

pub open spec fn slide_measure(d: int, ti: int) -> nat {
    if d > 0 {
        if ti < 64 {
            (64 - ti) as nat
        } else {
            0
        }
    } else {
        if ti >= 0 {
            (ti + 1) as nat
        } else {
            0
        }
    }
}

/// The squares a sliding piece reaches from square `ti` on, stepping by
/// `d` while on the board and on its line: empty squares, then the first
/// occupied one if the other side holds it.
pub open spec fn slide(g: GameView, fig: Figure, d: int, ti: int, straight: bool) -> Seq<i8>
    decreases slide_measure(d, ti),
{
    if d == 0 || !valid_index(ti) || !aligned(fig, ti, straight) {
        Seq::empty()
    } else {
        match g.position[ti] {
            None => seq![ti as i8] + slide(g, fig, d, ti + d, straight),
            Some(o) => if o.color != fig.color {
                seq![ti as i8]
            } else {
                Seq::empty()
            },
        }
    }
}

/// The squares a sliding piece reaches in direction `d`.
pub open spec fn ray(g: GameView, fig: Figure, d: int, straight: bool) -> Seq<i8> {
    slide(g, fig, d, fig.coord.idx + d, straight)
}

/// A bishop slides along the diagonals, in the order of the index steps
/// -9, -7, 7 and 9.
pub open spec fn bishop_moves(g: GameView, fig: Figure) -> Seq<i8> {
    ray(g, fig, -9, false) + ray(g, fig, -7, false) + ray(g, fig, 7, false) + ray(g, fig, 9, false)
}

/// A rook slides along its file and rank, in the order of the index steps
/// -8, -1, 1 and 8.
pub open spec fn rook_moves(g: GameView, fig: Figure) -> Seq<i8> {
    ray(g, fig, -8, true) + ray(g, fig, -1, true) + ray(g, fig, 1, true) + ray(g, fig, 8, true)
}

/// A queen moves as a bishop and as a rook.
pub open spec fn queen_moves(g: GameView, fig: Figure) -> Seq<i8> {
    bishop_moves(g, fig) + rook_moves(g, fig)
}

/// The board indices a figure may move to.
pub open spec fn moves_of(g: GameView, fig: Figure) -> Seq<i8> {
    match fig.piece {
        Piece::P => pawn_moves(g, fig),
        Piece::R => rook_moves(g, fig),
        Piece::N => knight_moves(g, fig),
        Piece::B => bishop_moves(g, fig),
        Piece::Q => queen_moves(g, fig),
        Piece::K => king_moves(g, fig),
    }
}

pub open spec fn coords_of(s: Seq<i8>) -> Seq<Coord> {
    s.map_values(|i: i8| coord_at(i as int))
}

/// The squares a figure may move to.
pub open spec fn move_targets(g: GameView, fig: Figure) -> Seq<Coord> {
    coords_of(moves_of(g, fig))
}

/// The squares a figure may take on: a pawn takes diagonally, other pieces
/// take where they move.
pub open spec fn hit_targets(g: GameView, fig: Figure) -> Seq<Coord> {
    match fig.piece {
        Piece::P => coords_of(pawn_hits(g, fig)),
        _ => move_targets(g, fig),
    }
}

pub open spec fn all_valid(s: Seq<i8>) -> bool {
    forall|k: int| 0 <= k < s.len() ==> valid_index(#[trigger] s[k] as int)
}

pub proof fn lemma_all_valid_concat(a: Seq<i8>, b: Seq<i8>)
    requires
        all_valid(a),
        all_valid(b),
    ensures
        all_valid(a + b),
{
    assert forall|k: int| 0 <= k < (a + b).len() implies valid_index(#[trigger] (a + b)[k] as int) by {
        if k < a.len() {
            assert((a + b)[k] == a[k]);
        } else {
            assert((a + b)[k] == b[k - a.len()]);
        }
    }
}

fn abs_i8(v: i8) -> (r: i8)
    requires
        -100 <= v <= 100,
    ensures
        r == abs(v as int),
{
    if v < 0 {
        -v
    } else {
        v
    }
}

/// Pushes square `ti` where it is a target of `fig`.
fn push_reach(r: &mut Vec<i8>, fig: &Figure, game: &Game, ti: i8)
    requires
        game_wf(game@),
        valid_index(ti as int),
        all_valid(old(r)@),
    ensures
        final(r)@ == old(r)@ + reach(game@, *fig, ti as int),
        all_valid(final(r)@),
{
    match game.position[ti as usize] {
        None => {
            r.push(ti);
        },
        Some(o) => {
            if o.color != fig.color {
                r.push(ti);
            }
        },
    }
    assert(final(r)@ =~= old(r)@ + reach(game@, *fig, ti as int));
}

/// The board indices a pawn may advance to.
pub fn get_pawn_moves(fig: &Figure, game: &Game) -> (r: Vec<i8>)
    requires
        game_wf(game@),
        figure_wf(*fig),
    ensures
        r@ == pawn_moves(game@, *fig),
        all_valid(r@),
{
    let mut coordix: Vec<i8> = Vec::new();
    let ci = fig.coord.idx;
    let f = fig.color.factor();
    let ti: i8 = ci - f * 8;
    if valid_idx(ti) && game.position[ti as usize].is_none() {
        coordix.push(ti);
    }
    if (fig.color.is_white() && fig.coord.y == 1) || (fig.color.is_black() && fig.coord.y == 6) {
        let tii: i8 = ci - f * 16;
        if valid_idx(tii) && game.position[ti as usize].is_none() {
            if coordix.len() > 0 {
                coordix.push(tii);
            }
        }
    }
    assert(coordix@ =~= pawn_moves(game@, *fig));
    coordix
}

/// The board indices a pawn may take on.
pub fn get_pawn_hits(fig: &Figure, game: &Game) -> (r: Vec<i8>)
    requires
        game_wf(game@),
        figure_wf(*fig),
    ensures
        r@ == pawn_hits(game@, *fig),
        all_valid(r@),
{
    let mut coordix: Vec<i8> = Vec::new();
    let ci = fig.coord.idx;
    let f = fig.color.factor();
    let mut k: usize = 0;
    while k < 2
        invariant
            k <= 2,
            ci == fig.coord.idx,
            f == factor_of(fig.color),
            game_wf(game@),
            figure_wf(*fig),
            coordix@ == (if k == 0 {
                Seq::empty()
            } else if k == 1 {
                pawn_hit_toward(game@, *fig, 7)
            } else {
                pawn_hits(game@, *fig)
            }),
            all_valid(coordix@),
        decreases 2 - k,
    {
        let i: i8 = if k == 0 {
            7
        } else {
            9
        };
        let ghost before = coordix@;
        let ti: i8 = ci - f * i;
        if valid_idx(ti) && game.position[ti as usize].is_some() {
            match game.position[ti as usize] {
                Some(o) => {
                    if o.color != fig.color {
                        coordix.push(ti);
                    }
                },
                None => {},
            }
            match game.en_passant {
                Some(e) => {
                    if e.idx == ti {
                        coordix.push(ti);
                    }
                },
                None => {},
            }
        }
        assert(coordix@ =~= before + pawn_hit_toward(game@, *fig, i as int));
        k = k + 1;
    }
    coordix
}

fn knight_delta(k: usize) -> (d: i8)
    requires
        k < 8,
    ensures
        d == knight_deltas()[k as int],
{
    if k == 0 {
        -17
    } else if k == 1 {
        -15
    } else if k == 2 {
        -10
    } else if k == 3 {
        -6
    } else if k == 4 {
        6
    } else if k == 5 {
        10
    } else if k == 6 {
        15
    } else {
        17
    }
}

fn king_delta(k: usize) -> (d: i8)
    requires
        k < 8,
    ensures
        d == king_deltas()[k as int],
{
    if k == 0 {
        -9
    } else if k == 1 {
        -8
    } else if k == 2 {
        -7
    } else if k == 3 {
        -1
    } else if k == 4 {
        1
    } else if k == 5 {
        7
    } else if k == 6 {
        8
    } else {
        9
    }
}

/// The board indices a knight may jump to.
pub fn get_knight_moves(fig: &Figure, game: &Game) -> (r: Vec<i8>)
    requires
        game_wf(game@),
        figure_wf(*fig),
    ensures
        r@ == knight_moves(game@, *fig),
        all_valid(r@),
{
    let mut coordix: Vec<i8> = Vec::new();
    let ci = fig.coord.idx;
    let mut k: usize = 0;
    while k < 8
        invariant
            k <= 8,
            ci == fig.coord.idx,
            game_wf(game@),
            figure_wf(*fig),
            coordix@ == steps(game@, *fig, knight_deltas(), k as nat, false),
            all_valid(coordix@),
        decreases 8 - k,
    {
        let d = knight_delta(k);
        let ti: i8 = ci + d;
        let ghost before = coordix@;
        if valid_idx(ti) {
            proof {
                lemma_coord_at_wf(ti as int);
            }
            let bx = game.board[ti as usize].x;
            if abs_i8(fig.coord.x - bx) < 3 {
                push_reach(&mut coordix, fig, game, ti);
            }
        }
        proof {
            assert(coordix@ =~= before + knight_step(game@, *fig, d as int));
        }
        k = k + 1;
    }
    coordix
}

/// The board indices a king may step to.
pub fn get_king_moves(fig: &Figure, game: &Game) -> (r: Vec<i8>)
    requires
        game_wf(game@),
        figure_wf(*fig),
    ensures
        r@ == king_moves(game@, *fig),
        all_valid(r@),
{
    let mut coordix: Vec<i8> = Vec::new();
    let ci = fig.coord.idx;
    let mut k: usize = 0;
    while k < 8
        invariant
            k <= 8,
            ci == fig.coord.idx,
            game_wf(game@),
            figure_wf(*fig),
            coordix@ == steps(game@, *fig, king_deltas(), k as nat, true),
            all_valid(coordix@),
        decreases 8 - k,
    {
        let d = king_delta(k);
        let ti: i8 = ci + d;
        let ghost before = coordix@;
        if valid_idx(ti) {
            proof {
                lemma_coord_at_wf(ti as int);
            }
            let bx = game.board[ti as usize].x;
            if abs_i8(fig.coord.x - bx) <= 1 || abs_i8(fig.coord.y - bx) <= 1 {
                push_reach(&mut coordix, fig, game, ti);
            }
        }
        proof {
            assert(coordix@ =~= before + king_step(game@, *fig, d as int));
        }
        k = k + 1;
    }
    coordix
}

fn is_aligned(fig: &Figure, game: &Game, ti: i8, straight: bool) -> (b: bool)
    requires
        game_wf(game@),
        valid_index(ti as int),
    ensures
        b == aligned(*fig, ti as int, straight),
{
    let c = &game.board[ti as usize];
    if straight {
        c.x == fig.coord.x || c.y == fig.coord.y
    } else {
        c.main_diagonal == fig.coord.main_diagonal || c.anti_diagonal == fig.coord.anti_diagonal
    }
}

fn slide_dir(fig: &Figure, game: &Game, d: i8, straight: bool) -> (r: Vec<i8>)
    requires
        game_wf(game@),
        figure_wf(*fig),
        d != 0,
        -9 <= d <= 9,
    ensures
        r@ == ray(game@, *fig, d as int, straight),
        all_valid(r@),
{
    let ghost total = slide(game@, *fig, d as int, fig.coord.idx + d, straight);
    let mut coordix: Vec<i8> = Vec::new();
    let mut ti: i8 = fig.coord.idx + d;
    let mut unblocked: bool = true;
    while unblocked && valid_idx(ti) && is_aligned(fig, game, ti, straight)
        invariant
            game_wf(game@),
            figure_wf(*fig),
            d != 0,
            -9 <= d <= 9,
            -20 <= ti <= 80,
            unblocked ==> coordix@ + slide(game@, *fig, d as int, ti as int, straight) == total,
            !unblocked ==> coordix@ == total,
            all_valid(coordix@),
        decreases slide_measure(d as int, ti as int),
    {
        let ghost before = coordix@;
        match game.position[ti as usize] {
            None => {
                coordix.push(ti);
                assert(coordix@ + slide(game@, *fig, d as int, ti + d, straight) =~= before
                    + slide(game@, *fig, d as int, ti as int, straight));
            },
            Some(o) => {
                unblocked = false;
                if o.color != fig.color {
                    coordix.push(ti);
                }
                assert(coordix@ =~= before + slide(game@, *fig, d as int, ti as int, straight));
            },
        }
        ti = ti + d;
    }
    if unblocked {
        assert(coordix@ =~= coordix@ + slide(game@, *fig, d as int, ti as int, straight));
    }
    coordix
}

fn slides_of(fig: &Figure, game: &Game, d0: i8, d1: i8, d2: i8, d3: i8, straight: bool) -> (r: Vec<i8>)
    requires
        game_wf(game@),
        figure_wf(*fig),
        d0 != 0 && -9 <= d0 <= 9,
        d1 != 0 && -9 <= d1 <= 9,
        d2 != 0 && -9 <= d2 <= 9,
        d3 != 0 && -9 <= d3 <= 9,
    ensures
        r@ == ray(game@, *fig, d0 as int, straight) + ray(game@, *fig, d1 as int, straight) + ray(
            game@,
            *fig,
            d2 as int,
            straight,
        ) + ray(game@, *fig, d3 as int, straight),
        all_valid(r@),
{
    let mut r = slide_dir(fig, game, d0, straight);
    let mut a = slide_dir(fig, game, d1, straight);
    proof {
        lemma_all_valid_concat(r@, a@);
    }
    r.append(&mut a);
    let mut b = slide_dir(fig, game, d2, straight);
    proof {
        lemma_all_valid_concat(r@, b@);
    }
    r.append(&mut b);
    let mut c = slide_dir(fig, game, d3, straight);
    proof {
        lemma_all_valid_concat(r@, c@);
    }
    r.append(&mut c);
    r
}

/// The board indices a bishop may slide to.
pub fn get_bishop_moves(fig: &Figure, game: &Game) -> (r: Vec<i8>)
    requires
        game_wf(game@),
        figure_wf(*fig),
    ensures
        r@ == bishop_moves(game@, *fig),
        all_valid(r@),
{
    slides_of(fig, game, -9, -7, 7, 9, false)
}

/// The board indices a rook may slide to.
pub fn get_rook_moves(fig: &Figure, game: &Game) -> (r: Vec<i8>)
    requires
        game_wf(game@),
        figure_wf(*fig),
    ensures
        r@ == rook_moves(game@, *fig),
        all_valid(r@),
{
    slides_of(fig, game, -8, -1, 1, 8, true)
}

/// The board indices a queen may slide to.
pub fn get_queen_moves(fig: &Figure, game: &Game) -> (r: Vec<i8>)
    requires
        game_wf(game@),
        figure_wf(*fig),
    ensures
        r@ == queen_moves(game@, *fig),
        all_valid(r@),
{
    let mut coordix: Vec<i8> = Vec::new();
    let mut bishop_coordix = get_bishop_moves(fig, game);
    let mut rook_coordix = get_rook_moves(fig, game);
    proof {
        lemma_all_valid_concat(bishop_coordix@, rook_coordix@);
    }
    coordix.append(&mut bishop_coordix);
    coordix.append(&mut rook_coordix);
    assert(coordix@ =~= queen_moves(game@, *fig));
    coordix
}

fn moves_idx(fig: &Figure, game: &Game) -> (r: Vec<i8>)
    requires
        game_wf(game@),
        figure_wf(*fig),
    ensures
        r@ == moves_of(game@, *fig),
        all_valid(r@),
{
    match fig.piece {
        Piece::P => get_pawn_moves(fig, game),
        Piece::R => get_rook_moves(fig, game),
        Piece::N => get_knight_moves(fig, game),
        Piece::B => get_bishop_moves(fig, game),
        Piece::Q => get_queen_moves(fig, game),
        Piece::K => get_king_moves(fig, game),
    }
}

/// The squares of the given board indices.
fn idx_to_coords(game: &Game, idx: &Vec<i8>) -> (r: Vec<Coord>)
    requires
        game_wf(game@),
        all_valid(idx@),
    ensures
        r@ == coords_of(idx@),
        forall|k: int| 0 <= k < r@.len() ==> coord_wf(#[trigger] r@[k]),
{
    let mut r: Vec<Coord> = Vec::new();
    let mut k: usize = 0;
    while k < idx.len()
        invariant
            game_wf(game@),
            all_valid(idx@),
            k <= idx.len(),
            r@ == coords_of(idx@.take(k as int)),
            forall|j: int| 0 <= j < r@.len() ==> coord_wf(#[trigger] r@[j]),
        decreases idx.len() - k,
    {
        let ci = idx[k];
        proof {
            assert(valid_index(idx@[k as int] as int));
            lemma_coord_at_wf(ci as int);
        }
        r.push(game.board[ci as usize]);
        k = k + 1;
        assert(r@ =~= coords_of(idx@.take(k as int)));
    }
    assert(idx@.take(idx.len() as int) =~= idx@);
    r
}

/// The squares a figure may move to in the game.
pub fn get_moves(fig: &Figure, game: &Game) -> (r: Vec<Coord>)
    requires
        game_wf(game@),
        figure_wf(*fig),
    ensures
        r@ == move_targets(game@, *fig),
        forall|k: int| 0 <= k < r@.len() ==> coord_wf(#[trigger] r@[k]),
{
    let coordis = moves_idx(fig, game);
    idx_to_coords(game, &coordis)
}

/// The squares a figure may take on in the game.
pub fn get_hits(fig: &Figure, game: &Game) -> (r: Vec<Coord>)
    requires
        game_wf(game@),
        figure_wf(*fig),
    ensures
        r@ == hit_targets(game@, *fig),
        forall|k: int| 0 <= k < r@.len() ==> coord_wf(#[trigger] r@[k]),
{
    match fig.piece {
        Piece::P => {
            let h = get_pawn_hits(fig, game);
            idx_to_coords(game, &h)
        },
        _ => get_moves(fig, game),
    }
}

} // verus!

verus! {

/// The squares named by a list of texts such as `e4`.
pub fn coords_from_san(coords: Vec<&str>) -> (r: Vec<Coord>)
    requires
        forall|k: int| 0 <= k < coords@.len() ==> (#[trigger] square_of(coords@[k]@)) is Some,
    ensures
        r@.len() == coords@.len(),
        forall|k: int| 0 <= k < coords@.len() ==> r@[k] == (#[trigger] square_of(coords@[k]@))->0,
{
    let mut r: Vec<Coord> = Vec::new();
    let mut k: usize = 0;
    while k < coords.len()
        invariant
            k <= coords.len(),
            forall|j: int| 0 <= j < coords@.len() ==> (#[trigger] square_of(coords@[j]@)) is Some,
            r@.len() == k,
            forall|j: int| 0 <= j < k ==> r@[j] == (#[trigger] square_of(coords@[j]@))->0,
        decreases coords.len() - k,
    {
        let c = Coord::from(coords[k]);
        r.push(c);
        k = k + 1;
    }
    r
}

} // verus!

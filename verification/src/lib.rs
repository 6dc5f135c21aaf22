//! Chess game state: reading and writing Forsyth-Edwards Notation (FEN)
//! and playing moves given in Standard Algebraic Notation (SAN).
//!
//! - `piece`, `color`, `coord`, `figure`, `castling`: the parts of a game;
//! - `draw`: moves in SAN taken apart;
//! - `game`: the game state, its invariant and its elementary changes;
//! - `moves`: the squares each figure may move to or take on;
//! - `select`: finding the figure that makes a move;
//! - `play`: playing a move;
//! - `fen`: reading and writing FEN records;
//! - `fen_laws`, `play_laws`: what holds of all games and moves;
//! - `rule_laws`: the rules of play, stated in board terms;
//! - `fen_canon`: canonical FEN texts, read and written back unchanged;
//! - `figset`, `text`: sets of figures and characters.
use vstd::prelude::*;

pub mod castling;
pub mod color;
pub mod coord;
pub mod draw;
pub mod fen;
pub mod fen_canon;
pub mod fen_laws;
pub mod figset;
pub mod figure;
pub mod game;
pub mod moves;
pub mod piece;
pub mod play;
pub mod play_laws;
pub mod rule_laws;
pub mod select;
pub mod text;

verus! {

} // verus!

# lib: a verified chess game state

The state of a chess game, read from and written to Forsyth-Edwards
Notation (FEN), and moves played on it from Standard Algebraic Notation
(SAN), written in Verus with contracts that state the result of every
public function.

- `src/game.rs`: the game state (`Game`), its mathematical value
  (`GameView`), the invariant every game keeps (`game_wf`), the start
  position, and taking off or moving a single figure.
- `src/moves.rs`: the squares each kind of figure may move to or take on.
- `src/select.rs`: finding the figure that makes a move: by kind, by the
  file and rank the move names, by its reach, and by pins; where a single
  figure can legally make the move, it is the one chosen.
- `src/play.rs`: playing a move, castling and en passant included
  (`play_move_spec`); `try_play_move` answers `None` where the move
  cannot be played.
- `src/fen.rs`: reading (`game_of_fen`) and writing (`fen_of`) FEN records.
- `src/draw.rs`: SAN move texts taken apart (`draw_of`).
- `src/fen_laws.rs`, `src/play_laws.rs`: properties proved of all games
  and moves, among them that a written record reads back as the same game.
- `src/fen_canon.rs`: the records written in canonical form
  (`canonical_fen`, `canonical_placement`), and the proof that such a
  record reads as a game whose record is the text itself.
- `src/piece.rs`, `src/color.rs`, `src/coord.rs`, `src/figure.rs`,
  `src/castling.rs`, `src/figset.rs`, `src/text.rs`: the parts.

One function is trusted rather than proved: `text::string_from_chars`,
which collects characters into a `String`.

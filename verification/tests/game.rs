use std::collections::HashSet;

use lib::castling::Castling;
use lib::color::Color;
use lib::draw::Draw;
use lib::figure::Figure;
use lib::game::Game;
use lib::moves::{coords_from_san, get_moves};
use lib::select::filter_mover;

/// Plays the moves of a game score written with move numbers, such as
/// `1. e4 e5 2. Nf3`, from the starting position.
fn replay(score: &str) -> Game {
    score
        .split_whitespace()
        .filter(|token| !token.ends_with('.'))
        .fold(Game::new(), |game, token| game.play_move(token.to_string()))
}

/// The squares reachable by the figure named `fig` in a fresh game.
fn moves_in_new_game(fig: &str) -> Vec<lib::coord::Coord> {
    get_moves(&Figure::from(fig), &Game::new())
}

#[test]
fn check_moves_and_blocks_in_new_game_for_white_pawn_a2() {
    assert_eq!(moves_in_new_game("Pa2"), coords_from_san(vec!["a3", "a4"]));
}

#[test]
fn check_moves_and_blocks_in_new_game_for_black_pawn_g7() {
    assert_eq!(moves_in_new_game("pg7"), coords_from_san(vec!["g6", "g5"]));
}

#[test]
fn check_moves_and_blocks_in_new_game_for_white_knight_b1() {
    assert_eq!(moves_in_new_game("Nb1"), coords_from_san(vec!["a3", "c3"]));
}

#[test]
fn check_moves_and_blocks_in_new_game_for_white_bishop_c1() {
    assert!(moves_in_new_game("Bc1").is_empty());
    assert_eq!(moves_in_new_game("Bc1"), coords_from_san(vec![]));
}

#[test]
fn check_moves_and_blocks_in_new_game_for_black_rook_h8() {
    assert_eq!(moves_in_new_game("rh8"), coords_from_san(vec![]));
}

#[test]
fn check_moves_and_blocks_in_new_game_for_white_queen_d1() {
    assert_eq!(moves_in_new_game("Qd1"), coords_from_san(vec![]));
}

#[test]
fn check_moves_and_blocks_in_new_game_for_white_king_e1() {
    assert_eq!(moves_in_new_game("Ke1"), coords_from_san(vec![]));
}

#[test]
fn check_moves_and_blocks_in_new_game_for_white_bishop_a3() {
    let expected = coords_from_san("b4 c5 d6 e7".split(' ').collect());
    assert_eq!(moves_in_new_game("Ba3"), expected);
}

#[test]
fn check_moves_and_blocks_in_new_game_for_black_bishop_a3() {
    let expected = coords_from_san("b4 c5 d6 b2".split(' ').collect());
    assert_eq!(moves_in_new_game("ba3"), expected);
}

#[test]
fn check_moves_and_blocks_in_new_game_for_white_rook_e4() {
    let expected = coords_from_san("e5 e6 e7 d4 c4 b4 a4 f4 g4 h4 e3".split(' ').collect());
    assert_eq!(moves_in_new_game("Re4"), expected);
}

#[test]
fn check_moves_and_blocks_in_new_game_for_black_rook_e4() {
    let expected = coords_from_san("e5 e6 d4 c4 b4 a4 f4 g4 h4 e3 e2".split(' ').collect());
    assert_eq!(moves_in_new_game("re4"), expected);
}

const START_FEN: &str = "rnbqkbnr/pppppppp/8/8/8/8/PPPPPPPP/RNBQKBNR w KQkq - 0 1";

/// The final position of https://lichess.org/U1N9Qa74/black.
const LICHESS_U1N9QA74: &str = "5rk1/1b2n1pp/4R3/1p3pN1/2pP4/r5PP/P4P2/2RQ2Kq w - - 1 24";

#[test]
fn check_game_from_fen_base() {
    assert_eq!(Game::from(START_FEN.to_string()), Game::new());
}

#[test]
fn check_game_from_fen() {
    let game = Game::from(LICHESS_U1N9QA74.to_string());

    // The same position, placed square by square.
    let mut position: Vec<Option<Figure>> = vec![None; 64];
    let placed = "rf8 kg8 bb7 ne7 pg7 ph7 Re6 pb5 pf5 Ng5 pc4 Pd4 ra3 Pg3 Ph3 Pa2 Pf2 Rc1 Qd1 Kg1 qh1";
    for name in placed.split(' ') {
        let fig = Figure::from(name);
        position[fig.coord.idx as usize] = Some(fig);
    }
    let no_rights = Castling {
        white_kingside: false,
        white_queenside: false,
        black_kingside: false,
        black_queenside: false,
    };

    assert_eq!(game.color, Color::W);
    assert_eq!(game.castling, no_rights);
    assert_eq!(game.en_passant, None);
    assert_eq!(game.half_move_clock, 1);
    assert_eq!(game.full_move_clock, 24);
    assert_eq!(game.position, position);
}

#[test]
fn check_fen_conversion_pt0() {
    let written = Game::from(LICHESS_U1N9QA74.to_string()).to_fen();
    assert_eq!(written, LICHESS_U1N9QA74.to_string());
}

#[test]
fn check_king_extraction() {
    let game = Game::new();
    assert_eq!(game.clone().find_king(Color::W), Figure::from("Ke1"));
    assert_eq!(game.clone().find_king(Color::B), Figure::from("ke8"));
}

/// The figure that makes the move `mv` in the game of record `fen`.
fn mover(fen: &str, mv: &str) -> Figure {
    let game = Game::from(fen.to_string());
    filter_mover(&Draw::from(mv.to_string()), &game)
}

const PAWNS_AND_QUEENS: &str = "k7/8/2q3q1/1PP5/8/8/NR6/KN1N3B w - - 0 1";
const PINNED_QUEENS: &str = "k7/8/q1q3q1/1PP5/8/8/RR6/KN5B b - - 0 1";

#[test]
fn check_filter_mover_detection_base() {
    assert_eq!(mover(START_FEN, "Nc3"), Figure::from("Nb1"));
}

#[test]
fn check_filter_mover_detection_pawn_hit() {
    assert_eq!(mover(PAWNS_AND_QUEENS, "bxc6"), Figure::from("Pb5"));
}

#[test]
fn check_filter_mover_detection_pawn_move() {
    assert_eq!(mover(PAWNS_AND_QUEENS, "b6"), Figure::from("Pb5"));
}

#[test]
fn check_mover_detection_with_remainder() {
    assert_eq!(mover(PINNED_QUEENS, "Qgg2"), Figure::from("qg6"));
}

#[test]
fn check_mover_detection_with_pinned_queen() {
    assert_eq!(mover(PINNED_QUEENS, "Qd6"), Figure::from("qg6"));
}

#[test]
fn check_mover_detection_with_movable_pinned_queen() {
    assert_eq!(mover(PINNED_QUEENS, "Qb7"), Figure::from("qc6"));
}

#[test]
fn check_mover_detection_with_hit_from_queen() {
    let fen = "k3R3/8/q1q3q1/1PP5/8/8/RR6/KN5B b - - 0 1";
    assert_eq!(mover(fen, "Qxe8"), Figure::from("qg6"));
}

#[test]
fn check_castling() {
    let game = Game::from("4k2r/8/8/8/8/8/8/R3K3 w Qk - 0 1".to_string());
    let after = game.play_move("O-O-O".to_string()).play_move("O-O".to_string());

    let figures: HashSet<Figure> = after.figures.iter().cloned().collect();
    let expected: HashSet<Figure> = ["Kc1", "Rd1", "rf8", "kg8"].iter().map(|n| Figure::from(n)).collect();
    assert_eq!(figures, expected);
}

#[test]
fn check_board() {
    let game = Game::new();

    // Rank 8, rank 7, four empty ranks, rank 2, rank 1.
    let mut expected: Vec<Option<Figure>> = Vec::new();
    let black = "ra8 nb8 bc8 qd8 ke8 bf8 ng8 rh8 pa7 pb7 pc7 pd7 pe7 pf7 pg7 ph7";
    let white = "Pa2 Pb2 Pc2 Pd2 Pe2 Pf2 Pg2 Ph2 Ra1 Nb1 Bc1 Qd1 Ke1 Bf1 Ng1 Rh1";
    expected.extend(black.split(' ').map(|n| Some(Figure::from(n))));
    expected.extend(std::iter::repeat(None).take(32));
    expected.extend(white.split(' ').map(|n| Some(Figure::from(n))));

    assert_eq!(game.position, expected);
}

/// https://lichess.org/hWMPaRcI
#[test]
fn check_playing_games_pt1() {
    let score = "
        1. c4 c5 2. Nc3 e5 3. e3 Nf6 4. Nf3 Nc6 5. b3 e4 6. Ng1 d6 7. d4 Bg4 8. Qd2 Bd7
        9. dxc5 dxc5 10. Nd5 Nxd5 11. cxd5 Nb4 12. Qc3 b6 13. Qc4 Bc8 14. a3 Na6 15. Qxe4+ Be7
        16. Bb2 Bb7 17. Rd1 O-O 18. Bc4 Nc7 19. Bd3 g6 20. Bc4 Bf6 21. Bxf6 Qxf6 22. Ne2 Rae8
        23. Qg4 Rd8 24. e4 Bc8 25. Qf4 Qxf4 26. Nxf4 b5 27. d6 Na6 28. Bxb5 Nb8 29. e5 a6
        30. Bc4 Nc6 31. O-O Nxe5 32. Rfe1 Nxc4 33. bxc4 Bb7 34. Re7 Bc6 35. Ra7 Rfe8 36. h3 Ba4
        37. Rd2 Re1+ 38. Kh2 Re4 39. Rxa6 Rxc4 40. g3 Rc2 41. Rxc2 Bxc2 42. a4 c4 43. Rc6 Bb3
        44. a5 Bd1 45. a6 g5 46. Ne2 Bxe2 47. a7 Bf3 48. Rb6 Ra8 49. Rb8+ Rxb8 50. axb8=Q+ Kg7
        51. d7 g4 52. d8=Q gxh3 53. Qd4+ f6 54. Qb7+ Kg6 55. Qxf3 Kf7 56. Qdxf6+ Ke8
        57. Qe4+ Kd7 58. Qfe6+ Kc7 59. Qd4 Kb7 60. Qed5+ Kc7 61. Q4xc4+ Kb6
    ";
    assert_eq!(replay(score).to_fen(), "8/7p/1k6/3Q4/2Q5/6Pp/5P1K/8 w - - 1 62".to_string());
}

/// https://lichess.org/BpKMwGdB
#[test]
fn check_playing_games_pt2() {
    let score = "
        1. c4 e5 2. Nc3 Bc5 3. a3 Nf6 4. e3 e4 5. b4 Bd6 6. d4 exd3 7. Bxd3 Be5 8. Bb2 d6
        9. Nf3 h6 10. Bc2 O-O 11. Nxe5 Nbd7 12. Nxd7 Bxd7 13. Nd5 Bg4 14. f3 Bh5 15. Nxf6+ gxf6
        16. O-O Qe7 17. Re1 Rae8 18. Qd2 Bg6 19. e4 Kh7 20. a4 Rg8 21. a5 Bh5 22. Bc1 Rg6
        23. a6 b6 24. Rb1 Bxf3 25. e5 fxe5 26. Bxg6+ Kxg6 27. Qxh6+ Kf5 28. Rf1 e4 29. gxf3 Rg8+
        30. Kh1 Rg6 31. fxe4+ Ke6 32. Qh3+ Ke5 33. Qf5+ Kd4 34. Qxf7 Qxe4+ 35. Qf3 Qxb1
        36. Qe3+ Kxc4 37. Qf4+ Kb5 38. Qf5+ Qxf5 39. Rxf5+ Kxa6 40. h4 Rg4 41. h5 Rxb4
        42. Rf4 Rb1 43. Rf1 Rb5 44. h6 Rh5+ 45. Kg2 Re5 46. Rf7 Re8 47. h7 Rh8 48. Bb2 Rxh7
        49. Rxh7 c5 50. Kf2 d5 51. Ke2 b5 52. Kd2 c4 53. Kc3 Kb6 54. Ba3 a6 55. Rh5 Kc6
        56. Rh6+ Kd7 57. Kd4 a5 58. Kxd5 c3 59. Kc5 b4 60. Bc1 b3 61. Rh2 a4 62. Kb4 b2
        63. Bxb2 cxb2 64. Rxb2 Kc6 65. Kxa4 Kd5 66. Rb4 Kc5 67. Ka5 Kd5 68. Kb5 Ke5 69. Rc4 Kd5
        70. Kb4 Ke5 71. Kc5 Kf5 72. Rd4 Ke5 73. Kc4 Kf5 74. Kd5 Kf6 75. Re4 Kf5 76. Kd4 Kf6
        77. Re5 Kg6 78. Ke4 Kf6 79. Kf4 Kg6 80. Rf5 Kg7 81. Ke5 Kg6 82. Ke4 Kg7 83. Ke5 Kg6
        84. Ke6 Kg7 85. Rf6 Kg8 86. Ke7 Kg7 87. Ke6 Kg8 88. Kf5 Kg7 89. Kg5 Kh7 90. Rg6 Kh8
        91. Kf6 Kh7 92. Kf7 Kh8 93. Kf8 Kh7 94. Kf7 Kh8 95. Rh6#
    ";
    assert_eq!(replay(score).to_fen(), "7k/5K2/7R/8/8/8/8/8 b - - 60 95".to_string());
}

/// https://lichess.org/K8nhk3Jx
#[test]
fn check_playing_games_pt3() {
    let score = "
        1. c4 e5 2. Nc3 Nf6 3. e3 d5 4. cxd5 Nxd5 5. Nxd5 Qxd5 6. b3 Bb4 7. Nf3 Bg4 8. Bc4 Qd6
        9. O-O e4 10. h3 exf3 11. hxg4 fxg2 12. Qf3 Qe5 13. d4 Qa5 14. Rd1 Bc3 15. Qxf7+ Kd8
        16. Qd5+ Qxd5 17. Bxd5 Bxa1 18. Ba3 Bc3 19. Kxg2 Nd7 20. f4 c6 21. Bc4 Kc7 22. e4 Rae8
        23. e5 Kb8 24. Rd3 Be1 25. Bf7 Ref8 26. Bxf8 Rxf8 27. Bc4 Rxf4 28. g5 Rg4+ 29. Kf1 Bh4
        30. e6 Nb6 31. Re3 Bxg5 32. Re5 Nc8 33. d5 cxd5 34. Bxd5 h6 35. Kf2 Ne7 36. Bf3 Rf4
        37. Kg3 Rf5 38. Rxf5 Nxf5+ 39. Kg4 Ne3+ 40. Kh5 b5 41. Kg6 Kc7 42. Kxg7 Kd6 43. Be2 a6
        44. a4 b4 45. Bxa6 Kxe6 46. Bc8+ Ke7 47. a5 Nd5 48. Bh3 Nc7 49. Bf1 Ke6 50. a6 Nxa6
        51. Bxa6 Kf5 52. Bc4 h5 53. Bd3+ Kg4 54. Kg6 h4 55. Be2+ Kf4 56. Kh5 h3 57. Ba6 Bf6
        58. Bb7 h2 59. Kg6 Bc3 60. Kh5 Kg3 61. Kg5 Kf2 62. Kg4 Kg1 63. Kh3 h1=Q+ 64. Bxh1 Kxh1
        65. Kg3 Kg1 66. Kf3 Kf1 67. Ke3 Ke1 68. Kd3 Kd1 69. Kc4 Kc2 70. Kb5 Kxb3 71. Ka5 Ka3
        72. Kb5 b3 73. Kc4 Ba1 74. Kd3 b2 75. Kc2 Ka2 76. Kc3 b1=Q+ 77. Kc4 Qc1+ 78. Kb5 Ka3
        79. Kb6 Bd4+ 80. Kb7 Ka4 81. Ka6 Qc6#
    ";
    assert_eq!(replay(score).to_fen(), "8/8/K1q5/8/k2b4/8/8/8 w - - 10 82".to_string());
}

/// https://lichess.org/9opx3qh7
#[test]
fn check_playing_games_pt4() {
    let score = "
        1. d4 e5 2. dxe5 d6 3. exd6 Bxd6 4. Nf3 Nf6 5. Nc3 O-O 6. a3 Nc6 7. e3 a6 8. Be2 h6
        9. O-O Ne5 10. Bd2 Nxf3+ 11. Bxf3 Be5 12. Rc1 c6 13. Qe2 Qd6 14. Rfd1 Bxh2+ 15. Kh1 Be5
        16. e4 Bxc3 17. Bxc3 Qe6 18. Rd3 Bd7 19. Rcd1 Rad8 20. Bxf6 gxf6 21. Rd6 Qe7
        22. Rd1d2 Be6 23. Rxd8 Rxd8 24. Rxd8+ Qxd8 25. c4 Qd4 26. c5 Qxc5 27. Qd2 f5
        28. exf5 Bxf5 29. Qxh6 Bg6 30. Be4 Bxe4 31. Qh4 Bg6 32. Qd8+ Kg7 33. Qc7 b5 34. b4 Qc1+
        35. Kh2 Qxa3 36. Qe5+ Kg8 37. Qe8+ Kg7 38. Qxc6 Qxb4 39. Qxa6 Qh4+ 40. Kg1 b4
        41. Qa1+ Qf6 42. Qa4 Qc3 43. f3 b3 44. Qa3 Qc2 45. Kh2 b2
    ";
    assert_eq!(replay(score).to_fen(), "8/5pk1/6b1/8/8/Q4P2/1pq3PK/8 w - - 0 46".to_string());
}

/// https://lichess.org/1hi3aveq
#[test]
fn check_playing_games_pt5() {
    let score = "
        1. e4 g6 2. d4 d6 3. Nf3 c6 4. h3 Nf6 5. Bg5 Nxe4 6. Qe2 Bf5 7. Nbd2 Qa5 8. c3 Nxd2
        9. Bxd2 Nd7 10. b4 Qa3 11. Ng5 h5 12. Qc4 d5 13. Qe2 Qb2 14. Qd1 Bc2 15. Qc1 Qxc1+
        16. Rxc1 Ba4 17. Bd3 Nb6 18. O-O Nc4 19. Bxc4 dxc4 20. Bf4 Bh6 21. Rfe1 O-O
        22. Rxe7 Rae8 23. Rxb7 f6 24. Ne6 Rxe6 25. Bxh6 Rf7 26. Rb8+ Kh7 27. Bf4 g5 28. Bd2 Re2
        29. Be1 Rfe7 30. Kf1 Bc2 31. Rc8 Bd3 32. Rxc6 Rc2+ 33. Kg1 Rxc1 34. Rxf6 h4
        35. g4 Rexe1+ 36. Kg2 Be4+ 37. f3 Rc2#
    ";
    assert_eq!(replay(score).to_fen(), "8/p6k/5R2/6p1/1PpPb1Pp/2P2P1P/P1r3K1/4r3 w - - 1 38".to_string());
}

/// https://lichess.org/qdwt3dtw
#[test]
fn check_playing_games_pt6() {
    let score = "
        1. e4 e5 2. Nf3 Nc6 3. Bc4 Nf6 4. Nc3 d5 5. exd5 Bf5 6. dxc6 Rb8 7. Ng5 Qd4 8. Bxf7+ Kd8
        9. Ne6+ Bxe6 10. Bxe6 bxc6 11. d3 Qc5 12. Bg5 Qe7 13. Bc4 Rb4 14. b3 h6 15. Bd2 Rxc4
        16. bxc4 Qe6 17. Rb1 Qc8 18. f3 Bc5 19. Na4 Bd4 20. Bb4 c5 21. Bxc5 Kd7 22. Bxd4 Ke8
        23. Bxe5 Ng4 24. Bxg7 Kf7 25. Bxh8 Qxh8 26. fxg4 Qf6 27. Qf3 Ke7 28. Qxf6+ Kxf6 29. O-O+
    ";
    assert_eq!(replay(score).to_fen(), "8/p1p5/5k1p/8/N1P3P1/3P4/P1P3PP/1R3RK1 b - - 1 29".to_string());
}

/// https://lichess.org/ktey4t74
#[test]
fn check_playing_games_pt7() {
    let score = "
        1. d4 d5 2. c4 e6 3. Nc3 Bb4 4. e3 dxc4 5. Ne2 Nf6 6. a3 Bxc3+ 7. Nxc3 O-O 8. Bxc4 a6
        9. e4 b5 10. Bb3 e5 11. Bg5 exd4 12. Nd5 Bg4 13. f3 Be6 14. Bxf6 gxf6 15. Qxd4 Bxd5
        16. Bxd5 c6 17. O-O cxd5 18. exd5 Nc6 19. Qg4+ Kh8 20. dxc6 Qd6 21. Rac1 Rac8
        22. Qb4 Qe5 23. Rfe1 Qg5 24. c7 Rg8 25. g3 f5 26. Rc6 f4 27. Qd4+ Rg7 28. Re8+ Rxe8
        29. c8=Q Rg8 30. Qxg8+ Kxg8 31. Rc8+
    ";
    assert_eq!(replay(score).to_fen(), "2R3k1/5prp/p7/1p4q1/3Q1p2/P4PP1/1P5P/6K1 b - - 1 31".to_string());
}

use std::collections::HashSet;

use lib::castling::Castling;
use lib::color::Color;
use lib::coord::Coord;
use lib::draw::Draw;
use lib::coord::get_board;
use lib::fen::{fen_to_position, parse_fen, position_to_fen};
use lib::figure::Figure;
use lib::game::Game;
use lib::moves::{coords_from_san, get_hits, get_moves};
use lib::piece::Piece;

const START: &str = "rnbqkbnr/pppppppp/8/8/8/8/PPPPPPPP/RNBQKBNR w KQkq - 0 1";

fn play(game: Game, moves: &str) -> Game {
    moves.split(' ').fold(game, |g, mv| g.play_move(mv.to_string()))
}

fn figures_on_board(game: &Game) -> HashSet<Figure> {
    game.position.iter().filter_map(|square| *square).collect()
}

fn figures_in_play(game: &Game) -> HashSet<Figure> {
    game.figures.iter().cloned().collect()
}

// ---------------------------------------------------------------- FEN

#[test]
fn fen_of_new_game_is_the_start_record() {
    assert_eq!(Game::new().to_fen(), START.to_string());
}

#[test]
fn fen_round_trip_after_moves() {
    let game = play(Game::new(), "e4 c5 Nf3 d6 Bb5+");
    let text = game.clone().to_fen();
    assert_eq!(text, "rnbqkbnr/pp2pppp/3p4/1Bp5/4P3/5N2/PPPP1PPP/RNBQK2R b KQkq - 1 3".to_string());
    let again = Game::from(text.clone());
    assert_eq!(again.clone().to_fen(), text);
    assert_eq!(again.position, game.position);
    assert_eq!(figures_in_play(&again), figures_in_play(&game));
}

#[test]
fn fen_round_trip_keeps_en_passant_square_and_clocks() {
    let text = "rnbqkbnr/ppp1pppp/8/8/3pP3/8/PPPP1PPP/RNBQKBNR b KQkq e3 0 12";
    let game = Game::from(text.to_string());
    assert_eq!(game.en_passant, Some(Coord::from("e3")));
    assert_eq!(game.full_move_clock, 12);
    assert_eq!(game.color, Color::B);
    assert_eq!(game.to_fen(), text.to_string());
}

#[test]
fn canonical_records_are_written_back_unchanged() {
    let records = [
        START,
        "r3k2r/p1ppqpb1/bn2pnp1/3PN3/1p2P3/2N2Q1p/PPPBBPPP/R3K2R w KQkq - 0 1",
        "8/2p5/3p4/KP5r/1R3p1k/8/4P1P1/8 w - - 0 1",
        "r3k2r/Pppp1ppp/1b3nbN/nP6/BBP1P3/q4N2/Pp1P2PP/R2Q1RK1 b kq - 3 17",
        "rnbq1k1r/pp1Pbppp/2p5/8/2B5/8/PPP1NnPP/RNBQK2R w KQ - 1 8",
        "4k3/8/8/3pP3/8/8/8/4K3 w Kq d6 42 1000",
        "7k/8/8/8/8/8/8/K7 b Qk - 65535 65535",
    ];
    for text in records.iter() {
        assert_eq!(Game::from(text.to_string()).to_fen(), text.to_string());
    }
}

#[test]
fn canonical_placements_are_written_back_unchanged() {
    let placements = [
        "rnbqkbnr/pppppppp/8/8/8/8/PPPPPPPP/RNBQKBNR",
        "8/8/8/8/8/8/8/8",
        "1k6/6K1/3p4/p1p1p1p1/P1P1P1P1/8/2n2N2/b6B",
        "7r/6q1/5b2/4n3/3p4/2P5/1N6/R7",
    ];
    let board = get_board();
    for text in placements.iter() {
        let chars: Vec<char> = text.chars().collect();
        let position = fen_to_position(&chars, &board).unwrap();
        assert_eq!(position_to_fen(&position), chars);
    }
}

#[test]
fn fen_clock_with_plus_sign_and_leading_zeros() {
    let game = Game::from("8/8/8/8/8/8/8/K6k w - - +7 007".to_string());
    assert_eq!(game.half_move_clock, 7);
    assert_eq!(game.full_move_clock, 7);
    assert_eq!(game.to_fen(), "8/8/8/8/8/8/8/K6k w - - 7 7".to_string());
}

#[test]
fn fen_largest_clock_values() {
    let game = Game::from("8/8/8/8/8/8/8/K6k b - - 65535 65535".to_string());
    assert_eq!(game.half_move_clock, u16::MAX);
    assert_eq!(game.to_fen(), "8/8/8/8/8/8/8/K6k b - - 65535 65535".to_string());
}

#[test]
fn fen_extra_fields_are_ignored() {
    let game = Game::from(format!("{} trailing words", START));
    assert_eq!(game, Game::new());
}

#[test]
fn fen_refused_records() {
    // Too few fields.
    assert!(parse_fen("8/8/8/8/8/8/8/8 w - -").is_none());
    // No side to move.
    assert!(parse_fen("8/8/8/8/8/8/8/8  - - 0 1").is_none());
    // An unknown side to move.
    assert!(parse_fen("8/8/8/8/8/8/8/8 x - - 0 1").is_none());
    // An unknown piece letter.
    assert!(parse_fen("8/8/8/8/8/8/8/7z w - - 0 1").is_none());
    // A figure beyond the last square.
    assert!(parse_fen("8/8/8/8/8/8/8/8K w - - 0 1").is_none());
    // An en-passant field that names no square.
    assert!(parse_fen("8/8/8/8/8/8/8/8 w - e9 0 1").is_none());
    // Clocks that are no numbers or pass the limit.
    assert!(parse_fen("8/8/8/8/8/8/8/8 w - - x 1").is_none());
    assert!(parse_fen("8/8/8/8/8/8/8/8 w - - 0 65536").is_none());
    assert!(parse_fen("8/8/8/8/8/8/8/8 w - - + 1").is_none());
    // Two spaces make an empty field.
    assert!(parse_fen("8/8/8/8/8/8/8/8 w  - - 0 1").is_none());
}

#[test]
fn fen_accepted_record_gives_the_same_game_as_from() {
    let parsed = parse_fen(START).unwrap();
    assert_eq!(parsed, Game::from(START.to_string()));
}

#[test]
fn castling_field_reading_and_writing() {
    let rights = Castling::from("Kq");
    assert!(rights.white_kingside && !rights.white_queenside);
    assert!(!rights.black_kingside && rights.black_queenside);
    assert_eq!(rights.to_string(), "Kq".to_string());
    assert_eq!(Castling::from("-").to_string(), "-".to_string());
    assert_eq!(Castling::new().to_string(), "KQkq".to_string());
}

// ---------------------------------------------------------------- squares and figures

#[test]
fn squares_by_name_and_index() {
    let e4 = Coord::from("e4");
    assert_eq!(e4.idx, 36);
    assert_eq!((e4.x, e4.y), (4, 3));
    assert_eq!(e4, Coord::from_idx(36));
    assert_eq!(e4.to_string(), "e4".to_string());
    assert_eq!(Coord::from_idx(0).to_string(), "a8".to_string());
    assert_eq!(Coord::from_idx(63).to_string(), "h1".to_string());
    assert_eq!(Coord::from_chars('i', '1'), None);
}

#[test]
fn figures_by_name() {
    let queen = Figure::from("qd8");
    assert_eq!(queen.color, Color::B);
    assert_eq!(queen.piece, Piece::Q);
    assert_eq!(queen.to_char(), 'q');
    assert_eq!(Figure::from("Nb1").to_char(), 'N');
    assert_eq!(queen.move_to(&Coord::from("a5")), Figure::from("qa5"));
}

#[test]
fn colors() {
    assert_eq!(Color::W.next(), Color::B);
    assert_eq!(Color::B.next(), Color::W);
    assert_eq!(Color::W.factor(), 1);
    assert_eq!(Color::B.factor(), -1);
    assert_eq!(Color::B.to_string(), "b".to_string());
    assert_eq!(Color::from('x'), None);
}

// ---------------------------------------------------------------- move texts

#[test]
fn move_texts_taken_apart() {
    let d = Draw::from("Q4xc4+".to_string());
    assert_eq!(d.piece, Piece::Q);
    assert!(d.is_hit && !d.is_promo);
    assert_eq!(d.target, Coord::from("c4"));
    assert_eq!((d.remainder_file, d.remainder_rank), (None, Some('4')));

    let d = Draw::from("axb8=Q+".to_string());
    assert_eq!(d.piece, Piece::P);
    assert!(d.is_hit && d.is_promo);
    assert_eq!(d.promoted_piece, Some(Piece::Q));
    assert_eq!(d.target, Coord::from("b8"));
    assert_eq!(d.remainder_file, Some('a'));

    let d = Draw::from("Rd1d2".to_string());
    assert_eq!((d.remainder_file, d.remainder_rank), (Some('d'), Some('1')));
    assert!(!d.is_hit);

    let d = Draw::from("Rh6#".to_string());
    assert_eq!(d.target, Coord::from("h6"));
    assert_eq!((d.remainder_file, d.remainder_rank), (None, None));
}

#[test]
fn move_texts_refused() {
    assert_eq!(Draw::parse("z9"), None);
    assert_eq!(Draw::parse("N"), None);
    assert_eq!(Draw::parse("Nb1c1d3"), None);
    assert_eq!(Draw::parse("e8=X"), None);
    assert_eq!(Draw::parse(""), None);
}

// ---------------------------------------------------------------- moves of figures

#[test]
fn queen_moves_are_bishop_then_rook_moves() {
    let game = Game::from("8/8/8/3q4/8/8/8/K6k b - - 0 1".to_string());
    let queen = Figure::from("qd5");
    let bishop = Figure { piece: Piece::B, ..queen };
    let rook = Figure { piece: Piece::R, ..queen };
    let mut expected = get_moves(&bishop, &game);
    expected.extend(get_moves(&rook, &game));
    assert_eq!(get_moves(&queen, &game), expected);
    assert_eq!(get_moves(&queen, &game).len(), 26);
}

#[test]
fn pieces_do_not_move_onto_their_own_side() {
    let game = Game::new();
    let knight = get_moves(&Figure::from("Ng1"), &game);
    assert_eq!(knight, coords_from_san(vec!["f3", "h3"]));
    for name in ["Ra1", "Nb1", "Bc1", "Qd1", "Ke1"] {
        for target in get_moves(&Figure::from(name), &game) {
            let held = game.position[target.idx as usize];
            assert!(held.map_or(true, |f| f.color != Color::W));
        }
    }
}

#[test]
fn pawn_double_step_ignores_what_stands_on_its_square() {
    // The square two ahead holds a white knight; the double step is
    // offered all the same, as the square in front is empty.
    let game = Game::from("4k3/8/8/8/4N3/8/4P3/4K3 w - - 0 1".to_string());
    assert_eq!(get_moves(&Figure::from("Pe2"), &game), coords_from_san(vec!["e3", "e4"]));
}

#[test]
fn pawn_hits_need_an_enemy_on_the_diagonal() {
    let game = Game::from("4k3/8/8/3p1P2/4P3/8/8/4K3 w - - 0 1".to_string());
    assert_eq!(get_hits(&Figure::from("Pe4"), &game), coords_from_san(vec!["d5"]));
    assert_eq!(get_moves(&Figure::from("Pe4"), &game), coords_from_san(vec!["e5"]));
}

#[test]
fn knight_moves_do_not_wrap_around_the_board() {
    let game = Game::from("4k3/8/8/8/8/8/8/N3K3 w - - 0 1".to_string());
    assert_eq!(get_moves(&Figure::from("Na1"), &game), coords_from_san(vec!["b3", "c2"]));
}

// ---------------------------------------------------------------- playing

#[test]
fn playing_alternates_the_side_and_counts_the_moves() {
    let g1 = Game::new().play_move("e4".to_string());
    assert_eq!(g1.color, Color::B);
    assert_eq!((g1.half_move_clock, g1.full_move_clock), (0, 1));
    let g2 = g1.play_move("Nf6".to_string());
    assert_eq!(g2.color, Color::W);
    assert_eq!((g2.half_move_clock, g2.full_move_clock), (1, 2));
    let g3 = g2.play_move("Nc3".to_string());
    assert_eq!((g3.half_move_clock, g3.full_move_clock), (2, 2));
    assert_eq!(g3.board, Game::new().board);
}

#[test]
fn moving_the_king_gives_up_both_rights() {
    let game = play(Game::new(), "e4 e5 Ke2");
    let rights = game.castling;
    assert!(!rights.white_kingside && !rights.white_queenside);
    assert!(rights.black_kingside && rights.black_queenside);
}

#[test]
fn moving_a_rook_gives_up_its_right() {
    let game = play(Game::new(), "h4 a5 Rh3 Ra6");
    assert_eq!(game.castling.to_string(), "Qk".to_string());
}

#[test]
fn double_step_beside_an_enemy_pawn_offers_en_passant() {
    let game = Game::from("4k3/8/8/8/3p4/8/4P3/4K3 w - - 0 1".to_string());
    let after = game.play_move("e4".to_string());
    assert_eq!(after.en_passant, Some(Coord::from("e3")));
    let alone = Game::from("4k3/8/8/8/8/8/4P3/4K3 w - - 0 1".to_string()).play_move("e4".to_string());
    assert_eq!(alone.en_passant, None);
}

#[test]
fn capturing_removes_the_taken_figure() {
    let game = play(Game::new(), "e4 d5 exd5");
    assert!(!game.figures.contains(&Figure::from("pd5")));
    assert!(game.figures.contains(&Figure::from("Pd5")));
    assert_eq!(game.figures.len(), 31);
    assert_eq!(figures_in_play(&game), figures_on_board(&game));
    assert_eq!(game.half_move_clock, 0);
}

#[test]
fn promotion_places_the_new_piece() {
    let game = Game::from("8/4P3/8/8/8/8/8/K6k w - - 0 1".to_string());
    let after = game.play_move("e8=Q+".to_string());
    assert_eq!(after.position[4], Some(Figure::from("Qe8")));
    assert_eq!(after.to_fen(), "4Q3/8/8/8/8/8/8/K6k b - - 0 1".to_string());
}

#[test]
fn castling_short_and_long() {
    let game = Game::from("r3k2r/8/8/8/8/8/8/R3K2R w KQkq - 3 10".to_string());
    let short = game.clone().play_move("O-O".to_string());
    assert_eq!(short.clone().to_fen(), "r3k2r/8/8/8/8/8/8/R4RK1 b kq - 4 10".to_string());
    let long = short.play_move("O-O-O+".to_string());
    assert_eq!(long.clone().to_fen(), "2kr3r/8/8/8/8/8/8/R4RK1 w - - 5 11".to_string());
    assert_eq!(figures_in_play(&long), figures_on_board(&long));
}

#[test]
fn try_play_move_refuses_what_cannot_be_played() {
    let start = Game::new();
    assert_eq!(start.clone().try_play_move("e4".to_string()), Some(play(Game::new(), "e4")));
    // No text of a move.
    assert_eq!(start.clone().try_play_move("".to_string()), None);
    assert_eq!(start.clone().try_play_move("zz".to_string()), None);
    // Neither rook reaches a3; with two rooks, the mover is chosen by reach.
    assert_eq!(start.clone().try_play_move("Ra3".to_string()), None);
    // Nothing to take on e5.
    assert_eq!(start.clone().try_play_move("Nxe5".to_string()), None);
    // A promotion that names no piece.
    let promo = Game::from("8/4P3/8/8/8/8/8/K6k w - - 0 1".to_string());
    assert_eq!(promo.clone().try_play_move("e8=".to_string()), None);
    assert_eq!(
        promo.try_play_move("e8=Q".to_string()).map(|g| g.to_fen()),
        Some("4Q3/8/8/8/8/8/8/K6k b - - 0 1".to_string())
    );
    // Castling with the rook missing, and with a full clock.
    let no_rook = Game::from("4k3/8/8/8/8/8/8/4K3 w K - 0 1".to_string());
    assert_eq!(no_rook.try_play_move("O-O".to_string()), None);
    let full_clock = Game::from("4k3/8/8/8/8/8/8/4K2R w K - 65535 1".to_string());
    assert_eq!(full_clock.clone().try_play_move("O-O".to_string()), None);
    assert_eq!(full_clock.try_play_move("Kd1".to_string()), None);
}

#[test]
fn try_find_king_of_each_side() {
    let game = Game::from("8/8/8/8/8/8/8/K6k w - - 0 1".to_string());
    assert_eq!(game.clone().try_find_king(Color::W), Some(Figure::from("Ka1")));
    assert_eq!(game.try_find_king(Color::B), Some(Figure::from("kh1")));
    let kingless = Game::from("8/8/8/8/8/8/8/K7 w - - 0 1".to_string());
    assert_eq!(kingless.try_find_king(Color::B), None);
}

#[test]
fn find_king_of_each_side() {
    let game = Game::from("8/8/8/8/8/8/8/K6k w - - 0 1".to_string());
    assert_eq!(game.clone().find_king(Color::W), Figure::from("Ka1"));
    assert_eq!(game.find_king(Color::B), Figure::from("kh1"));
}

#[test]
fn figures_stay_on_board_in_regular_play() {
    let game = play(Game::new(), "d4 d5 c4 dxc4 e3 b5 a4 c6 axb5 cxb5 Qf3");
    assert_eq!(figures_in_play(&game), figures_on_board(&game));
    assert_eq!(game.figures.len(), 29);
}

#[test]
fn en_passant_capture_takes_the_pawn_off_the_board() {
    let game = Game::from("4k3/8/8/3pP3/8/8/8/4K3 w - d6 0 1".to_string());
    let after = game.play_move("exd6".to_string());
    assert!(!after.figures.contains(&Figure::from("pd5")));
    assert_eq!(after.position[27], None);
    assert_eq!(after.position[19], Some(Figure::from("Pd6")));
    assert_eq!(figures_in_play(&after), figures_on_board(&after));
    assert_eq!(after.clone().to_fen(), "4k3/8/3P4/8/8/8/8/4K3 b - - 0 1".to_string());
    assert_eq!(Game::from(after.clone().to_fen()), after);
}

#[test]
fn black_en_passant_capture_takes_the_pawn_off_the_board() {
    let game = play(Game::from("4k3/3p4/8/4P3/8/8/8/4K3 b - - 0 1".to_string()), "d5 exd6");
    assert_eq!(game.to_fen(), "4k3/8/3P4/8/8/8/8/4K3 b - - 0 2".to_string());
    let game = play(Game::from("4k3/8/8/8/3p4/8/4P3/4K3 w - - 0 1".to_string()), "e4 dxe3");
    assert_eq!(figures_in_play(&game), figures_on_board(&game));
    assert_eq!(game.to_fen(), "4k3/8/8/8/8/4p3/8/4K3 w - - 0 2".to_string());
}

#[test]
fn figures_in_play_are_those_on_the_board_after_reading() {
    let game = Game::from("5rk1/1b2n1pp/4R3/1p3pN1/2pP4/r5PP/P4P2/2RQ2Kq w - - 1 24".to_string());
    assert_eq!(figures_in_play(&game), figures_on_board(&game));
    assert_eq!(game.figures.len(), 21);
    let start = Game::new();
    assert_eq!(figures_in_play(&start), figures_on_board(&start));
    assert_eq!(start.figures.len(), 32);
}

#[test]
fn mover_is_of_the_side_to_move_and_the_named_piece() {
    let game = play(Game::new(), "e4 e5");
    let draw = Draw::from("Nf3".to_string());
    let mover = lib::select::filter_mover(&draw, &game);
    assert_eq!(mover, Figure::from("Ng1"));
    assert_eq!(mover.color, game.color);
    assert_eq!(mover.piece, draw.piece);
}

#[test]
fn the_only_unpinned_knight_that_reaches_the_target_moves() {
    let game = Game::from("4r2k/8/8/8/8/1N6/4N3/4K3 w - - 0 1".to_string());
    let mover = lib::select::filter_mover(&Draw::from("Nd4".to_string()), &game);
    assert_eq!(mover, Figure::from("Nb3"));
    let after = game.play_move("Nd4".to_string());
    assert_eq!(after.to_fen(), "4r2k/8/8/8/3N4/8/4N3/4K3 b - - 1 1".to_string());
}

#[test]
fn game_after_moves_reads_back_equal_from_its_fen() {
    let game = play(Game::new(), "e4 c5 Nf3 d6 Bb5+ Bd7 Bxd7+ Qxd7 O-O");
    assert_eq!(Game::from(game.clone().to_fen()), game);
    let castled = Game::from("r3k2r/8/8/8/8/8/8/R3K2R b KQkq - 3 10".to_string())
        .play_move("O-O-O".to_string());
    assert_eq!(Game::from(castled.clone().to_fen()), castled);
}

#[test]
fn figures_are_listed_in_square_order_after_moves() {
    let game = play(Game::new(), "d4 Nf6 c4 e6 Nc3 Bb4");
    let indices: Vec<i8> = game.figures.iter().map(|f| f.coord.idx).collect();
    let mut sorted = indices.clone();
    sorted.sort();
    assert_eq!(indices, sorted);
}

use chess::board::{Board, Color, ColoredPiece, Move, Piece};
use chess::game::{Game, Turn};
use chess::uci::{cmd_position, parse_command, position_is_ok, Command, PositionSetup};

#[test]
fn picture_of_new_board() {
    let pic = Board::new().picture();
    let lines: Vec<&str> = pic.lines().collect();
    assert_eq!(lines.len(), 11);
    assert_eq!(lines[0], "  0 1 2 3 4 5 6 7");
    assert_eq!(lines[1], "0 ♖ ♘ ♗ ♕ ♔ ♗ ♘ ♖ 0");
    assert_eq!(lines[2], "1 ♙ ♙ ♙ ♙ ♙ ♙ ♙ ♙ 1");
    assert_eq!(lines[4], "3 . . . . . . . . 3");
    let white_pawns = vec!["\u{265F}\u{FE0E}"; 8].join(" ");
    assert_eq!(lines[7], format!("6 {} 6", white_pawns));
    assert_eq!(lines[8], "7 ♜ ♞ ♝ ♛ ♚ ♝ ♞ ♜ 7");
    assert_eq!(lines[9], "  0 1 2 3 4 5 6 7");
    assert_eq!(lines[10], "Side: w");
    assert!(pic.ends_with('\n'));
    assert_eq!(Board::print_new_game(), pic);
}

#[test]
fn picture_shows_side_to_move() {
    let b = Board::from_fen("8/8/8/8/8/8/8/8 b - - 0 1");
    let pic = b.picture();
    assert!(pic.ends_with("Side: b\n"));
    assert!(pic.contains("5 . . . . . . . . 5\n"));
}

#[test]
fn parse_single_word_commands() {
    assert!(matches!(parse_command("uci"), Command::Uci));
    assert!(matches!(parse_command("  isready \t"), Command::IsReady));
    assert!(matches!(parse_command("ucinewgame"), Command::NewGame));
    assert!(matches!(parse_command("quit"), Command::Quit));
}

#[test]
fn parse_position_command() {
    match parse_command("position startpos moves e2e4 e7e5") {
        Command::Position { setup, moves } => {
            assert_eq!(setup, "startpos");
            assert_eq!(moves, vec!["e2e4".to_string(), "e7e5".to_string()]);
        }
        other => panic!("unexpected {:?}", other),
    }
    match parse_command("position startpos moves") {
        Command::Position { setup, moves } => {
            assert_eq!(setup, "startpos");
            assert!(moves.is_empty());
        }
        other => panic!("unexpected {:?}", other),
    }
}

#[test]
fn parse_unknown_commands_keep_their_words() {
    match parse_command("uci extra") {
        Command::Unknown { words } => assert_eq!(words, vec!["uci".to_string(), "extra".to_string()]),
        other => panic!("unexpected {:?}", other),
    }
    match parse_command("position startpos") {
        Command::Unknown { words } => assert_eq!(words.len(), 2),
        other => panic!("unexpected {:?}", other),
    }
    match parse_command("") {
        Command::Unknown { words } => assert!(words.is_empty()),
        other => panic!("unexpected {:?}", other),
    }
}

#[test]
fn position_from_start_with_moves() {
    match cmd_position("startpos", &["e2e4", "g1f3"]) {
        PositionSetup::Ready(b) => {
            assert_eq!(b.get([4, 4]), Some(ColoredPiece { color: Color::White, piece: Piece::Pawn }));
            assert_eq!(b.get([5, 5]), Some(ColoredPiece { color: Color::White, piece: Piece::Knight }));
            assert_eq!(b.get([6, 4]), None);
        }
        other => panic!("unexpected {:?}", other),
    }
    match cmd_position("startpos", &[]) {
        PositionSetup::Ready(b) => assert_eq!(b.to_fen(), Board::new().to_fen()),
        other => panic!("unexpected {:?}", other),
    }
}

#[test]
fn position_stops_at_illegal_move() {
    // the side to move is not changed by playing a move, so black's reply is not legal
    match cmd_position("startpos", &["e2e4", "e7e5", "d2d4"]) {
        PositionSetup::IllegalMove(b) => {
            assert_eq!(b.get([4, 4]), Some(ColoredPiece { color: Color::White, piece: Piece::Pawn }));
            assert_eq!(b.get([1, 4]), Some(ColoredPiece { color: Color::Black, piece: Piece::Pawn }));
            assert_eq!(b.get([6, 3]), Some(ColoredPiece { color: Color::White, piece: Piece::Pawn }));
        }
        other => panic!("unexpected {:?}", other),
    }
}

#[test]
fn position_from_fen_setup() {
    let setup = "fen: 4k3/8/8/8/8/8/8/4K3 w - - 0 1;";
    assert!(position_is_ok(setup, &["e1e2"]));
    match cmd_position(setup, &["e1e2"]) {
        PositionSetup::Ready(b) => {
            assert_eq!(b.get([6, 4]), Some(ColoredPiece { color: Color::White, piece: Piece::King }));
            assert_eq!(b.count_pieces(), 2);
        }
        other => panic!("unexpected {:?}", other),
    }
}

#[test]
fn position_with_unknown_setup() {
    assert!(position_is_ok("bogus", &["zz"]));
    assert!(matches!(cmd_position("bogus", &[]), PositionSetup::InvalidSetup));
}

#[test]
fn position_checks() {
    assert!(position_is_ok("startpos", &["e2e4", "e7e5"]));
    assert!(position_is_ok("startpos", &["e2e9"]));
    assert!(!position_is_ok("startpos", &["z2e4"]));
    assert!(!position_is_ok("startpos", &["e9e8"]));
    assert!(!position_is_ok("ab", &[]));
    assert!(!position_is_ok("fen", &[]));
    assert!(!position_is_ok("fen: z7/8/8/8/8/8/8/8 w - - 0 1;", &[]));
}

#[test]
fn book_game_turns() {
    let lines: Vec<&str> = vec!["e2e4 e7e5 g1f3"];
    let mut g = Game::new(Board::new(), Color::White, true);
    let m = g.choose_move(&lines, 4).unwrap();
    assert_eq!((m.src, m.dst), ([6, 4], [4, 4]));
    match g.take_turn(Some(m)) {
        Turn::Played { m: played, contest, king_taken } => {
            assert_eq!(played.dst, [4, 4]);
            assert!(contest.is_none());
            assert!(!king_taken);
        }
        other => panic!("unexpected {:?}", other),
    }
    assert_eq!(g.move_history, "e2e4 ");
    assert_eq!(g.move_number, 1);
    assert_eq!(g.side, Color::Black);
    let m = g.choose_move(&lines, 4).unwrap();
    assert_eq!((m.src, m.dst), ([1, 4], [3, 4]));
    g.take_turn(Some(m));
    assert_eq!(g.move_history, "e2e4 e7e5 ");
    assert_eq!(g.side, Color::White);
}

#[test]
fn leaving_the_book_then_ending() {
    let lines: Vec<&str> = vec![];
    let mut g = Game::new(Board::new(), Color::White, true);
    g.move_number = 1;
    assert!(g.choose_move(&lines, 4).is_none());
    assert!(matches!(g.take_turn(None), Turn::LeftBook));
    assert!(!g.use_book);
    assert!(matches!(g.take_turn(None), Turn::NoMove));
    assert_eq!(g.move_number, 1);
}

#[test]
fn searched_turn_takes_the_king() {
    let b = Board::from_fen("4k3/8/8/8/4R3/8/8/K7 w - - 0 1");
    let mut g = Game::new(b, Color::White, false);
    let m = g.choose_move(&vec![], 1).unwrap();
    assert_eq!((m.src, m.dst), ([4, 4], [0, 4]));
    match g.take_turn(Some(m)) {
        Turn::Played { contest, king_taken, .. } => {
            assert_eq!(contest, Some((1, 0)));
            assert!(king_taken);
        }
        other => panic!("unexpected {:?}", other),
    }
    assert_eq!(g.move_history, "e4e8 ");
    assert_eq!(g.board.get([0, 4]), Some(ColoredPiece { color: Color::White, piece: Piece::Rook }));
}

#[test]
fn alpha_beta_turn_choice() {
    let b = Board::from_fen("4k3/8/8/8/4R3/8/8/K7 w - - 0 1");
    let g = Game::new(b, Color::White, false);
    let m: Move = g.choose_move_alpha_beta(1).unwrap();
    assert_eq!((m.src, m.dst), ([4, 4], [5, 4]));
}

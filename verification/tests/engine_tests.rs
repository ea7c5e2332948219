use chess::board::{Board, Color, Move, Piece};
use chess::engine::{
    alpha_beta_is_safe, book_is_ok, book_moves, get_best_move, get_best_move_alpha_beta, is_move_notation,
    search_is_safe, MoveEvaluator,
};
use chess::move_generator::{DestinationState, DstFilter, MoveGenerator, PieceFilter};

fn squares(ms: &[Move]) -> Vec<([i8; 2], [i8; 2])> {
    ms.iter().map(|m| (m.src, m.dst)).collect()
}

#[test]
fn start_position_has_twenty_moves() {
    let b = Board::new();
    let ms = MoveGenerator::get_moves(&b, Color::White);
    assert_eq!(ms.len(), 20);
    assert_eq!((ms[0].src, ms[0].dst), ([6, 0], [5, 0]));
    assert_eq!((ms[1].src, ms[1].dst), ([6, 0], [4, 0]));
    assert!(ms.iter().all(|m| m.dst_state == DestinationState::Free));
    let black = MoveGenerator::get_moves(&b, Color::Black);
    assert_eq!(black.len(), 20);
}

#[test]
fn knight_moves_include_own_squares_without_filter() {
    let b = Board::new();
    let ms = MoveGenerator::get_moves_for_piece(&b, [7, 1]);
    assert_eq!(squares(&ms), vec![([7, 1], [6, 3]), ([7, 1], [5, 2]), ([7, 1], [5, 0])]);
    assert_eq!(ms[0].dst_state, DestinationState::Occupied);
}

#[test]
fn knight_skips_its_last_jump() {
    // from d4 the jump two columns left and one row up is never generated
    let b = Board::from_fen("4k3/8/8/8/3N4/8/8/4K3 w - - 0 1");
    let ms = MoveGenerator::get_moves_for_piece(&b, [4, 3]);
    assert_eq!(ms.len(), 7);
    assert!(!ms.iter().any(|m| m.dst == [3, 1]));
    assert!(ms.iter().any(|m| m.dst == [5, 1]));
}

#[test]
fn rays_stop_after_six_steps() {
    let b = Board::from_fen("4k3/8/8/8/8/8/8/R3K3 w - - 0 1");
    let ms = MoveGenerator::get_moves_for_piece(&b, [7, 0]);
    // north: rows 6 down to 1 (six steps; row 0 is out of reach), east: b1, c1, d1, then the king
    assert!(ms.iter().any(|m| m.dst == [1, 0]));
    assert!(!ms.iter().any(|m| m.dst == [0, 0]));
    assert_eq!(ms.len(), 6 + 3);
}

#[test]
fn defense_moves_reach_own_pieces() {
    let b = Board::from_fen("4k3/8/8/8/3R3R/8/8/K2R4 w - - 0 1");
    let ms = MoveGenerator::get_defense_moves(&b, Color::White);
    assert!(ms.iter().all(|m| m.dst_state == DestinationState::Occupied));
    let onto_d4 = ms.iter().filter(|m| m.dst == [4, 3]).count();
    assert_eq!(onto_d4, 2);
}

#[test]
fn filters_select_pieces_and_destinations() {
    let b = Board::new();
    let pawns = MoveGenerator::get_moves_with_predicates(
        &b,
        Color::White,
        false,
        PieceFilter::Only(Piece::Pawn),
        DstFilter::Any,
    );
    assert_eq!(pawns.len(), 16);
    let others = MoveGenerator::get_moves_with_predicates(
        &b,
        Color::White,
        false,
        PieceFilter::AllBut(Piece::Pawn),
        DstFilter::OnlyCapturable,
    );
    assert!(others.is_empty());
}

#[test]
fn castling_moves_when_path_is_clear() {
    let b = Board::from_fen("4k3/8/8/8/8/8/8/R3K2R w KQ - 0 1");
    let ms = MoveGenerator::get_moves(&b, Color::White);
    assert!(ms.iter().any(|m| m.src == [7, 4] && m.dst == [7, 6]));
    assert!(ms.iter().any(|m| m.src == [7, 4] && m.dst == [7, 2]));
    // a black rook reaching f1 stops the kingside castling only
    let b = Board::from_fen("4k3/8/8/8/8/8/5r2/R3K2R w KQ - 0 1");
    let ms = MoveGenerator::get_moves(&b, Color::White);
    assert!(!ms.iter().any(|m| m.src == [7, 4] && m.dst == [7, 6]));
    assert!(ms.iter().any(|m| m.src == [7, 4] && m.dst == [7, 2]));
}

#[test]
fn evaluate_pawn_push_to_center() {
    let b = Board::new();
    let e = MoveEvaluator { m: Move::chess_notation_to_move("e2e4"), b: &b };
    // 50 for the smaller center, (7 - 4) * 10 for the pawn's progress
    assert_eq!(e.evaluate(), 80);
    let e = MoveEvaluator { m: Move::chess_notation_to_move("a2a3"), b: &b };
    assert_eq!(e.evaluate(), 20);
}

#[test]
fn evaluate_capture_and_threats() {
    let b = Board::from_fen("4k3/8/8/8/4R3/8/8/K7 w - - 0 1");
    let m = Move { src: [4, 4], dst: [0, 4], dst_state: DestinationState::Capturable };
    let e = MoveEvaluator { m, b: &b };
    assert_eq!(e.get_immediate_capture(), Some(Piece::King));
    assert_eq!(e.evaluate(), 9000);
    // a rook move that threatens the king: a tenth of its value
    let m = Move { src: [4, 4], dst: [4, 3], dst_state: DestinationState::Free };
    let e = MoveEvaluator { m, b: &b };
    let mut after = b.clone();
    after.play_move(m);
    assert_eq!(e.get_attacked_pieces(&after), vec![]);
    let m = Move { src: [4, 4], dst: [1, 4], dst_state: DestinationState::Free };
    let e = MoveEvaluator { m, b: &b };
    let mut after = b.clone();
    after.play_move(m);
    assert_eq!(e.get_attacked_pieces(&after), vec![Piece::King]);
    assert_eq!(e.evaluate(), 900);
}

#[test]
fn evaluate_castling_counts_rows() {
    // the castling bonus goes to a king that moves two rows, so castling itself earns none
    let b = Board::from_fen("4k3/8/8/8/8/8/8/4K2R w K - 0 1");
    let m = Move { src: [7, 4], dst: [7, 6], dst_state: DestinationState::Free };
    let e = MoveEvaluator { m, b: &b };
    assert!(!m.is_castle(&b));
    assert_eq!(e.evaluate(), 0);
}

#[test]
fn legal_moves_are_moves_of_the_side_to_move() {
    let b = Board::new();
    let legal = |s: &str| MoveEvaluator { m: Move::chess_notation_to_move(s), b: &b }.is_legal_move();
    assert!(legal("e2e4"));
    assert!(legal("g1f3"));
    assert!(!legal("e2e5"));
    assert!(!legal("e7e5"));
    assert!(!legal("e4e5"));
}

#[test]
fn best_move_takes_the_king() {
    let b = Board::from_fen("4k3/8/8/8/4R3/8/8/K7 w - - 0 1");
    assert!(search_is_safe(&b, Color::White, 1));
    let (m, score) = get_best_move(&b, Color::White, 1).unwrap();
    assert_eq!((m.src, m.dst), ([4, 4], [0, 4]));
    assert_eq!(score, 9000);
    assert!(get_best_move(&b, Color::White, 0).is_none());
}

#[test]
fn best_move_of_a_side_without_pieces() {
    let b = Board::from_fen("8/8/8/8/4R3/8/8/K7 w - - 0 1");
    assert!(get_best_move(&b, Color::Black, 2).is_none());
}

#[test]
fn alpha_beta_depth_one_keeps_first_best() {
    // a black king attacked and undefended counts for nothing, so the first rook move down
    // the e-file already scores as much as taking the king; a later equal score does not win
    let b = Board::from_fen("4k3/8/8/8/4R3/8/8/K7 w - - 0 1");
    let (score, m) = get_best_move_alpha_beta(&b, 1, -10000000, 10000000, Color::White, None);
    let m = m.unwrap();
    assert_eq!((m.src, m.dst), ([4, 4], [5, 4]));
    assert_eq!(score, 9500);
    let (score, m) = get_best_move_alpha_beta(&b, 0, -10000000, 10000000, Color::White, None);
    assert_eq!(score, b.evaluate());
    assert!(m.is_none());
}

#[test]
fn alpha_beta_keeps_window_when_nothing_beats_it() {
    let b = Board::from_fen("4k3/8/8/8/4R3/8/8/K7 w - - 0 1");
    let (score, m) = get_best_move_alpha_beta(&b, 1, 20000, 30000, Color::White, None);
    assert_eq!(score, 20000);
    assert!(m.is_none());
}

#[test]
fn search_safety_of_start_position() {
    let b = Board::new();
    assert!(search_is_safe(&b, Color::White, 2));
    assert!(search_is_safe(&b, Color::White, 0));
}

#[test]
fn book_first_move_is_e2e4() {
    let lines: Vec<&str> = vec![];
    let m = book_moves("", &lines, 0).unwrap();
    assert_eq!((m.src, m.dst), ([6, 4], [4, 4]));
}

#[test]
fn book_follows_longest_matching_line() {
    let lines: Vec<&str> = vec!["e2e4 c7c5", "e2e4 e7e5 g1f3", "d2d4 d7d5"];
    assert!(book_is_ok("e2e4 ", &lines, 1));
    let m = book_moves("e2e4 ", &lines, 1).unwrap();
    assert_eq!((m.src, m.dst), ([1, 4], [3, 4]));
    let m = book_moves("e2e4 e7e5 ", &lines, 2).unwrap();
    assert_eq!((m.src, m.dst), ([7, 6], [5, 5]));
    assert!(book_moves("e2e4 e7e5 g1f3 ", &lines, 3).is_none());
    assert!(book_moves("c2c4 ", &lines, 1).is_none());
}

#[test]
fn book_check_refuses_a_word_that_is_not_a_move() {
    let lines: Vec<&str> = vec!["e2e4 xx"];
    assert!(!book_is_ok("e2e4 ", &lines, 1));
    assert!(book_is_ok("e2e4 ", &lines, 0));
    assert!(is_move_notation("h7h8"));
    assert!(!is_move_notation("i7h8"));
    assert!(!is_move_notation("e2e"));
}

#[test]
fn alpha_beta_safety_follows_the_cutoff() {
    // a king on e4 still holding the kingside right has a two-column move that cannot be played
    let b = Board::from_fen("4k3/8/8/8/4K3/8/8/7R w K - 0 1");
    assert!(!search_is_safe(&b, Color::White, 1));
    assert!(!alpha_beta_is_safe(&b, 1, -10000000, 10000000, Color::White));
    // a window that the first move already closes stops the search before that move
    assert!(alpha_beta_is_safe(&b, 1, -10000000, -9999999, Color::White));
    let (score, m) = get_best_move_alpha_beta(&b, 1, -10000000, -9999999, Color::White, None);
    assert!(score >= -9999999);
    let m = m.unwrap();
    assert_eq!((m.src, m.dst), ([4, 4], [5, 4]));
}

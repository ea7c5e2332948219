use chess::board::{add, Board, CastlingAbility, Color, ColoredPiece, Move, Piece};
use chess::move_generator::DestinationState;

fn kings_only() -> Board {
    Board::from_fen("4k3/8/8/8/8/8/8/4K3 w - - 0 1")
}

#[test]
fn add_sums_componentwise() {
    assert_eq!(add([1, 2], [3, -4]), [4, -2]);
}

#[test]
fn new_board_is_start_position() {
    let b = Board::new();
    assert_eq!(b.count_pieces(), 32);
    assert_eq!(b.get([7, 4]), Some(ColoredPiece { color: Color::White, piece: Piece::King }));
    assert_eq!(b.get([0, 3]), Some(ColoredPiece { color: Color::Black, piece: Piece::Queen }));
    assert_eq!(b.get([6, 0]), Some(ColoredPiece { color: Color::White, piece: Piece::Pawn }));
    assert_eq!(b.get([4, 4]), None);
    assert_eq!(b.m, Color::White);
    assert!(b.last_move.is_none());
    assert!(!b.castled);
}

#[test]
fn to_fen_writes_placement_side_and_castling() {
    let b = Board::new();
    assert_eq!(b.to_fen(), "rnbqkbnr/pppppppp/8/8/8/8/PPPPPPPP/RNBQKBNR/ w KQkq");
    let k = kings_only();
    assert_eq!(k.to_fen(), "4k3/8/8/8/8/8/8/4K3/ w ");
}

#[test]
fn from_fen_reads_side_and_castling() {
    let b = Board::from_fen("8/8/8/8/8/8/8/8 b Kq - 0 1");
    assert_eq!(b.m, Color::Black);
    assert!(b.castling.white_kingside);
    assert!(!b.castling.white_queenside);
    assert!(!b.castling.black_kingside);
    assert!(b.castling.black_queenside);
    assert_eq!(b.count_pieces(), 0);
}

#[test]
fn from_fen_digit_zero_skips_no_column() {
    // a zero skips no column: the next letter lands on the next square
    let b = Board::from_fen("p0q5/8/8/8/8/8/8/8 w - - 0 1");
    assert_eq!(b.get([0, 0]), Some(ColoredPiece { color: Color::Black, piece: Piece::Pawn }));
    assert_eq!(b.get([0, 1]), Some(ColoredPiece { color: Color::Black, piece: Piece::Queen }));
    assert_eq!(b.count_pieces(), 2);
}

#[test]
fn fen_validity_check() {
    assert!(chess::fen::fen_is_valid("rnbqkbnr/pppppppp/8/8/8/8/PPPPPPPP/RNBQKBNR w KQkq - 0 1"));
    assert!(!chess::fen::fen_is_valid("rnbqkbnr/pppppppp/8/8/8/8/PPPPPPPP/RNBQKBNR w KQkq"));
    assert!(!chess::fen::fen_is_valid("8/8/8/8/8/8/8/8 x - - 0 1"));
    assert!(!chess::fen::fen_is_valid("9p/8/8/8/8/8/8/8 w - - 0 1"));
    assert!(!chess::fen::fen_is_valid("z7/8/8/8/8/8/8/8 w - - 0 1"));
    assert!(chess::fen::fen_is_valid("8/8/8/8/8/8/8/8/8 w - - 0 1"));
    assert!(!chess::fen::fen_is_valid("8/8/8/8/8/8/8/8/p w - - 0 1"));
}

#[test]
fn set_then_get() {
    let mut b = Board::new();
    let q = Some(ColoredPiece { color: Color::White, piece: Piece::Queen });
    b.set([4, 4], q);
    assert_eq!(b.get([4, 4]), q);
    assert_eq!(b.get([4, 3]), None);
    b.set([4, 4], None);
    assert_eq!(b.get([4, 4]), None);
}

#[test]
fn in_bounds_checks_both_coordinates() {
    assert!(Board::in_bounds([0, 7]));
    assert!(!Board::in_bounds([8, 0]));
    assert!(!Board::in_bounds([0, -1]));
}

#[test]
fn centers_are_listed_row_by_row() {
    let small = Board::get_smaller_center();
    assert_eq!(small, vec![[3, 3], [3, 4], [4, 3], [4, 4]]);
    let large = Board::get_larger_center();
    assert_eq!(large.len(), 16);
    assert_eq!(large[0], [2, 2]);
    assert_eq!(large[5], [3, 3]);
    assert_eq!(large[15], [5, 5]);
}

#[test]
fn piece_loc_stops_at_first_empty_square() {
    let b = Board::new();
    let black_rook = ColoredPiece { color: Color::Black, piece: Piece::Rook };
    assert_eq!(b.get_piece_loc(black_rook), Some([0, 0]));
    let black_pawn = ColoredPiece { color: Color::Black, piece: Piece::Pawn };
    assert_eq!(b.get_piece_loc(black_pawn), Some([1, 0]));
    let white_king = ColoredPiece { color: Color::White, piece: Piece::King };
    assert_eq!(b.get_piece_loc(white_king), None);
}

#[test]
fn play_move_moves_and_records() {
    let mut b = Board::new();
    let m = Move::chess_notation_to_move("e2e4");
    b.play_move(m);
    assert_eq!(b.get([6, 4]), None);
    assert_eq!(b.get([4, 4]), Some(ColoredPiece { color: Color::White, piece: Piece::Pawn }));
    assert_eq!(b.last_move.unwrap().dst, [4, 4]);
    assert_eq!(b.m, Color::White);
}

#[test]
fn play_move_castles_kingside() {
    let mut b = Board::from_fen("4k3/8/8/8/8/8/8/4K2R w K - 0 1");
    let m = Move { src: [7, 4], dst: [7, 6], dst_state: DestinationState::Free };
    assert!(b.can_play_move(m));
    b.play_move(m);
    assert_eq!(b.get([7, 6]), Some(ColoredPiece { color: Color::White, piece: Piece::King }));
    assert_eq!(b.get([7, 5]), Some(ColoredPiece { color: Color::White, piece: Piece::Rook }));
    assert_eq!(b.get([7, 7]), None);
    assert_eq!(b.get([7, 4]), None);
    assert!(b.castled);
}

#[test]
fn play_move_promotes_pawn() {
    let mut b = Board::from_fen("4k3/P7/8/8/8/8/8/4K3 w - - 0 1");
    b.play_move(Move::chess_notation_to_move("a7a8"));
    assert_eq!(b.get([0, 0]), Some(ColoredPiece { color: Color::White, piece: Piece::Queen }));
    let mut b = Board::from_fen("4k3/8/8/8/8/8/7p/4K3 b - - 0 1");
    b.play_move(Move::chess_notation_to_move("h2h1"));
    assert_eq!(b.get([7, 7]), Some(ColoredPiece { color: Color::Black, piece: Piece::Queen }));
}

#[test]
fn king_double_step_off_home_row_cannot_be_played() {
    let b = Board::from_fen("4k3/8/8/8/4K3/8/8/8 w - - 0 1");
    let m = Move { src: [4, 4], dst: [4, 6], dst_state: DestinationState::Free };
    assert!(!b.can_play_move(m));
    let m = Move { src: [4, 4], dst: [3, 4], dst_state: DestinationState::Free };
    assert!(b.can_play_move(m));
    let m = Move { src: [4, 4], dst: [8, 4], dst_state: DestinationState::Free };
    assert!(!b.can_play_move(m));
}

#[test]
fn find_castle_rook_move_for_each_castling() {
    let mut b = Board::new();
    let r = b.find_castle_rook_move(Move { src: [0, 4], dst: [0, 2], dst_state: DestinationState::Free });
    assert_eq!((r.src, r.dst), ([0, 0], [0, 3]));
    let r = b.find_castle_rook_move(Move { src: [7, 4], dst: [7, 6], dst_state: DestinationState::Free });
    assert_eq!((r.src, r.dst), ([7, 7], [7, 5]));
}

#[test]
fn from_str_reads_drawn_board() {
    let s = ". . . . . . k .\n\
             . . . . . . . .\n\
             . . . . . . . .\n\
             . . . . . . . .\n\
             . . . . . . . .\n\
             . . . . . . . .\n\
             . . . . . . . .\n\
             R . . . . . K .\n";
    let b = Board::from_str(s, Color::Black);
    assert_eq!(b.get([0, 6]), Some(ColoredPiece { color: Color::Black, piece: Piece::King }));
    assert_eq!(b.get([7, 0]), Some(ColoredPiece { color: Color::White, piece: Piece::Rook }));
    assert_eq!(b.count_pieces(), 3);
    assert_eq!(b.m, Color::Black);
    let c = CastlingAbility::default();
    assert!(b.castling.white_kingside == c.white_kingside && b.castling.black_queenside);
}

#[test]
fn from_str_piece_reads_pictured_board() {
    let s = ". . . . . . ♔ .\n\
             . . . . . . ♙ .\n\
             . . . . . . . .\n\
             . . . . . . . .\n\
             . . . . . . . .\n\
             . . . . . . . .\n\
             ♟ . . . . . . .\n\
             . ♚ . . . . . .\n";
    let b = Board::from_str_piece(s, Color::White);
    assert_eq!(b.get([0, 6]), Some(ColoredPiece { color: Color::Black, piece: Piece::King }));
    assert_eq!(b.get([1, 6]), Some(ColoredPiece { color: Color::Black, piece: Piece::Pawn }));
    assert_eq!(b.get([6, 0]), Some(ColoredPiece { color: Color::White, piece: Piece::Pawn }));
    assert_eq!(b.get([7, 1]), Some(ColoredPiece { color: Color::White, piece: Piece::King }));
}

#[test]
fn pawn_value_formula() {
    // white pawn on row 6, endgame, no black pawn in its path: (7 - 60 + 100) * 2
    let b = Board::from_fen("4k3/8/8/8/8/8/3P4/4K3 w - - 0 1");
    assert_eq!(b.get_pawn_value([6, 3], Color::White), 94);
    // black pawn on row 1, endgame, passed: (10 + 100) * 2
    let b = Board::from_fen("4k3/3p4/8/8/8/8/8/4K3 w - - 0 1");
    assert_eq!(b.get_pawn_value([1, 3], Color::Black), 220);
    // the scan moves one column left per row: a black pawn on [5, 1] blocks a white pawn on [6, 3]
    let b = Board::from_fen("4k3/8/8/8/8/1p6/3P4/4K3 w - - 0 1");
    assert_eq!(b.get_pawn_value([6, 3], Color::White), 47);
}

#[test]
fn evaluate_counts_material() {
    assert_eq!(kings_only().evaluate(), 0);
    let b = Board::from_fen("4k3/8/8/8/R7/8/8/4K3 w - - 0 1");
    assert_eq!(b.evaluate(), 500);
    let b = Board::from_fen("4k3/8/8/8/r7/8/8/4K3 w - - 0 1");
    assert_eq!(b.evaluate(), -500);
}

#[test]
fn evaluate_bishop_pair_bonus() {
    // two white bishops: 10 when the second bishop is scanned
    let b = Board::from_fen("4k3/8/8/8/8/8/8/2B1KB2 w - - 0 1");
    assert_eq!(b.evaluate(), 300 + 300 + 10);
    // and 10 again for every white piece scanned after the second bishop
    let b = Board::from_fen("4k3/8/8/8/8/8/8/2B2BK1 w - - 0 1");
    assert_eq!(b.evaluate(), 300 + 300 + 10 + 10);
}

#[test]
fn relative_value_of_hanging_piece_is_zero() {
    // black rook attacks the undefended white knight
    let b = Board::from_fen("4k3/8/8/8/r2N4/8/8/K7 w - - 0 1");
    let n = b.get([4, 3]).unwrap();
    let (attackers, count) = b.is_attacked([4, 3]);
    assert_eq!(count, 1);
    assert_eq!(attackers, vec![Piece::Rook]);
    assert_eq!(b.is_defended([4, 3]).1, 0);
    assert_eq!(b.get_relative_value(n, [4, 3]), 0);
}

#[test]
fn relative_value_of_defended_piece_worth_its_cheapest_attacker() {
    // white rook on d4 attacked by a black knight, defended by two white rooks
    let b = Board::from_fen("4k3/8/2n5/8/3R3R/8/8/K2R4 w - - 0 1");
    let r = b.get([4, 3]).unwrap();
    assert_eq!(b.is_attacked([4, 3]).1, 1);
    assert_eq!(b.is_defended([4, 3]).1, 2);
    assert_eq!(b.get_relative_value(r, [4, 3]), 300);
}

#[test]
fn attacked_pieces_of_side() {
    let b = Board::from_fen("4k3/8/8/8/r2N4/8/8/K7 b - - 0 1");
    // the rook on a4 reaches both the king on a1 and the knight on d4
    assert_eq!(b.get_attacked_pieces(Color::Black), vec![Piece::King, Piece::Knight]);
    assert_eq!(b.get_attacked_pieces(Color::White), vec![]);
}

#[test]
fn fen_round_trip_of_completed_record() {
    let b = Board::from_fen("r3k2r/pp1b1ppp/2n5/8/3P4/2N5/PP3PPP/R3K2R b Kq - 0 1");
    let text = format!("{} - 0 1", b.to_fen());
    assert!(chess::fen::fen_is_valid(&text));
    let back = Board::from_fen(&text);
    assert_eq!(back.to_fen(), b.to_fen());
    assert_eq!(back.m, Color::Black);
    assert!(back.castling.white_kingside && back.castling.black_queenside);
    assert!(!back.castling.white_queenside && !back.castling.black_kingside);
}

#[test]
fn completed_record_without_castling_is_a_field_short() {
    let text = format!("{} - 0 1", kings_only().to_fen());
    assert!(!chess::fen::fen_is_valid(&text));
}

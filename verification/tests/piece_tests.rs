use chess::board::{CastlingAbility, Color, ColoredPiece, Move, Piece};
use chess::move_generator::DestinationState;

fn all_pieces() -> Vec<ColoredPiece> {
    let mut v = Vec::new();
    for color in [Color::White, Color::Black] {
        for piece in [Piece::Pawn, Piece::Knight, Piece::Bishop, Piece::Rook, Piece::Queen, Piece::King] {
            v.push(ColoredPiece { color, piece });
        }
    }
    v
}

#[test]
fn opposite_color_is_an_involution() {
    assert_eq!(Color::White.opposite_color(), Color::Black);
    assert_eq!(Color::Black.opposite_color(), Color::White);
    assert_eq!(Color::White.opposite_color().opposite_color(), Color::White);
}

#[test]
fn color_text_round_trip() {
    assert_eq!(Color::White.to_str(), "w");
    assert_eq!(Color::from_str(Color::Black.to_str()), Color::Black);
    assert_eq!(Color::from_str(Color::White.to_str()), Color::White);
}

#[test]
fn piece_values() {
    assert_eq!(Piece::Pawn.get_value(), 100);
    assert_eq!(Piece::Knight.get_value(), 300);
    assert_eq!(Piece::Bishop.get_value(), 300);
    assert_eq!(Piece::Rook.get_value(), 500);
    assert_eq!(Piece::Queen.get_value(), 900);
    assert_eq!(Piece::King.get_value(), 9000);
    assert_eq!(ColoredPiece { color: Color::Black, piece: Piece::Rook }.get_value(), 500);
}

#[test]
fn letter_round_trip() {
    for p in all_pieces() {
        let letter = p.to_str().chars().next().unwrap();
        assert_eq!(ColoredPiece::from_char(letter), p);
    }
    assert_eq!(ColoredPiece::from_char('n'), ColoredPiece { color: Color::Black, piece: Piece::Knight });
}

#[test]
fn symbol_round_trip_except_white_pawn() {
    for p in all_pieces() {
        if p.color == Color::White && p.piece == Piece::Pawn {
            assert_eq!(p.to_piece().chars().count(), 2);
            continue;
        }
        assert_eq!(ColoredPiece::from_piece_str(p.to_piece()), p);
    }
    assert_eq!(
        ColoredPiece::from_piece_str("♟"),
        ColoredPiece { color: Color::White, piece: Piece::Pawn }
    );
}

#[test]
fn piece_names() {
    assert_eq!(Piece::Knight.to_string(), "Knight");
    assert_eq!(ColoredPiece { color: Color::White, piece: Piece::Queen }.to_string(), "White Queen");
    assert_eq!(ColoredPiece { color: Color::Black, piece: Piece::Pawn }.to_string(), "Black Pawn");
}

#[test]
fn castling_text_round_trip() {
    let all = CastlingAbility::default();
    assert_eq!(all.to_string(), "KQkq");
    let c = CastlingAbility::from("Kq");
    assert!(c.white_kingside && !c.white_queenside && !c.black_kingside && c.black_queenside);
    assert_eq!(c.to_string(), "Kq");
    assert_eq!(CastlingAbility::from(c.to_string().as_str()), c);
    let none = CastlingAbility::from("-");
    assert_eq!(none.to_string(), "");
}

#[test]
fn move_texts() {
    let m = Move { src: [6, 4], dst: [4, 4], dst_state: DestinationState::Free };
    assert_eq!(m.to_string(), "(6,4) (4,4)");
    assert_eq!(m.to_move_string(), "e2e4");
    let odd = Move { src: [-1, 10], dst: [-128, 127], dst_state: DestinationState::OutOfBounds };
    assert_eq!(odd.to_string(), "(-1,10) (-128,127)");
}

#[test]
fn notation_round_trip() {
    let m = Move::chess_notation_to_move("g1f3");
    assert_eq!(m.src, [7, 6]);
    assert_eq!(m.dst, [5, 5]);
    assert_eq!(m.dst_state, DestinationState::Free);
    assert_eq!(m.to_move_string(), "g1f3");
    assert_eq!(Move::parse_move_str("a8"), [0, 0]);
    assert_eq!(Move::parse_move_str("h1"), [7, 7]);
    assert_eq!(Move::parse_move_str("c9"), [-1, 2]);
}

#[test]
fn move_equality_compares_squares() {
    let a = Move { src: [6, 4], dst: [4, 4], dst_state: DestinationState::Free };
    let b = Move { src: [6, 4], dst: [4, 4], dst_state: DestinationState::Capturable };
    let c = Move { src: [6, 4], dst: [4, 5], dst_state: DestinationState::Free };
    assert!(Move::equal(&a, &b));
    assert!(!Move::equal(&a, &c));
}

#[test]
fn is_castle_looks_at_rows() {
    let b = chess::board::Board::from_fen("4k3/8/8/8/8/8/8/4K2R w K - 0 1");
    let sideways = Move { src: [7, 4], dst: [7, 6], dst_state: DestinationState::Free };
    assert!(!sideways.is_castle(&b));
    let upwards = Move { src: [7, 4], dst: [5, 4], dst_state: DestinationState::Free };
    assert!(upwards.is_castle(&b));
}

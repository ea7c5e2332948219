use chess::board::{Board, Color, Move, Piece};
use chess::move_generator::{DestinationState, DstFilter, MoveGenerator, PieceFilter};

fn middle_game() -> Board {
    Board::from_fen("r1bqkb1r/ppp2ppp/2np1n2/4p3/2B1P3/2N2N2/PPPP1PPP/R1BQK2R w KQkq - 0 1")
}

#[test]
fn pawn_gains_value_moving_up() {
    let b1 = Board::from_fen("4k3/8/8/8/8/8/3P4/4K3 w - - 0 1");
    let b2 = Board::from_fen("4k3/8/8/8/8/3P4/8/4K3 w - - 0 1");
    assert_eq!(b1.get_pawn_value([6, 3], Color::White), 94);
    assert_eq!(b2.get_pawn_value([5, 3], Color::White), 114);
    let b1 = Board::from_fen("4k3/3p4/8/8/8/8/8/4K3 w - - 0 1");
    let b2 = Board::from_fen("4k3/8/3p4/8/8/8/8/4K3 w - - 0 1");
    assert!(b2.get_pawn_value([2, 3], Color::Black) > b1.get_pawn_value([1, 3], Color::Black));
}

#[test]
fn evaluation_without_bishops_is_a_difference_of_sums() {
    let b = Board::from_fen("r3k2r/pp3ppp/2n5/4q3/3P4/2N2N2/PP3PPP/R2QK2R w KQkq - 0 1");
    let mut white = 0;
    let mut black = 0;
    for i in 0..8i8 {
        for j in 0..8i8 {
            if let Some(p) = b.get([i, j]) {
                let v = b.get_relative_value(p, [i, j]);
                if p.color == Color::White {
                    white += v;
                } else {
                    black += v;
                }
            }
        }
    }
    assert_eq!(b.evaluate(), white - black);
}

#[test]
fn filtered_search_is_a_filter_of_the_full_search() {
    let b = middle_game();
    for defend in [false, true] {
        let full = MoveGenerator::get_moves_with_predicates(&b, Color::White, defend, PieceFilter::Any, DstFilter::Any);
        let knights = MoveGenerator::get_moves_with_predicates(
            &b,
            Color::White,
            defend,
            PieceFilter::Only(Piece::Knight),
            DstFilter::NotOccupied,
        );
        let expected: Vec<Move> = full
            .iter()
            .copied()
            .filter(|m| b.get(m.src).unwrap().piece == Piece::Knight && m.dst_state != DestinationState::Occupied)
            .collect();
        assert_eq!(knights, expected);
        assert!(!knights.is_empty());
    }
}

#[test]
fn search_without_defended_squares() {
    let b = middle_game();
    let with = MoveGenerator::get_moves_with_predicates(&b, Color::White, true, PieceFilter::Any, DstFilter::Any);
    let without = MoveGenerator::get_moves_with_predicates(&b, Color::White, false, PieceFilter::Any, DstFilter::Any);
    let expected: Vec<Move> = with
        .iter()
        .copied()
        .filter(|m| {
            let p = b.get(m.src).unwrap().piece;
            !(m.dst_state == DestinationState::Occupied
                && matches!(p, Piece::Bishop | Piece::Rook | Piece::Queen | Piece::King))
        })
        .collect();
    assert_eq!(without, expected);
    assert!(with.len() > without.len());
}

#[test]
fn attackers_are_the_moves_onto_the_square() {
    let b = Board::from_fen("4k3/8/2n5/8/3R3R/8/8/K2R4 b - - 0 1");
    let (attackers, n) = b.is_attacked([4, 3]);
    let expected: Vec<Piece> = MoveGenerator::get_moves(&b, Color::Black)
        .iter()
        .filter(|m| m.dst == [4, 3])
        .map(|m| b.get(m.src).unwrap().piece)
        .collect();
    assert_eq!(attackers, expected);
    assert_eq!(n as usize, expected.len());
    assert_eq!(attackers, vec![Piece::Knight]);
}

#[test]
fn attacked_pieces_are_the_targets_of_captures() {
    let b = Board::from_fen("4k3/8/8/8/r2N4/8/8/K7 b - - 0 1");
    for color in [Color::White, Color::Black] {
        let expected: Vec<Piece> = MoveGenerator::get_moves(&b, color)
            .iter()
            .filter(|m| m.dst_state == DestinationState::Capturable)
            .map(|m| b.get(m.dst).unwrap().piece)
            .collect();
        assert_eq!(b.get_attacked_pieces(color), expected);
    }
}

use chess::board::{Board, Color};
use chess::engine::get_best_move;

#[test]
fn test_basic1() {
    let board2 = "r n b q k b n r\n\
        p p p p p p p p\n\
        . . . . . . . .\n\
        . . . . . . . .\n\
        . . . . . . . .\n\
        . . . . . . . .\n\
        P P P P P P P P\n\
        R N B Q K B N R\n\
        ";
    let board3 = ". . . . . . . .\n\
        . . . . . . . .\n\
        . . . . . . . .\n\
        . . . . . . . .\n\
        . . . q . b . .\n\
        . n . . P . . .\n\
        P . . . . . . .\n\
        . . . . . . . .\n\
        ";
    let b2 = Board::from_str(board2, Color::White);
    let _b3 = Board::from_str(board3, Color::White);
    let _b4 = Board::from_fen("rnbqkbnr/pppppppp/8/8/8/8/PPPPPPPP/RNBQKBNR w KQkq - 0 1");
    assert_eq!(b2.count_pieces(), 32);
}

#[test]
fn test_engine() {
    let board1 = ". . . . . . k .\n\
            . . . . . p p p\n\
            . . . . . . b .\n\
            . . . . n . . .\n\
            . . Q . . . . .\n\
            . . . . . . . .\n\
            P . . B . P . .\n\
            . . . . . . K .\n\
            ";
    let board2 = ". . . . . . k .\n\
            . . . . . Q p p\n\
            . . . . . . b .\n\
            . . . . n . . .\n\
            . . . . . . . .\n\
            . . . . . . . .\n\
            P . . . . P . .\n\
            . . . . . . K .\n\
            ";
    let b1 = Board::from_str(board1, Color::White);
    let b2 = Board::from_str(board2, Color::White);
    let m2 = get_best_move(&b2, Color::Black, 4);
    println!("{:?}", m2);
    let m1 = get_best_move(&b1, Color::White, 4);
    println!("{:?}", m1);
    let (_, n) = b1.is_defended([1, 5]);
    println!("{}", n);
}

#[test]
fn test_bad_rook_move() {
    let board = ". . . . . . ♔ .\n\
        . . . . . . ♙ .\n\
        ♙ . . ♟ . . . .\n\
        . ♙ . . . . ♙ .\n\
        . . ♟ . . ♙ . ♟\n\
        . . ♖ . . . . .\n\
        ♖ . . . . . . .\n\
        . ♚ . . . . . .\n\
        ";
    let mut b = Board::from_str_piece(board, Color::Black);
    b.castled = true;
    let (m, _) = get_best_move(&b, Color::Black, 3).unwrap();
    println!("{:?}", m);
}

//! Properties that relate several operations of the library.
use vstd::prelude::*;
use crate::board::{
    Board, CastlingAbility, Color, ColoredPiece, Move, Piece, castle_rook, castling_of_text,
    castling_text, file_letter, is_piece_letter, is_piece_symbol, move_text, on_board,
    piece_letter, piece_of_letter, piece_of_symbol, piece_symbol, rank_digit, same_square,
    spec_opposite, square_text, lemma_with_square,
};
use crate::engine::{
    alpha_beta, alpha_beta_scan, best_index, best_move, final_score, is_notation, move_score,
    notation_move, side_moves,
};
use crate::move_generator::{
    DestinationState, DstFilter, PieceFilter, all_moves, defends_by_line, lemma_all_moves,
    lemma_all_moves_filtered, lemma_filter_filter, lemma_filter_same, move_of_side, move_pred,
};
use crate::board::{
    attacked_from, eval_row, eval_rows, evaluation, is_opposing_pawn, pawn_value, pieces_onto,
    relative_value,
};
use crate::move_generator::{dst_state, pawn_dir, piece_moves};
use crate::board::piece_value;
use crate::fen::{
    completed_fen, fen_board, fen_cell, fen_castling, fen_ok, fen_side, fields, is_fen_board,
    lemma_completed_fields, lemma_fen_board, lemma_placement_rows, lemma_rank_text_reads,
    lemma_written_rows, placement_text, rows_of,
};
use crate::text::{lemma_i8_text_injective, lemma_i8_text_no_sep, spec_i8_text};

verus! {

/// The opposite of the opposite color is the color itself, and no color is its own opposite.
pub proof fn law_opposite_color(c: Color)
    ensures
        spec_opposite(spec_opposite(c)) == c,
        spec_opposite(c) != c,
{
}

/// Reading a square after `set` gives what was written there; every other square keeps its
/// content, and so do the side to move and the castling rights.
pub proof fn law_get_after_set(b: Board, pos: [i8; 2], p: Option<ColoredPiece>, q: [i8; 2])
    requires
        on_board(pos),
        on_board(q),
    ensures
        b.with_square(pos, p).square(q) == if same_square(pos, q) {
            p
        } else {
            b.square(q)
        },
        b.with_square(pos, p).m == b.m,
        b.with_square(pos, p).castling == b.castling,
{
    lemma_with_square(b, pos, p, q);
}

/// A move that is neither a castling nor a promotion carries the piece from its source to its
/// destination, empties the source, leaves every other square as it was, and is recorded as
/// the last move; the side to move does not change.
pub proof fn law_play_move_carries_piece(b: Board, m: Move, q: [i8; 2])
    requires
        b.can_play(m),
        !same_square(m.src, m.dst),
        !b.is_king_double_step(m),
        !(b.square(m.src) matches Some(p) && p.piece == Piece::Pawn && ((p.color == Color::White
            && m.dst[0] == 0) || (p.color == Color::Black && m.dst[0] == 7))),
        on_board(q),
    ensures
        b.after_move(m).square(m.dst) == b.square(m.src),
        b.after_move(m).square(m.src) is None,
        !same_square(q, m.src) && !same_square(q, m.dst) ==> b.after_move(m).square(q) == b.square(q),
        b.after_move(m).last_move == Some(m),
        b.after_move(m).m == b.m,
{
    let p = b.square(m.src);
    let b1 = b.with_square(m.dst, p);
    lemma_with_square(b, m.dst, p, m.dst);
    lemma_with_square(b1, m.src, None, m.dst);
    lemma_with_square(b, m.dst, p, m.src);
    lemma_with_square(b1, m.src, None, m.src);
    lemma_with_square(b, m.dst, p, q);
    lemma_with_square(b1, m.src, None, q);
}

/// A pawn reaching the last row becomes a queen of its color on the destination, and its
/// source is emptied.
pub proof fn law_play_move_promotes(b: Board, m: Move)
    requires
        b.can_play(m),
        !same_square(m.src, m.dst),
        b.square(m.src) matches Some(p) && p.piece == Piece::Pawn && ((p.color == Color::White
            && m.dst[0] == 0) || (p.color == Color::Black && m.dst[0] == 7)),
    ensures
        b.after_move(m).square(m.dst) == Some(
            ColoredPiece { color: b.square(m.src)->0.color, piece: Piece::Queen },
        ),
        b.after_move(m).square(m.src) is None,
{
    let q = ColoredPiece { color: b.square(m.src)->0.color, piece: Piece::Queen };
    let b1 = b.with_square(m.dst, Some(q));
    lemma_with_square(b, m.dst, Some(q), m.dst);
    lemma_with_square(b1, m.src, None, m.dst);
    lemma_with_square(b1, m.src, None, m.src);
}

/// Castling puts the king on its destination and the rook next to it on the inner side, and
/// empties both of their starting squares.
pub proof fn law_play_move_castles(b: Board, m: Move)
    requires
        b.can_play(m),
        b.is_king_double_step(m),
    ensures
        b.after_move(m).square(m.dst) == b.square(m.src),
        b.after_move(m).square(m.src) is None,
        b.after_move(m).square((castle_rook(m.src, m.dst)->0).1) == b.square((castle_rook(m.src, m.dst)->0).0),
        b.after_move(m).square((castle_rook(m.src, m.dst)->0).0) is None,
        b.after_move(m).castled,
{
    let p = b.square(m.src);
    let (rsrc, rdst) = castle_rook(m.src, m.dst)->0;
    let r = b.square(rsrc);
    let b1 = b.with_square(m.dst, p);
    let b2 = b1.with_square(m.src, None);
    let b3 = b2.with_square(rdst, r);
    lemma_with_square(b, m.dst, p, rsrc);
    lemma_with_square(b1, m.src, None, rsrc);
    lemma_with_square(b2, rdst, r, rsrc);
    lemma_with_square(b3, rsrc, None, rsrc);
    lemma_with_square(b, m.dst, p, rdst);
    lemma_with_square(b1, m.src, None, rdst);
    lemma_with_square(b2, rdst, r, rdst);
    lemma_with_square(b3, rsrc, None, rdst);
    lemma_with_square(b, m.dst, p, m.dst);
    lemma_with_square(b1, m.src, None, m.dst);
    lemma_with_square(b2, rdst, r, m.dst);
    lemma_with_square(b3, rsrc, None, m.dst);
    lemma_with_square(b, m.dst, p, m.src);
    lemma_with_square(b1, m.src, None, m.src);
    lemma_with_square(b2, rdst, r, m.src);
    lemma_with_square(b3, rsrc, None, m.src);
}

/// Writing a move in algebraic notation and reading it back gives the same two squares.
pub proof fn law_notation_round_trip(m: Move)
    requires
        on_board(m.src),
        on_board(m.dst),
    ensures
        is_notation(square_text(m.src) + square_text(m.dst)),
        notation_move(square_text(m.src) + square_text(m.dst)).src == m.src,
        notation_move(square_text(m.src) + square_text(m.dst)).dst == m.dst,
{
    let t = square_text(m.src) + square_text(m.dst);
    assert(t[0] == file_letter(m.src[1] as int));
    assert(t[1] == rank_digit(m.src[0] as int));
    assert(t[2] == file_letter(m.dst[1] as int));
    assert(t[3] == rank_digit(m.dst[0] as int));
    assert(notation_move(t).src@ =~= m.src@);
    assert(notation_move(t).dst@ =~= m.dst@);
}

/// The text of a castling ability read back gives the same rights.
pub proof fn law_castling_round_trip(c: CastlingAbility)
    ensures
        castling_of_text(castling_text(c)) == c,
{
    let t = castling_text(c);
    let k = if c.white_kingside { seq!['K'] } else { Seq::<char>::empty() };
    let q = if c.white_queenside { seq!['Q'] } else { Seq::<char>::empty() };
    let kk = if c.black_kingside { seq!['k'] } else { Seq::<char>::empty() };
    let qq = if c.black_queenside { seq!['q'] } else { Seq::<char>::empty() };
    assert(t == k + q + kk + qq);
    assert(t.contains('K') == c.white_kingside) by {
        if c.white_kingside {
            assert(t[0] == 'K');
        }
    }
    assert(t.contains('Q') == c.white_queenside) by {
        if c.white_queenside {
            assert(t[k.len() as int] == 'Q');
        }
    }
    assert(t.contains('k') == c.black_kingside) by {
        if c.black_kingside {
            assert(t[(k.len() + q.len()) as int] == 'k');
        }
    }
    assert(t.contains('q') == c.black_queenside) by {
        if c.black_queenside {
            assert(t[(k.len() + q.len() + kk.len()) as int] == 'q');
        }
    }
}

/// A piece's FEN letter names that piece.
pub proof fn law_letter_round_trip(p: ColoredPiece)
    ensures
        is_piece_letter(piece_letter(p)),
        piece_of_letter(piece_letter(p)) == p,
{
}

/// A piece's printed symbol pictures that piece, except that the white pawn's symbol carries
/// a second character and is not a one-character symbol.
pub proof fn law_symbol_round_trip(p: ColoredPiece)
    requires
        !(p.color == Color::White && p.piece == Piece::Pawn),
    ensures
        piece_symbol(p).len() == 1,
        is_piece_symbol(piece_symbol(p)[0]),
        piece_of_symbol(piece_symbol(p)[0]) == p,
{
}

/// A square found by `get_piece_loc` is on the board and holds the piece looked for.
pub proof fn law_piece_loc_sound(b: Board, piece: ColoredPiece, r: int, c: int)
    requires
        0 <= r < 8,
        0 <= c <= 8,
    ensures
        b.loc_from(piece, r, c) matches Some(pos) ==> on_board(pos) && b.square(pos) == Some(piece),
    decreases 8 - r, 8 - c,
{
    if c >= 8 {
        if r + 1 < 8 {
            law_piece_loc_sound(b, piece, r + 1, 0);
        }
    } else if b.at(r, c) matches Some(p) && p != piece {
        law_piece_loc_sound(b, piece, r, c + 1);
    }
}

proof fn lemma_best_index_range(b: Board, c: Color, depth: int, ms: Seq<Move>, n: int)
    requires
        1 <= n,
    ensures
        0 <= best_index(b, c, depth, ms, n) < n,
    decreases n,
{
    if n > 1 && depth > 0 {
        lemma_best_index_range(b, c, depth, ms, n - 1);
    }
}

/// The engine only proposes moves of the side it searches for.
pub proof fn law_best_move_is_a_move(b: Board, c: Color, depth: int)
    ensures
        best_move(b, c, depth) matches Some(r) ==> side_moves(b, c).contains(r.0),
{
    if depth > 0 && side_moves(b, c).len() > 0 {
        let ms = side_moves(b, c);
        lemma_best_index_range(b, c, depth, ms, ms.len() as int);
        let k = best_index(b, c, depth, ms, ms.len() as int);
        assert(ms[k] == (best_move(b, c, depth)->0).0);
    }
}

proof fn lemma_best_index_max(b: Board, c: Color, depth: int, ms: Seq<Move>, n: int)
    requires
        1 <= n <= ms.len(),
        depth > 0,
    ensures
        forall|k: int|
            0 <= k < n ==> {
                let i = best_index(b, c, depth, ms, n);
                &&& final_score(b, c, depth, #[trigger] ms[k]) <= final_score(b, c, depth, ms[i])
                &&& final_score(b, c, depth, ms[k]) == final_score(b, c, depth, ms[i]) ==> move_score(b, ms[k])
                    <= move_score(b, ms[i])
            },
    decreases n,
{
    if n > 1 {
        lemma_best_index_max(b, c, depth, ms, n - 1);
    }
}

/// The move the engine picks is a best one: no move of the side scores higher once the
/// opponent's best reply is taken off, and none that scores the same has a higher
/// immediate score.
pub proof fn law_best_move_is_best(b: Board, c: Color, depth: int)
    ensures
        best_move(b, c, depth) matches Some(r) ==> forall|k: int|
            0 <= k < side_moves(b, c).len() ==> {
                &&& final_score(b, c, depth, #[trigger] side_moves(b, c)[k]) <= r.1
                &&& final_score(b, c, depth, side_moves(b, c)[k]) == r.1 ==> move_score(
                    b,
                    side_moves(b, c)[k],
                ) <= move_score(b, r.0)
            },
{
    if depth > 0 && side_moves(b, c).len() > 0 {
        let ms = side_moves(b, c);
        lemma_best_index_max(b, c, depth, ms, ms.len() as int);
    }
}

proof fn lemma_scan_bounds(
    b: Board,
    depth: int,
    alpha: int,
    beta: int,
    c: Color,
    ms: Seq<Move>,
    k: int,
    best: Option<Move>,
)
    requires
        depth > 0,
        0 <= k,
    ensures
        c == Color::White ==> alpha_beta_scan(b, depth, alpha, beta, c, ms, k, best).0 >= alpha,
        c != Color::White ==> alpha_beta_scan(b, depth, alpha, beta, c, ms, k, best).0 <= beta,
    decreases ms.len() - k,
{
    if k < ms.len() {
        let m = ms[k];
        let r = alpha_beta(b.after_move(m), depth - 1, alpha, beta, spec_opposite(c), Some(m));
        if c == Color::White {
            if r.0 > alpha {
                if r.0 < beta {
                    lemma_scan_bounds(b, depth, r.0, beta, c, ms, k + 1, r.1);
                }
            } else {
                lemma_scan_bounds(b, depth, alpha, beta, c, ms, k + 1, best);
            }
        } else {
            if r.0 < beta {
                if alpha < r.0 {
                    lemma_scan_bounds(b, depth, alpha, r.0, c, ms, k + 1, r.1);
                }
            } else {
                lemma_scan_bounds(b, depth, alpha, beta, c, ms, k + 1, best);
            }
        }
    }
}

/// Searching at least one ply, white's score is never below the alpha it was given and
/// black's never above the beta it was given; a side without moves gets that bound back,
/// and no move.
pub proof fn law_alpha_beta_window(b: Board, depth: int, alpha: int, beta: int, c: Color, rm: Option<Move>)
    requires
        depth > 0,
    ensures
        c == Color::White ==> alpha_beta(b, depth, alpha, beta, c, rm).0 >= alpha,
        c == Color::Black ==> alpha_beta(b, depth, alpha, beta, c, rm).0 <= beta,
        side_moves(b, c).len() == 0 ==> alpha_beta(b, depth, alpha, beta, c, rm) == (if c
            == Color::White {
            alpha
        } else {
            beta
        }, None::<Move>),
{
    lemma_scan_bounds(b, depth, alpha, beta, c, side_moves(b, c), 0, None);
}


/// Text that starts with a separator-free part, then the separator: the part is determined.
proof fn lemma_split_unique(x1: Seq<char>, y1: Seq<char>, x2: Seq<char>, y2: Seq<char>, sep: char)
    requires
        !x1.contains(sep),
        !x2.contains(sep),
        x1 + seq![sep] + y1 == x2 + seq![sep] + y2,
    ensures
        x1 == x2,
        y1 == y2,
{
    let t = x1 + seq![sep] + y1;
    if x1.len() < x2.len() {
        assert(t[x1.len() as int] == sep);
        assert(t[x1.len() as int] == x2[x1.len() as int]);
    } else if x2.len() < x1.len() {
        assert(t[x2.len() as int] == sep);
        assert(t[x2.len() as int] == x1[x2.len() as int]);
    }
    assert(x1 =~= t.subrange(0, x1.len() as int));
    assert(x2 =~= t.subrange(0, x2.len() as int));
    assert(y1 =~= t.subrange(x1.len() as int + 1, t.len() as int));
    assert(y2 =~= t.subrange(x2.len() as int + 1, t.len() as int));
}

proof fn lemma_move_text_shape(m: Move)
    ensures
        move_text(m).drop_first() == spec_i8_text(m.src[0] as int) + seq![','] + (spec_i8_text(
            m.src[1] as int,
        ) + seq![')'] + (seq![' ', '('] + (spec_i8_text(m.dst[0] as int) + seq![','] + (
        spec_i8_text(m.dst[1] as int) + seq![')'])))),
{
    assert(move_text(m).drop_first() =~= spec_i8_text(m.src[0] as int) + seq![','] + (spec_i8_text(
        m.src[1] as int,
    ) + seq![')'] + (seq![' ', '('] + (spec_i8_text(m.dst[0] as int) + seq![','] + (spec_i8_text(
        m.dst[1] as int,
    ) + seq![')'])))));
}

proof fn lemma_two_char_prefix(x: Seq<char>, y: Seq<char>)
    requires
        seq![' ', '('] + x == seq![' ', '('] + y,
    ensures
        x == y,
{
    let sx = seq![' ', '('] + x;
    let sy = seq![' ', '('] + y;
    assert(sx.len() == sy.len());
    assert(x =~= sx.subrange(2, sx.len() as int));
    assert(y =~= sy.subrange(2, sy.len() as int));
}

proof fn lemma_last_char(x: Seq<char>, y: Seq<char>)
    requires
        x + seq![')'] == y + seq![')'],
    ensures
        x == y,
{
    assert(x =~= (x + seq![')']).drop_last());
    assert(y =~= (y + seq![')']).drop_last());
}

/// Two moves have the same text exactly when they have the same squares; so `Move::equal`
/// compares squares.
pub proof fn law_move_text_identifies_squares(m1: Move, m2: Move)
    ensures
        (move_text(m1) == move_text(m2)) == (same_square(m1.src, m2.src) && same_square(m1.dst, m2.dst)),
{
    if move_text(m1) == move_text(m2) {
        let a1 = spec_i8_text(m1.src[0] as int);
        let b1 = spec_i8_text(m1.src[1] as int);
        let c1 = spec_i8_text(m1.dst[0] as int);
        let d1 = spec_i8_text(m1.dst[1] as int);
        let a2 = spec_i8_text(m2.src[0] as int);
        let b2 = spec_i8_text(m2.src[1] as int);
        let c2 = spec_i8_text(m2.dst[0] as int);
        let d2 = spec_i8_text(m2.dst[1] as int);
        lemma_move_text_shape(m1);
        lemma_move_text_shape(m2);
        let e1 = d1 + seq![')'];
        let e2 = d2 + seq![')'];
        let s1 = seq![' ', '('] + (c1 + seq![','] + e1);
        let s2 = seq![' ', '('] + (c2 + seq![','] + e2);
        let r1 = b1 + seq![')'] + s1;
        let r2 = b2 + seq![')'] + s2;
        lemma_i8_text_no_sep(m1.src[0] as int, ',');
        lemma_i8_text_no_sep(m2.src[0] as int, ',');
        lemma_split_unique(a1, r1, a2, r2, ',');
        lemma_i8_text_no_sep(m1.src[1] as int, ')');
        lemma_i8_text_no_sep(m2.src[1] as int, ')');
        lemma_split_unique(b1, s1, b2, s2, ')');
        lemma_two_char_prefix(c1 + seq![','] + e1, c2 + seq![','] + e2);
        lemma_i8_text_no_sep(m1.dst[0] as int, ',');
        lemma_i8_text_no_sep(m2.dst[0] as int, ',');
        lemma_split_unique(c1, e1, c2, e2, ',');
        lemma_last_char(d1, d2);
        lemma_i8_text_injective(m1.src[0] as int, m2.src[0] as int);
        lemma_i8_text_injective(m1.src[1] as int, m2.src[1] as int);
        lemma_i8_text_injective(m1.dst[0] as int, m2.dst[0] as int);
        lemma_i8_text_injective(m1.dst[1] as int, m2.dst[1] as int);
    }
}

/// Writing a board in FEN and completing the record with the three fields that `to_fen`
/// leaves out reads back the same squares, side to move and castling rights, when at least
/// one castling right is held (with none, the castling field is empty and the record is a
/// field short).
pub proof fn law_fen_round_trip(b: Board)
    requires
        castling_text(b.castling).len() > 0,
    ensures
        fen_ok(completed_fen(b)),
        fen_board(completed_fen(b)) == (Board { last_move: None, castled: false, ..b }),
{
    let s = completed_fen(b);
    lemma_completed_fields(b);
    let f = fields(s);
    let rows = rows_of(f[0]);
    assert(f[0] == placement_text(b, 8));
    lemma_placement_rows(b, 0);
    assert(placement_text(b, 0).len() == 0);
    assert(rows == crate::fen::written_rows(b, 0));
    lemma_written_rows(b, 0);
    assert forall|r: int| 0 <= r < rows.len() implies crate::fen::line_ok(r, #[trigger] rows[r], 0) by {
        if r < 8 {
            lemma_rank_text_reads(r, b.arr[r]@, 0, 0);
        }
    }
    let b2 = Board { last_move: None, castled: false, ..b };
    assert forall|r: int, c: int| 0 <= r < 8 && 0 <= c < 8 implies #[trigger] b2.at(r, c) == fen_cell(s, r, c) by {
        lemma_rank_text_reads(r, b.arr[r]@, 0, 0);
        assert(rows[r] == crate::fen::rank_text(b.arr[r]@, 0));
    }
    law_castling_round_trip(b.castling);
    assert(fen_castling(s) == b.castling);
    if b.m == Color::Black {
        assert(f[1][0] == 'b');
        assert(f[1] != seq!['w']);
    }
    assert(fen_side(s) == b.m);
    assert(is_fen_board(s, b2));
    lemma_fen_board(s, b2);
}

/// A search with a piece filter and a destination filter finds, in the same order, the moves
/// of the same search without filters that come from a piece the piece filter keeps and
/// land on a square the destination filter keeps.
pub proof fn law_filtered_search(b: Board, color: Color, defend: bool, pf: PieceFilter, df: DstFilter)
    ensures
        all_moves(b, color, defend, pf, df) == all_moves(
            b,
            color,
            defend,
            PieceFilter::Any,
            DstFilter::Any,
        ).filter(
            |m: Move| b.square(m.src) matches Some(p) && pf.admits(p.piece) && df.admits(m.dst_state),
        ),
{
    let x = all_moves(b, color, true, PieceFilter::Any, DstFilter::Any);
    let sel = |m: Move| b.square(m.src) matches Some(p) && pf.admits(p.piece) && df.admits(m.dst_state);
    let any = move_pred(b, defend, PieceFilter::Any, DstFilter::Any);
    lemma_all_moves_filtered(b, color, defend, pf, df);
    lemma_all_moves_filtered(b, color, defend, PieceFilter::Any, DstFilter::Any);
    lemma_filter_filter(x, any, sel);
    let both = |m: Move| any(m) && sel(m);
    assert forall|k: int| 0 <= k < x.len() implies both(#[trigger] x[k]) == move_pred(b, defend, pf, df)(x[k]) by {
    }
    lemma_filter_same(x, both, move_pred(b, defend, pf, df));
}

/// A search without defended squares finds, in the same order, the moves of the same search
/// with them, except the moves of bishops, rooks, queens and kings onto their own pieces.
pub proof fn law_defended_squares(b: Board, color: Color, pf: PieceFilter, df: DstFilter)
    ensures
        all_moves(b, color, false, pf, df) == all_moves(b, color, true, pf, df).filter(
            |m: Move|
                !(m.dst_state == DestinationState::Occupied && (b.square(m.src) matches Some(p)
                    && defends_by_line(p.piece))),
        ),
{
    let x = all_moves(b, color, true, PieceFilter::Any, DstFilter::Any);
    let nd = |m: Move|
        !(m.dst_state == DestinationState::Occupied && (b.square(m.src) matches Some(p)
            && defends_by_line(p.piece)));
    let with = move_pred(b, true, pf, df);
    lemma_all_moves_filtered(b, color, false, pf, df);
    lemma_all_moves_filtered(b, color, true, pf, df);
    lemma_filter_filter(x, with, nd);
    let both = |m: Move| with(m) && nd(m);
    assert forall|k: int| 0 <= k < x.len() implies both(#[trigger] x[k]) == move_pred(b, false, pf, df)(x[k]) by {
    }
    lemma_filter_same(x, both, move_pred(b, false, pf, df));
}

proof fn lemma_filter_push<A>(s: Seq<A>, e: A, p: spec_fn(A) -> bool)
    ensures
        s.push(e).filter(p) == if p(e) {
            s.filter(p).push(e)
        } else {
            s.filter(p)
        },
{
    reveal(Seq::filter);
    assert(s.push(e).drop_last() =~= s);
    assert(s.push(e).last() == e);
}

/// The pieces of the moves onto `pos`, as a filter and a map.
proof fn lemma_pieces_onto(b: Board, ms: Seq<Move>, pos: [i8; 2])
    ensures
        pieces_onto(b, ms, pos) == ms.filter(|m: Move| same_square(m.dst, pos)).map_values(
            |m: Move| b.square(m.src)->0.piece,
        ),
    decreases ms.len(),
{
    let onto = |m: Move| same_square(m.dst, pos);
    let piece = |m: Move| b.square(m.src)->0.piece;
    if ms.len() == 0 {
        reveal(Seq::filter);
        assert(ms.filter(onto).map_values(piece) =~= Seq::<Piece>::empty());
    } else {
        let init = ms.drop_last();
        lemma_pieces_onto(b, init, pos);
        assert(ms == init.push(ms.last()));
        lemma_filter_push(init, ms.last(), onto);
        let f = init.filter(onto);
        if onto(ms.last()) {
            assert(f.push(ms.last()).map_values(piece) =~= f.map_values(piece).push(piece(ms.last())));
        } else {
            assert(pieces_onto(b, ms, pos) =~= pieces_onto(b, init, pos));
        }
    }
}

/// The pieces that attack the piece on `pos` are those of the opponent's moves (its moves in
/// a search, `get_moves`) that land on `pos`, one per move, in order.
pub proof fn law_attackers_are_moves_onto(b: Board, pos: [i8; 2])
    requires
        on_board(pos),
        b.square(pos) is Some,
    ensures
        b.attackers(pos) == side_moves(b, spec_opposite(b.square(pos)->0.color)).filter(
            |m: Move| same_square(m.dst, pos),
        ).map_values(|m: Move| b.square(m.src)->0.piece),
{
    let opp = spec_opposite(b.square(pos)->0.color);
    let onto = |m: Move| same_square(m.dst, pos);
    let y = all_moves(b, opp, false, PieceFilter::Any, DstFilter::Any);
    let cap = |m: Move| b.square(m.src) matches Some(p) && PieceFilter::Any.admits(p.piece)
        && DstFilter::OnlyCapturable.admits(m.dst_state);
    let noc = |m: Move| b.square(m.src) matches Some(p) && PieceFilter::Any.admits(p.piece)
        && DstFilter::NotOccupied.admits(m.dst_state);
    law_filtered_search(b, opp, false, PieceFilter::Any, DstFilter::OnlyCapturable);
    law_filtered_search(b, opp, false, PieceFilter::Any, DstFilter::NotOccupied);
    lemma_pieces_onto(b, b.attacks_on(pos), pos);
    lemma_filter_filter(y, cap, onto);
    lemma_filter_filter(y, noc, onto);
    lemma_all_moves(b, opp, false, PieceFilter::Any, DstFilter::Any);
    assert forall|k: int| 0 <= k < y.len() implies (|m: Move| cap(m) && onto(m))(#[trigger] y[k]) == (|m: Move|
        noc(m) && onto(m))(y[k]) by {
        assert(move_of_side(b, opp, PieceFilter::Any, DstFilter::Any, y[k]));
        if same_square(y[k].dst, pos) {
            assert(b.square(y[k].dst) == b.square(pos));
        }
    }
    lemma_filter_same(y, |m: Move| cap(m) && onto(m), |m: Move| noc(m) && onto(m));
}

/// The attacked pieces of a side's opponent are the pieces on the targets of that side's
/// capturing moves, one per move, in order: every capture's target is attacked.
pub proof fn law_attacked_pieces_are_captures(b: Board, color: Color)
    ensures
        attacked_from(b, side_moves(b, color)) == side_moves(b, color).filter(
            |m: Move| m.dst_state == DestinationState::Capturable,
        ).map_values(|m: Move| b.square(m.dst)->0.piece),
{
    let ms = side_moves(b, color);
    lemma_all_moves(b, color, false, PieceFilter::Any, DstFilter::NotOccupied);
    lemma_attacked_prefix(b, color, ms.len() as int);
    assert(ms.subrange(0, ms.len() as int) =~= ms);
}

proof fn lemma_attacked_prefix(b: Board, color: Color, n: int)
    requires
        0 <= n <= side_moves(b, color).len(),
    ensures
        attacked_from(b, side_moves(b, color).subrange(0, n)) == side_moves(b, color).subrange(0, n).filter(
            |m: Move| m.dst_state == DestinationState::Capturable,
        ).map_values(|m: Move| b.square(m.dst)->0.piece),
    decreases n,
{
    let ms = side_moves(b, color);
    let cap = |m: Move| m.dst_state == DestinationState::Capturable;
    let target = |m: Move| b.square(m.dst)->0.piece;
    let s = ms.subrange(0, n);
    if n == 0 {
        reveal(Seq::filter);
        assert(s.filter(cap).map_values(target) =~= Seq::<Piece>::empty());
    } else {
        lemma_attacked_prefix(b, color, n - 1);
        let init = ms.subrange(0, n - 1);
        let m = ms[n - 1];
        assert(s.drop_last() =~= init);
        assert(s =~= init.push(m));
        assert(s.last() == m);
        lemma_filter_push(init, m, cap);
        lemma_all_moves(b, color, false, PieceFilter::Any, DstFilter::NotOccupied);
        assert(move_of_side(b, color, PieceFilter::Any, DstFilter::NotOccupied, ms[n - 1]));
        let f = init.filter(cap);
        if cap(m) {
            let p = b.square(m.dst)->0;
            assert(b.square(m.dst) is Some);
            law_attackers_are_moves_onto(b, m.dst);
            assert(spec_opposite(p.color) == color);
            let onto = |x: Move| same_square(x.dst, m.dst);
            assert(onto(ms[n - 1]));
            Seq::lemma_filter_contains(ms, onto, n - 1);
            assert(ms.filter(onto).len() > 0);
            assert(b.attackers(m.dst).len() > 0);
            assert(f.push(m).map_values(target) =~= f.map_values(target).push(target(m)));
        } else {
            assert(b.square(m.dst) is None);
        }
    }
}

/// 1 for an occupied square, 0 for an empty one.
pub open spec fn occupancy(o: Option<ColoredPiece>) -> int {
    if o is Some {
        1
    } else {
        0
    }
}

proof fn lemma_count_row_update(b: Board, q: [i8; 2], x: Option<ColoredPiece>, r: int, j: int)
    requires
        on_board(q),
        0 <= r < 8,
        0 <= j <= 8,
    ensures
        b.with_square(q, x).count_in_row(r, j) == b.count_in_row(r, j) + if r == q[0] && q[1] < j {
            occupancy(x) - occupancy(b.square(q))
        } else {
            0
        },
    decreases j,
{
    if j > 0 {
        lemma_count_row_update(b, q, x, r, j - 1);
        let sq = [r as i8, (j - 1) as i8];
        lemma_with_square(b, q, x, sq);
        assert(b.with_square(q, x).at(r, j - 1) == b.with_square(q, x).square(sq));
        assert(b.at(r, j - 1) == b.square(sq));
    }
}

proof fn lemma_count_rows_update(b: Board, q: [i8; 2], x: Option<ColoredPiece>, i: int)
    requires
        on_board(q),
        0 <= i <= 8,
    ensures
        b.with_square(q, x).count_in_rows(i) == b.count_in_rows(i) + if q[0] < i {
            occupancy(x) - occupancy(b.square(q))
        } else {
            0
        },
    decreases i,
{
    if i > 0 {
        lemma_count_rows_update(b, q, x, i - 1);
        lemma_count_row_update(b, q, x, i - 1, 8);
    }
}

/// With no opposing pawn on the board, a pawn that steps forward onto an empty square is
/// worth more on its new square than it was on its old one.
pub proof fn law_pawn_value_rises(b: Board, pos: [i8; 2], next: [i8; 2], c: Color)
    requires
        on_board(pos),
        on_board(next),
        next[0] == pos[0] + pawn_dir(c),
        next[1] == pos[1],
        b.square(pos) == Some(ColoredPiece { color: c, piece: Piece::Pawn }),
        b.square(next) is None,
        forall|r: int, f: int| 0 <= r < 8 && 0 <= f < 8 ==> !is_opposing_pawn(#[trigger] b.at(r, f), c),
    ensures
        pawn_value(b.with_square(next, b.square(pos)).with_square(pos, None), next, c) > pawn_value(
            b,
            pos,
            c,
        ),
{
    let b1 = b.with_square(next, b.square(pos));
    let b2 = b1.with_square(pos, None);
    lemma_count_rows_update(b, next, b.square(pos), 8);
    lemma_with_square(b, next, b.square(pos), pos);
    lemma_count_rows_update(b1, pos, None, 8);
    assert(b2.piece_count() == b.piece_count());
    assert forall|r: int, f: int| 0 <= r < 8 && 0 <= f < 8 implies !is_opposing_pawn(#[trigger] b2.at(r, f), c) by {
        let sq = [r as i8, f as i8];
        lemma_with_square(b, next, b.square(pos), sq);
        lemma_with_square(b1, pos, None, sq);
        assert(b2.at(r, f) == b2.square(sq));
        assert(b.at(r, f) == b.square(sq));
    }
    assert(crate::board::is_passed_pawn(b, pos, c));
    assert(crate::board::is_passed_pawn(b2, next, c));
}

/// The relative value of the piece of `color` on square `(r, c)`, 0 for any other square.
pub open spec fn side_value(b: Board, color: Color, r: int, c: int) -> int {
    match b.at(r, c) {
        Some(p) => if p.color == color {
            relative_value(b, p, [r as i8, c as i8])
        } else {
            0
        },
        None => 0,
    }
}

/// The relative values of `color`'s pieces on columns `0..j` of row `r`.
pub open spec fn row_value(b: Board, color: Color, r: int, j: int) -> int
    decreases j,
{
    if j <= 0 {
        0
    } else {
        row_value(b, color, r, j - 1) + side_value(b, color, r, j - 1)
    }
}

/// The relative values of `color`'s pieces on rows `0..i`.
pub open spec fn rows_value(b: Board, color: Color, i: int) -> int
    decreases i,
{
    if i <= 0 {
        0
    } else {
        rows_value(b, color, i - 1) + row_value(b, color, i - 1, 8)
    }
}

/// No square holds a bishop.
pub open spec fn no_bishops(b: Board) -> bool {
    forall|r: int, c: int| 0 <= r < 8 && 0 <= c < 8 ==> !(#[trigger] b.at(r, c) matches Some(p) && p.piece
        == Piece::Bishop)
}

proof fn lemma_eval_row_sums(b: Board, r: int, j: int)
    requires
        no_bishops(b),
        0 <= r < 8,
        0 <= j <= 8,
    ensures
        eval_row(b, r, j) == (rows_value(b, Color::White, r) + row_value(b, Color::White, r, j), -(
        rows_value(b, Color::Black, r) + row_value(b, Color::Black, r, j)), 0int, 0int),
    decreases r, j,
{
    if j > 0 {
        lemma_eval_row_sums(b, r, j - 1);
        assert(!(b.at(r, j - 1) matches Some(p) && p.piece == Piece::Bishop));
        let prev = eval_row(b, r, j - 1);
        assert(eval_row(b, r, j) == crate::board::eval_step(prev, b, r, j - 1));
        match b.at(r, j - 1) {
            Some(p) => {
                assert(p.piece != Piece::Bishop);
                let v = relative_value(b, p, [r as i8, (j - 1) as i8]);
                if p.color == Color::White {
                    assert(side_value(b, Color::White, r, j - 1) == v);
                    assert(side_value(b, Color::Black, r, j - 1) == 0);
                } else {
                    assert(side_value(b, Color::White, r, j - 1) == 0);
                    assert(side_value(b, Color::Black, r, j - 1) == v);
                }
            },
            None => {
                assert(side_value(b, Color::White, r, j - 1) == 0);
                assert(side_value(b, Color::Black, r, j - 1) == 0);
            },
        }
    } else if r > 0 {
        lemma_eval_row_sums(b, r - 1, 8);
        assert(eval_row(b, r, 0) == eval_rows(b, r));
        assert(eval_rows(b, r) == eval_row(b, r - 1, 8));
    }
}

/// Without bishops, the evaluation is the sum of white's relative values minus the sum of
/// black's.
pub proof fn law_evaluation_without_bishops(b: Board)
    requires
        no_bishops(b),
    ensures
        evaluation(b) == rows_value(b, Color::White, 8) - rows_value(b, Color::Black, 8),
{
    lemma_eval_row_sums(b, 7, 8);
    assert(eval_rows(b, 8) == eval_row(b, 7, 8));
}

/// The score of the move the scored search picks is its immediate score minus the score of
/// the opponent's best reply found one ply shallower (0 when the opponent has none), and no
/// move of the side does better by that measure.
pub proof fn law_best_move_subtracts_reply(b: Board, c: Color, depth: int)
    requires
        depth >= 1,
    ensures
        best_move(b, c, depth) matches Some(r) ==> {
            &&& r.1 == move_score(b, r.0) - match best_move(b.after_move(r.0), spec_opposite(c), depth - 1) {
                Some(x) => x.1,
                None => 0,
            }
            &&& forall|k: int|
                0 <= k < side_moves(b, c).len() ==> move_score(b, #[trigger] side_moves(b, c)[k])
                    - match best_move(b.after_move(side_moves(b, c)[k]), spec_opposite(c), depth - 1) {
                    Some(x) => x.1,
                    None => 0,
                } <= r.1
        },
{
    law_best_move_is_best(b, c, depth);
    if best_move(b, c, depth) is Some {
        let ms = side_moves(b, c);
        lemma_best_index_range(b, c, depth, ms, ms.len() as int);
        assert forall|k: int| 0 <= k < ms.len() implies final_score(b, c, depth, #[trigger] ms[k])
            == move_score(b, ms[k]) - match best_move(b.after_move(ms[k]), spec_opposite(c), depth - 1) {
            Some(x) => x.1,
            None => 0,
        } by {}
    }
}

proof fn lemma_scan_inside(
    b: Board,
    depth: int,
    alpha: int,
    beta: int,
    c: Color,
    ms: Seq<Move>,
    k: int,
    best: Option<Move>,
)
    requires
        depth >= 1,
        0 <= k,
    ensures
        ({
            let r = alpha_beta_scan(b, depth, alpha, beta, c, ms, k, best);
            if c == Color::White {
                r.0 >= beta || r.1 is Some || (r.0 == alpha && r.1 == best)
            } else {
                r.0 <= alpha || r.1 is Some || (r.0 == beta && r.1 == best)
            }
        }),
    decreases depth, 0int, ms.len() - k,
{
    if k < ms.len() {
        let m = ms[k];
        let a = b.after_move(m);
        let r = alpha_beta(a, depth - 1, alpha, beta, spec_opposite(c), Some(m));
        if depth - 1 >= 1 {
            lemma_alpha_beta_inside(a, depth - 1, alpha, beta, spec_opposite(c), Some(m));
        }
        if c == Color::White {
            if r.0 > alpha {
                if r.0 < beta {
                    lemma_scan_inside(b, depth, r.0, beta, c, ms, k + 1, r.1);
                }
            } else {
                lemma_scan_inside(b, depth, alpha, beta, c, ms, k + 1, best);
            }
        } else {
            if r.0 < beta {
                if alpha < r.0 {
                    lemma_scan_inside(b, depth, alpha, r.0, c, ms, k + 1, r.1);
                }
            } else {
                lemma_scan_inside(b, depth, alpha, beta, c, ms, k + 1, best);
            }
        }
    }
}

/// Searching at least one ply, a score strictly inside the window comes with a move.
proof fn lemma_alpha_beta_inside(b: Board, depth: int, alpha: int, beta: int, c: Color, rm: Option<Move>)
    requires
        depth >= 1,
    ensures
        alpha < alpha_beta(b, depth, alpha, beta, c, rm).0 < beta ==> alpha_beta(
            b,
            depth,
            alpha,
            beta,
            c,
            rm,
        ).1 is Some,
    decreases depth, 1int, 0int,
{
    lemma_scan_inside(b, depth, alpha, beta, c, side_moves(b, c), 0, None);
}

/// The alpha-beta search, at least one ply deep, returns a move whenever its score lies
/// strictly inside the window it was given: the side's own score improved on its bound
/// and the move behind that score is returned.
pub proof fn law_alpha_beta_returns_move(b: Board, depth: int, alpha: int, beta: int, c: Color, rm: Option<Move>)
    requires
        depth >= 1,
    ensures
        alpha < alpha_beta(b, depth, alpha, beta, c, rm).0 < beta ==> alpha_beta(
            b,
            depth,
            alpha,
            beta,
            c,
            rm,
        ).1 is Some,
{
    lemma_alpha_beta_inside(b, depth, alpha, beta, c, rm);
}

proof fn lemma_scan_one_ply(
    b: Board,
    alpha: int,
    beta: int,
    c: Color,
    k: int,
    best: Option<Move>,
)
    requires
        0 <= k,
    ensures
        ({
            let r = alpha_beta_scan(b, 1, alpha, beta, c, side_moves(b, c), k, best);
            ||| r.1 == best && r.0 == (if c == Color::White {
                alpha
            } else {
                beta
            })
            ||| r.1 matches Some(m) && side_moves(b, c).contains(m) && r.0 == evaluation(b.after_move(m))
        }),
    decreases side_moves(b, c).len() - k,
{
    let ms = side_moves(b, c);
    if k < ms.len() {
        let m = ms[k];
        let r = alpha_beta(b.after_move(m), 0, alpha, beta, spec_opposite(c), Some(m));
        assert(ms.contains(m));
        if c == Color::White {
            if r.0 > alpha {
                if r.0 < beta {
                    lemma_scan_one_ply(b, r.0, beta, c, k + 1, r.1);
                }
            } else {
                lemma_scan_one_ply(b, alpha, beta, c, k + 1, best);
            }
        } else {
            if r.0 < beta {
                if alpha < r.0 {
                    lemma_scan_one_ply(b, alpha, r.0, c, k + 1, r.1);
                }
            } else {
                lemma_scan_one_ply(b, alpha, beta, c, k + 1, best);
            }
        }
    }
}

/// The one-ply alpha-beta search: a white score above alpha, or a black score below beta,
/// comes with a move of the side, and the score is the evaluation of the board after that
/// move; without such a score the bound comes back with no move.
pub proof fn law_alpha_beta_one_ply(b: Board, alpha: int, beta: int, c: Color, rm: Option<Move>)
    ensures
        ({
            let r = alpha_beta(b, 1, alpha, beta, c, rm);
            &&& c == Color::White && r.0 > alpha ==> r.1 is Some
            &&& c == Color::Black && r.0 < beta ==> r.1 is Some
            &&& r.1 matches Some(m) ==> side_moves(b, c).contains(m) && r.0 == evaluation(b.after_move(m))
            &&& r.1 is None ==> r.0 == (if c == Color::White {
                alpha
            } else {
                beta
            })
        }),
{
    lemma_scan_one_ply(b, alpha, beta, c, 0, None);
}

/// A pawn has, among its moves, the step to each of the two squares diagonally ahead that
/// holds a piece, of either side.
pub proof fn law_pawn_takes_both_diagonals(b: Board, src: [i8; 2], color: Color, h: int, defend: bool)
    requires
        on_board(src),
        h == -1 || h == 1,
        on_board([(src[0] + pawn_dir(color)) as i8, (src[1] + h) as i8]),
        b.square([(src[0] + pawn_dir(color)) as i8, (src[1] + h) as i8]) is Some,
    ensures
        ({
            let d = [(src[0] + pawn_dir(color)) as i8, (src[1] + h) as i8];
            piece_moves(b, src, ColoredPiece { color, piece: Piece::Pawn }, defend, DstFilter::Any).contains(
                Move { src, dst: d, dst_state: dst_state(b, d, color) },
            )
        }),
{
    let d = [(src[0] + pawn_dir(color)) as i8, (src[1] + h) as i8];
    let m = Move { src, dst: d, dst_state: dst_state(b, d, color) };
    let ms = piece_moves(b, src, ColoredPiece { color, piece: Piece::Pawn }, defend, DstFilter::Any);
    let dir = pawn_dir(color);
    let one = [(src[0] + dir) as i8, src[1]];
    let two = [(src[0] + 2 * dir) as i8, src[1]];
    let forward = if dst_state(b, one, color) == DestinationState::Free {
        crate::move_generator::emit(DstFilter::Any, src, one, DestinationState::Free) + if src[0]
            == crate::move_generator::pawn_start_row(color) && dst_state(b, two, color)
            == DestinationState::Free {
            crate::move_generator::emit(DstFilter::Any, src, two, DestinationState::Free)
        } else {
            Seq::empty()
        }
    } else {
        Seq::empty()
    };
    let g0 = crate::move_generator::pawn_diag(b, src, color, DstFilter::Any, -1);
    let g1 = crate::move_generator::pawn_diag(b, src, color, DstFilter::Any, 1);
    assert(ms == forward + g0 + g1);
    if h == -1 {
        assert(g0 == seq![m]);
        assert(ms[forward.len() as int] == m);
    } else {
        assert(g1 == seq![m]);
        assert(ms[(forward.len() + g0.len()) as int] == m);
    }
}

/// After a castling move the rook from the corner on the side the king moves towards
/// stands on the square the king passed over, and that corner is empty; the king is on its
/// destination and its square of departure is empty.
pub proof fn law_castling_places_rook(b: Board, m: Move)
    requires
        b.can_play(m),
        b.is_king_double_step(m),
    ensures
        ({
            let after = b.after_move(m);
            let corner = [m.src[0], if m.dst[1] > m.src[1] { 7i8 } else { 0i8 }];
            let passed = [m.src[0], ((m.src[1] + m.dst[1]) / 2) as i8];
            &&& after.square(passed) == b.square(corner)
            &&& after.square(corner) is None
            &&& after.square(m.dst) == b.square(m.src)
            &&& after.square(m.src) is None
        }),
{
    let (rsrc, rdst) = castle_rook(m.src, m.dst)->0;
    let p = b.square(m.src);
    let r = b.square(rsrc);
    let b1 = b.with_square(m.dst, p);
    let b2 = b1.with_square(m.src, None);
    let b3 = b2.with_square(rdst, r);
    let corner = [m.src[0], if m.dst[1] > m.src[1] { 7i8 } else { 0i8 }];
    let passed = [m.src[0], ((m.src[1] + m.dst[1]) / 2) as i8];
    assert(same_square(rsrc, corner));
    assert(same_square(rdst, passed));
    lemma_with_square(b, m.dst, p, corner);
    lemma_with_square(b1, m.src, None, corner);
    lemma_with_square(b2, rdst, r, corner);
    lemma_with_square(b3, rsrc, None, corner);
    lemma_with_square(b, m.dst, p, passed);
    lemma_with_square(b1, m.src, None, passed);
    lemma_with_square(b2, rdst, r, passed);
    lemma_with_square(b3, rsrc, None, passed);
    lemma_with_square(b, m.dst, p, m.dst);
    lemma_with_square(b1, m.src, None, m.dst);
    lemma_with_square(b2, rdst, r, m.dst);
    lemma_with_square(b3, rsrc, None, m.dst);
    lemma_with_square(b, m.dst, p, m.src);
    lemma_with_square(b1, m.src, None, m.src);
    lemma_with_square(b2, rdst, r, m.src);
    lemma_with_square(b3, rsrc, None, m.src);
    lemma_with_square(b, m.dst, p, rsrc);
    lemma_with_square(b1, m.src, None, rsrc);
    assert(b.square(corner) == b.square(rsrc));
    assert(b.after_move(m).square(passed) == b3.with_square(rsrc, None).square(passed));
}

/// A piece that no opposing piece attacks is worth its material value, plus, for a pawn,
/// its pawn value.
pub proof fn law_unattacked_relative_value(b: Board, p: ColoredPiece, pos: [i8; 2])
    requires
        b.attackers(pos).len() == 0,
    ensures
        relative_value(b, p, pos) == piece_value(p.piece) + if p.piece == Piece::Pawn {
            pawn_value(b, pos, p.color)
        } else {
            0
        },
{
    let na = b.attackers(pos).len();
    if na < b.defenders(pos).len() {
        assert(b.attackers(pos) =~= Seq::<Piece>::empty());
        assert(crate::board::first_cheaper(b.attackers(pos), piece_value(p.piece)) is None);
    }
}

/// A pawn steps one square ahead onto an empty square, and from its starting row two
/// squares ahead when both are empty.
pub proof fn law_pawn_steps_forward(b: Board, src: [i8; 2], color: Color, defend: bool)
    requires
        on_board(src),
        on_board([(src[0] + pawn_dir(color)) as i8, src[1]]),
        b.square([(src[0] + pawn_dir(color)) as i8, src[1]]) is None,
    ensures
        ({
            let ms = piece_moves(b, src, ColoredPiece { color, piece: Piece::Pawn }, defend, DstFilter::Any);
            let one = [(src[0] + pawn_dir(color)) as i8, src[1]];
            let two = [(src[0] + 2 * pawn_dir(color)) as i8, src[1]];
            &&& ms.contains(Move { src, dst: one, dst_state: DestinationState::Free })
            &&& src[0] == crate::move_generator::pawn_start_row(color) && on_board(two) && b.square(two) is None
                ==> ms.contains(Move { src, dst: two, dst_state: DestinationState::Free })
        }),
{
    let ms = piece_moves(b, src, ColoredPiece { color, piece: Piece::Pawn }, defend, DstFilter::Any);
    let dir = pawn_dir(color);
    let one = [(src[0] + dir) as i8, src[1]];
    let two = [(src[0] + 2 * dir) as i8, src[1]];
    let m1 = Move { src, dst: one, dst_state: DestinationState::Free };
    let m2 = Move { src, dst: two, dst_state: DestinationState::Free };
    let t = if src[0] == crate::move_generator::pawn_start_row(color) && dst_state(b, two, color)
        == DestinationState::Free {
        seq![m2]
    } else {
        Seq::<Move>::empty()
    };
    let forward = seq![m1] + t;
    let g0 = crate::move_generator::pawn_diag(b, src, color, DstFilter::Any, -1);
    let g1 = crate::move_generator::pawn_diag(b, src, color, DstFilter::Any, 1);
    assert(dst_state(b, one, color) == DestinationState::Free);
    assert(ms == forward + g0 + g1);
    assert(ms[0] == m1);
    if src[0] == crate::move_generator::pawn_start_row(color) && on_board(two) && b.square(two) is None {
        assert(ms[1] == m2);
    }
}

/// A piece that is attacked and not defended is worth nothing.
pub proof fn law_hanging_piece_worthless(b: Board, p: ColoredPiece, pos: [i8; 2])
    requires
        b.attackers(pos).len() > 0,
        b.defenders(pos).len() == 0,
    ensures
        relative_value(b, p, pos) == 0,
{
}

} // verus!

use vstd::prelude::*;
use vstd::string::StringSliceAdditionalSpecFns;
use crate::board::{
    Board, Color, Piece, Move, abs_int, evaluation, lemma_after_move_dst, move_text, on_board,
    piece_value, same_square, spec_opposite,
};
use crate::fen::{split_ranges, split_text, text_chars, texts_of};
use crate::board::{is_digit, is_file_letter, square_of_text};
use crate::move_generator::{
    DstFilter, MoveGenerator, PieceFilter, all_moves, lemma_all_moves, move_of_side,
};

verus! {

// ---------------------------------------------------------------------------
// Scoring a single move
// ---------------------------------------------------------------------------

/// The moves on which `MoveEvaluator` works: a piece moves to another square of the board
/// that is not held by its own side, and `play_move` can play it.
pub open spec fn scorable(b: Board, m: Move) -> bool {
    &&& on_board(m.src)
    &&& on_board(m.dst)
    &&& !same_square(m.src, m.dst)
    &&& b.square(m.src) matches Some(p)
    &&& (b.square(m.dst) matches Some(q) ==> q.color != p.color)
    &&& b.can_play(m)
}

/// The kinds of the pieces standing on the destinations of `ms`.
pub open spec fn captures_in(b: Board, ms: Seq<Move>) -> Seq<Piece>
    decreases ms.len(),
{
    if ms.len() == 0 {
        Seq::empty()
    } else {
        captures_in(b, ms.drop_last()) + match b.square(ms.last().dst) {
            Some(c) => seq![c.piece],
            None => Seq::empty(),
        }
    }
}

/// The sum of a tenth of the values of the pieces.
pub open spec fn tenths(s: Seq<Piece>) -> int
    decreases s.len(),
{
    if s.len() == 0 {
        0
    } else {
        tenths(s.drop_last()) + piece_value(s.last()) / 10
    }
}

/// The captures available to the pieces of the same kind and side as the one on `pos`.
pub open spec fn threats_from(b: Board, pos: [i8; 2]) -> Seq<Piece> {
    let mover = b.square(pos)->0;
    captures_in(
        b,
        all_moves(b, mover.color, false, PieceFilter::Only(mover.piece), DstFilter::NotOccupied),
    )
}

pub open spec fn in_smaller_center(sq: [i8; 2]) -> bool {
    3 <= sq[0] <= 4 && 3 <= sq[1] <= 4
}

pub open spec fn in_larger_center(sq: [i8; 2]) -> bool {
    2 <= sq[0] <= 5 && 2 <= sq[1] <= 5
}

/// The bonus of a pawn that stands on `dst` after the move: its advance, 900 on the last
/// row, 100 more in the endgame.
pub open spec fn pawn_bonus(after: Board, dst: [i8; 2]) -> int {
    match after.square(dst) {
        Some(q) => if q.piece == Piece::Pawn {
            (if q.color == Color::White {
                (7 - dst[0]) * 10 + if dst[0] == 0 {
                    900int
                } else {
                    0int
                }
            } else {
                dst[0] * 10 + if dst[0] == 7 {
                    900int
                } else {
                    0int
                }
            }) + if after.piece_count() < 12 {
                100int
            } else {
                0int
            }
        } else {
            0
        },
        None => 0,
    }
}

/// The immediate score of a move: the value of what it captures, a tenth of what the moved
/// kind of piece then threatens, 50 for the smaller and 25 for the larger center, 100 for a
/// king moving two rows, and the pawn bonus.
pub open spec fn move_score(b: Board, m: Move) -> int {
    let capture = match b.square(m.dst) {
        Some(c) => piece_value(c.piece),
        None => 0,
    };
    let after = b.after_move(m);
    let center = if in_smaller_center(m.dst) {
        50int
    } else if in_larger_center(m.dst) {
        25int
    } else {
        0int
    };
    let castle = if b.square(m.src)->0.piece == Piece::King && abs_int(m.src[0] - m.dst[0]) == 2 {
        100int
    } else {
        0int
    };
    capture + tenths(threats_from(after, m.dst)) + center + castle + pawn_bonus(after, m.dst)
}

/// The largest score a single move can have.
pub open spec fn score_bound() -> int {
    3_000_000
}

proof fn lemma_tenths_bounds(s: Seq<Piece>)
    ensures
        0 <= tenths(s) <= 900 * s.len(),
    decreases s.len(),
{
    if s.len() > 0 {
        lemma_tenths_bounds(s.drop_last());
    }
}

proof fn lemma_captures_len(b: Board, ms: Seq<Move>)
    ensures
        captures_in(b, ms).len() <= ms.len(),
    decreases ms.len(),
{
    if ms.len() > 0 {
        lemma_captures_len(b, ms.drop_last());
    }
}

/// A move's immediate score lies between 0 and `score_bound()`.
pub proof fn lemma_move_score_bounds(b: Board, m: Move)
    requires
        scorable(b, m),
    ensures
        0 <= move_score(b, m) <= score_bound(),
{
    let after = b.after_move(m);
    lemma_after_move_dst(b, m);
    let mover = after.square(m.dst)->0;
    let ms = all_moves(after, mover.color, false, PieceFilter::Only(mover.piece), DstFilter::NotOccupied);
    lemma_all_moves(after, mover.color, false, PieceFilter::Only(mover.piece), DstFilter::NotOccupied);
    lemma_captures_len(after, ms);
    lemma_tenths_bounds(captures_in(after, ms));
}

/// Scores a move on a board.
pub struct MoveEvaluator<'a> {
    pub m: Move,
    pub b: &'a Board,
}

/// Whether `sq` is one of the squares in `v`.
fn contains_square(v: &Vec<[i8; 2]>, sq: [i8; 2]) -> (r: bool)
    ensures
        r == exists|k: int| 0 <= k < v@.len() && same_square(#[trigger] v@[k], sq),
{
    for k in 0..v.len()
        invariant
            forall|j: int| 0 <= j < k ==> !same_square(#[trigger] v@[j], sq),
    {
        if v[k][0] == sq[0] && v[k][1] == sq[1] {
            assert(same_square(v@[k as int], sq));
            return true;
        }
    }
    false
}

impl<'a> MoveEvaluator<'a> {
    /// The immediate score of the move, see `move_score`.
    pub fn evaluate(&self) -> (score: i32)
        requires
            scorable(*self.b, self.m),
        ensures
            score == move_score(*self.b, self.m),
            0 <= score <= score_bound(),
    {
        proof {
            lemma_move_score_bounds(*self.b, self.m);
        }
        let mut real_score: i32 = 0;
        if let Some(p) = self.get_immediate_capture() {
            real_score = real_score + p.get_value();
        }
        //Pinning pieces?
        let mut b = self.b.clone();
        b.play_move(self.m);
        proof {
            lemma_after_move_dst(*self.b, self.m);
            let mover = b.square(self.m.dst)->0;
            let ms = all_moves(b, mover.color, false, PieceFilter::Only(mover.piece), DstFilter::NotOccupied);
            lemma_all_moves(b, mover.color, false, PieceFilter::Only(mover.piece), DstFilter::NotOccupied);
            lemma_captures_len(b, ms);
            lemma_tenths_bounds(captures_in(b, ms));
        }
        let attacked = self.get_attacked_pieces(&b);
        let ghost base = real_score;
        for k in 0..attacked.len()
            invariant
                real_score == base + tenths(attacked@.subrange(0, k as int)),
                0 <= base <= 9000,
                tenths(attacked@) <= 900 * 3072,
                attacked@.len() <= 3072,
        {
            proof {
                lemma_tenths_bounds(attacked@.subrange(0, k + 1));
                assert(attacked@.subrange(0, k + 1).drop_last() =~= attacked@.subrange(0, k as int));
            }
            real_score = real_score + attacked[k].get_value() / 10;
        }
        assert(attacked@.subrange(0, attacked@.len() as int) =~= attacked@);
        let smaller_center = Board::get_smaller_center();
        let larger_center = Board::get_larger_center();
        let in_smaller = contains_square(&smaller_center, self.m.dst);
        let in_larger = contains_square(&larger_center, self.m.dst);
        proof {
            if in_smaller_center(self.m.dst) {
                let r = self.m.dst[0] - 3;
                let c = self.m.dst[1] - 3;
                let k = r * 2 + c;
                assert(k / 2 == r && k % 2 == c) by (nonlinear_arith)
                    requires
                        k == r * 2 + c,
                        0 <= c < 2,
                        0 <= r < 2,
                ;
                assert(smaller_center@[k][0] == 3 + k / 2);
                assert(smaller_center@[k][1] == 3 + k % 2);
                assert(same_square(smaller_center@[k], self.m.dst));
            }
            if in_larger_center(self.m.dst) {
                let r = self.m.dst[0] - 2;
                let c = self.m.dst[1] - 2;
                let k = r * 4 + c;
                assert(k / 4 == r && k % 4 == c) by (nonlinear_arith)
                    requires
                        k == r * 4 + c,
                        0 <= c < 4,
                        0 <= r < 4,
                ;
                assert(larger_center@[k][0] == 2 + k / 4);
                assert(larger_center@[k][1] == 2 + k % 4);
                assert(same_square(larger_center@[k], self.m.dst));
            }
        }
        assert(in_smaller == in_smaller_center(self.m.dst));
        assert(in_larger == in_larger_center(self.m.dst));
        if in_smaller {
            real_score = real_score + 50;
        } else if in_larger {
            real_score = real_score + 25;
        }
        if self.m.is_castle(&self.b) {
            real_score = real_score + 100;
        }
        let pawn = b.get(self.m.dst);
        if let Some(pawn) = pawn {
            if pawn.piece == Piece::Pawn {
                let mut is_endgame = false;
                if b.count_pieces() < 12 {
                    is_endgame = true;
                }
                if pawn.color == Color::White {
                    real_score = real_score + ((7 - self.m.dst[0]) * 10) as i32;
                    if self.m.dst[0] == 0 {
                        real_score = real_score + 900;
                    }
                } else {
                    real_score = real_score + (self.m.dst[0] * 10) as i32;
                    if self.m.dst[0] == 7 {
                        real_score = real_score + 900;
                    }
                }
                if is_endgame {
                    real_score = real_score + 100;
                }
            }
        }
        //opponents move attacks something of ours
        //defending or moving or blocking gains some points
        //add to anticipated score
        real_score
    }

    /// The kind of the piece on the destination, if any.
    pub fn get_immediate_capture(&self) -> (r: Option<Piece>)
        requires
            on_board(self.m.src),
            on_board(self.m.dst),
            self.b.square(self.m.src) matches Some(p) && (self.b.square(self.m.dst) matches Some(q)
                ==> q.color != p.color),
        ensures
            r == match self.b.square(self.m.dst) {
                Some(c) => Some(c.piece),
                None => None::<Piece>,
            },
    {
        let p = self.b.get(self.m.src).unwrap();
        if let Some(capture) = self.b.get(self.m.dst) {
            return Some(capture.piece);
        }
        None
    }

    /// On the board `b` (the move played), the kinds of the pieces that the pieces of the same
    /// kind and side as the moved one can capture.
    pub fn get_attacked_pieces(&self, b: &Board) -> (r: Vec<Piece>)
        requires
            on_board(self.m.dst),
            b.square(self.m.dst) is Some,
        ensures
            r@ == threats_from(*b, self.m.dst),
    {
        //play move before we enter this func
        let mut attacked_pieces: Vec<Piece> = Vec::new();
        let piece = b.get(self.m.dst).unwrap();
        let ms = MoveGenerator::get_moves_with_predicates(
            &b,
            piece.color,
            false,
            PieceFilter::Only(piece.piece),
            DstFilter::NotOccupied,
        );
        proof {
            lemma_all_moves(*b, piece.color, false, PieceFilter::Only(piece.piece), DstFilter::NotOccupied);
        }
        for k in 0..ms.len()
            invariant
                ms@ == all_moves(*b, piece.color, false, PieceFilter::Only(piece.piece), DstFilter::NotOccupied),
                forall|kk: int|
                    0 <= kk < ms@.len() ==> move_of_side(*b, piece.color, PieceFilter::Only(piece.piece), DstFilter::NotOccupied, #[trigger] ms@[kk]),
                attacked_pieces@ == captures_in(*b, ms@.subrange(0, k as int)),
        {
            let m = ms[k];
            assert(move_of_side(*b, piece.color, PieceFilter::Only(piece.piece), DstFilter::NotOccupied, ms@[k as int]));
            let e = MoveEvaluator { m, b };
            if let Some(capture) = e.get_immediate_capture() {
                attacked_pieces.push(capture);
            }
            assert(ms@.subrange(0, k + 1).drop_last() =~= ms@.subrange(0, k as int));
            assert(attacked_pieces@ =~= captures_in(*b, ms@.subrange(0, k + 1)));
        }
        assert(ms@.subrange(0, ms@.len() as int) =~= ms@);
        attacked_pieces
    }

    /// Whether the move is one of the moves of the side to move; see `is_legal`.
    pub fn is_legal_move(&self) -> (r: bool)
        requires
            on_board(self.m.src),
        ensures
            r == is_legal(*self.b, self.m),
    {
        let piece = self.b.get(self.m.src);
        if let Some(piece) = piece {
            if piece.color == self.b.m {
                let ms = MoveGenerator::get_moves(self.b, piece.color);
                for k in 0..ms.len()
                    invariant
                        ms@ == side_moves(*self.b, piece.color),
                        self.b.square(self.m.src) == Some(piece),
                        piece.color == self.b.m,
                        forall|j: int| 0 <= j < k ==> move_text(self.m) != move_text(#[trigger] ms@[j]),
                {
                    if Move::equal(&self.m, &ms[k]) {
                        assert(move_text(self.m) == move_text(ms@[k as int]));
                        return true;
                    }
                }
            }
        }
        false
    }
}

/// Whether `m` is a move of the side to move on `b`: a piece of that side stands on the
/// source, and one of its moves has the same squares.
pub open spec fn is_legal(b: Board, m: Move) -> bool {
    b.square(m.src) matches Some(p) && p.color == b.m && exists|k: int|
        0 <= k < side_moves(b, p.color).len() && move_text(m) == move_text(
            #[trigger] side_moves(b, p.color)[k],
        )
}

// ---------------------------------------------------------------------------
// Search
// ---------------------------------------------------------------------------

/// The moves a side considers in a search: all its moves except onto its own pieces.
pub open spec fn side_moves(b: Board, c: Color) -> Seq<Move> {
    all_moves(b, c, false, PieceFilter::Any, DstFilter::NotOccupied)
}

/// Every line of play of `depth` moves from `b`, sides alternating from `c`, is made of
/// moves that `play_move` can play (a king moving two columns makes a castling move).
pub open spec fn search_safe(b: Board, c: Color, depth: int) -> bool
    decreases depth,
{
    depth <= 0 || forall|k: int|
        0 <= k < side_moves(b, c).len() ==> b.can_play(#[trigger] side_moves(b, c)[k])
            && search_safe(b.after_move(side_moves(b, c)[k]), spec_opposite(c), depth - 1)
}

/// The result of the alpha-beta search: at depth 0 the evaluation and the given move;
/// otherwise the scan of the side's moves.
pub open spec fn alpha_beta(
    b: Board,
    depth: int,
    alpha: int,
    beta: int,
    c: Color,
    rm: Option<Move>,
) -> (int, Option<Move>)
    decreases depth, 1int, 0int,
{
    if depth <= 0 {
        (evaluation(b), rm)
    } else {
        alpha_beta_scan(b, depth, alpha, beta, c, side_moves(b, c), 0, None)
    }
}

/// The scan of moves `k..` of `ms`: white raises alpha, black lowers beta; each improvement
/// records the move returned by the reply search, and the scan stops once `alpha >= beta`.
pub open spec fn alpha_beta_scan(
    b: Board,
    depth: int,
    alpha: int,
    beta: int,
    c: Color,
    ms: Seq<Move>,
    k: int,
    best: Option<Move>,
) -> (int, Option<Move>)
    decreases depth, 0int, ms.len() - k,
{
    if k >= ms.len() || k < 0 || depth <= 0 {
        if c == Color::White {
            (alpha, best)
        } else {
            (beta, best)
        }
    } else {
        let m = ms[k];
        let r = alpha_beta(b.after_move(m), depth - 1, alpha, beta, spec_opposite(c), Some(m));
        if c == Color::White {
            if r.0 > alpha {
                if r.0 >= beta {
                    (r.0, r.1)
                } else {
                    alpha_beta_scan(b, depth, r.0, beta, c, ms, k + 1, r.1)
                }
            } else {
                alpha_beta_scan(b, depth, alpha, beta, c, ms, k + 1, best)
            }
        } else {
            if r.0 < beta {
                if alpha >= r.0 {
                    (r.0, r.1)
                } else {
                    alpha_beta_scan(b, depth, alpha, r.0, c, ms, k + 1, r.1)
                }
            } else {
                alpha_beta_scan(b, depth, alpha, beta, c, ms, k + 1, best)
            }
        }
    }
}

/// The alpha-beta search from `b` plays only moves that `play_move` can play: every move
/// it visits, up to the cutoff, can be played, and so can those of the search one ply
/// further down.
pub open spec fn alpha_beta_safe(b: Board, depth: int, alpha: int, beta: int, c: Color) -> bool
    decreases depth, 1int, 0int,
{
    depth <= 0 || alpha_beta_scan_safe(b, depth, alpha, beta, c, side_moves(b, c), 0)
}

/// The scan of moves `k..` of `ms` in `alpha_beta_scan` plays only moves that can be played:
/// each move it reaches before the cutoff, and those of the search below it.
pub open spec fn alpha_beta_scan_safe(
    b: Board,
    depth: int,
    alpha: int,
    beta: int,
    c: Color,
    ms: Seq<Move>,
    k: int,
) -> bool
    decreases depth, 0int, ms.len() - k,
{
    if k >= ms.len() || k < 0 || depth <= 0 {
        true
    } else {
        let m = ms[k];
        let r = alpha_beta(b.after_move(m), depth - 1, alpha, beta, spec_opposite(c), Some(m));
        &&& b.can_play(m)
        &&& alpha_beta_safe(b.after_move(m), depth - 1, alpha, beta, spec_opposite(c))
        &&& if c == Color::White {
            if r.0 > alpha {
                r.0 >= beta || alpha_beta_scan_safe(b, depth, r.0, beta, c, ms, k + 1)
            } else {
                alpha_beta_scan_safe(b, depth, alpha, beta, c, ms, k + 1)
            }
        } else {
            if r.0 < beta {
                alpha >= r.0 || alpha_beta_scan_safe(b, depth, alpha, r.0, c, ms, k + 1)
            } else {
                alpha_beta_scan_safe(b, depth, alpha, beta, c, ms, k + 1)
            }
        }
    }
}

/// The alpha-beta search where it can be made, and `None` where it would reach a move that
/// cannot be played.
fn checked_alpha_beta(
    board: &Board,
    depth: i8,
    alpha0: i32,
    beta0: i32,
    c: Color,
    return_move: Option<Move>,
) -> (r: Option<(i32, Option<Move>)>)
    requires
        depth >= 0,
    ensures
        r is Some <==> alpha_beta_safe(*board, depth as int, alpha0 as int, beta0 as int, c),
        r matches Some(x) ==> (x.0 as int, x.1) == alpha_beta(
            *board,
            depth as int,
            alpha0 as int,
            beta0 as int,
            c,
            return_move,
        ),
    decreases depth,
{
    let mut alpha = alpha0;
    let mut beta = beta0;
    if depth == 0 {
        return Some((board.evaluate(), return_move));
    }
    let ghost a0 = alpha0 as int;
    let ghost b0 = beta0 as int;
    let ms = MoveGenerator::get_moves(board, c);
    let mut best_move: Option<Move> = None;
    let mut k: usize = 0;
    while k < ms.len()
        invariant_except_break
            0 < depth,
            a0 == alpha0 as int,
            b0 == beta0 as int,
            ms@ == side_moves(*board, c),
            k <= ms@.len(),
            alpha_beta(*board, depth as int, a0, b0, c, return_move) == alpha_beta_scan(
                *board,
                depth as int,
                alpha as int,
                beta as int,
                c,
                ms@,
                k as int,
                best_move,
            ),
            alpha_beta_safe(*board, depth as int, a0, b0, c) == alpha_beta_scan_safe(
                *board,
                depth as int,
                alpha as int,
                beta as int,
                c,
                ms@,
                k as int,
            ),
        ensures
            alpha_beta(*board, depth as int, a0, b0, c, return_move) == (if c == Color::White {
                alpha as int
            } else {
                beta as int
            }, best_move),
            alpha_beta_safe(*board, depth as int, a0, b0, c),
        decreases ms@.len() - k,
    {
        let m = ms[k];
        if !board.can_play_move(m) {
            return None;
        }
        let mut b = board.clone();
        b.play_move(m);
        let (score, m1) = match checked_alpha_beta(&b, depth - 1, alpha, beta, c.opposite_color(), Some(m)) {
            Some(x) => x,
            None => {
                return None;
            },
        };
        if c == Color::White {
            if score > alpha {
                alpha = score;
                best_move = m1;
                if alpha >= beta {
                    break ;
                }
            }
        } else {
            if score < beta {
                beta = score;
                best_move = m1;
                if alpha >= beta {
                    break ;
                }
            }
        }
        k = k + 1;
    }
    if c == Color::White {
        Some((alpha, best_move))
    } else {
        Some((beta, best_move))
    }
}

/// Whether `alpha_beta_safe` holds: the alpha-beta search plays only moves that can be played.
pub fn alpha_beta_is_safe(board: &Board, depth: i8, alpha: i32, beta: i32, c: Color) -> (r: bool)
    requires
        depth >= 0,
    ensures
        r == alpha_beta_safe(*board, depth as int, alpha as int, beta as int, c),
{
    checked_alpha_beta(board, depth, alpha, beta, c, None).is_some()
}

/// Whether `search_safe` holds: every line of play of `depth` moves can be played.
pub fn search_is_safe(board: &Board, c: Color, depth: i8) -> (r: bool)
    requires
        depth >= 0,
    ensures
        r == search_safe(*board, c, depth as int),
    decreases depth,
{
    if depth == 0 {
        return true;
    }
    let ms = MoveGenerator::get_moves(board, c);
    for k in 0..ms.len()
        invariant
            0 < depth,
            ms@ == side_moves(*board, c),
            forall|j: int|
                0 <= j < k ==> board.can_play(#[trigger] ms@[j]) && search_safe(
                    board.after_move(ms@[j]),
                    spec_opposite(c),
                    depth - 1,
                ),
    {
        let m = ms[k];
        if !board.can_play_move(m) {
            return false;
        }
        let mut b = board.clone();
        b.play_move(m);
        if !search_is_safe(&b, c.opposite_color(), depth - 1) {
            return false;
        }
    }
    true
}

/// Minimax search with alpha-beta pruning: white maximizes, black minimizes the evaluation.
pub fn get_best_move_alpha_beta(
    board: &Board,
    depth: i8,
    alpha: i32,
    beta: i32,
    c: Color,
    return_move: Option<Move>,
) -> (r: (i32, Option<Move>))
    requires
        depth >= 0,
        alpha_beta_safe(*board, depth as int, alpha as int, beta as int, c),
    ensures
        (r.0 as int, r.1) == alpha_beta(*board, depth as int, alpha as int, beta as int, c, return_move),
    decreases depth,
{
    let mut alpha = alpha;
    let mut beta = beta;
    if depth == 0 {
        return (board.evaluate(), return_move);
    }
    let ghost a0 = alpha as int;
    let ghost b0 = beta as int;
    let ms = MoveGenerator::get_moves(board, c);
    proof {
        lemma_all_moves(*board, c, false, PieceFilter::Any, DstFilter::NotOccupied);
    }
    let mut best_move: Option<Move> = None;
    let mut k: usize = 0;
    while k < ms.len()
        invariant_except_break
            0 < depth,
            alpha_beta_scan_safe(*board, depth as int, alpha as int, beta as int, c, ms@, k as int),
            ms@ == side_moves(*board, c),
            k <= ms@.len(),
            alpha_beta(*board, depth as int, a0, b0, c, return_move) == alpha_beta_scan(
                *board,
                depth as int,
                alpha as int,
                beta as int,
                c,
                ms@,
                k as int,
                best_move,
            ),
        ensures
            alpha_beta(*board, depth as int, a0, b0, c, return_move) == (if c == Color::White {
                alpha as int
            } else {
                beta as int
            }, best_move),
        decreases ms@.len() - k,
    {
        let m = ms[k];
        let mut b = board.clone();
        b.play_move(m);
        let (score, m1) = get_best_move_alpha_beta(&b, depth - 1, alpha, beta, c.opposite_color(), Some(m));
        if c == Color::White {
            if score > alpha {
                alpha = score;
                best_move = m1;
                // Alpha-Beta Pruning cutoff
                if alpha >= beta {
                    break ;
                }
            }
        } else {
            if score < beta {
                beta = score;
                best_move = m1;
                // Alpha-Beta Pruning cutoff
                if alpha >= beta {
                    break ;
                }
            }
        }
        k = k + 1;
    }
    if c == Color::White {
        (alpha, best_move)
    } else {
        (beta, best_move)
    }
}


/// The best move of side `c` searching `depth` plies: each move is scored by its immediate
/// score minus the score of the opponent's best reply one ply shallower; the best move has
/// the highest such score, ties going to the higher immediate score, then to the earlier move.
pub open spec fn best_move(b: Board, c: Color, depth: int) -> Option<(Move, int)>
    decreases depth, 3int, 0int,
{
    if depth <= 0 {
        None
    } else {
        let ms = side_moves(b, c);
        if ms.len() == 0 {
            None
        } else {
            let k = best_index(b, c, depth, ms, ms.len() as int);
            Some((ms[k], final_score(b, c, depth, ms[k])))
        }
    }
}

/// The index of the best of the first `n` moves of `ms`.
pub open spec fn best_index(b: Board, c: Color, depth: int, ms: Seq<Move>, n: int) -> int
    decreases depth, 2int, n,
{
    if n <= 1 || depth <= 0 {
        0
    } else {
        let k = best_index(b, c, depth, ms, n - 1);
        let i = n - 1;
        let fi = final_score(b, c, depth, ms[i]);
        let fk = final_score(b, c, depth, ms[k]);
        if fi > fk || (fi == fk && move_score(b, ms[i]) > move_score(b, ms[k])) {
            i
        } else {
            k
        }
    }
}

/// A move's immediate score minus the score of the opponent's best reply.
pub open spec fn final_score(b: Board, c: Color, depth: int, m: Move) -> int
    decreases depth, 1int, 0int,
{
    move_score(b, m) - reply_score(b, c, depth, m)
}

/// The score of the opponent's best reply to `m`, 0 when it has none.
pub open spec fn reply_score(b: Board, c: Color, depth: int, m: Move) -> int
    decreases depth, 0int, 0int,
{
    if depth <= 0 {
        0
    } else {
        match best_move(b.after_move(m), spec_opposite(c), depth - 1) {
            Some(r) => r.1,
            None => 0,
        }
    }
}

proof fn lemma_best_index_range(b: Board, c: Color, depth: int, ms: Seq<Move>, n: int)
    requires
        1 <= n,
    ensures
        0 <= best_index(b, c, depth, ms, n) < n,
    decreases n,
{
    if n > 1 && depth > 0 {
        lemma_best_index_range(b, c, depth, ms, n - 1);
    }
}

/// The score of a best move found searching `depth` plies is at most `depth` times the
/// bound of a single move's score, in size.
pub proof fn lemma_best_move_bounds(b: Board, c: Color, depth: int)
    requires
        search_safe(b, c, depth),
    ensures
        best_move(b, c, depth) matches Some(r) ==> -depth * score_bound() <= r.1 <= depth * score_bound(),
    decreases depth,
{
    if depth > 0 {
        let ms = side_moves(b, c);
        if ms.len() > 0 {
            lemma_best_index_range(b, c, depth, ms, ms.len() as int);
            let k = best_index(b, c, depth, ms, ms.len() as int);
            let m = ms[k];
            lemma_all_moves(b, c, false, PieceFilter::Any, DstFilter::NotOccupied);
            assert(move_of_side(b, c, PieceFilter::Any, DstFilter::NotOccupied, m));
            assert(b.can_play(m));
            lemma_move_score_bounds(b, m);
            lemma_best_move_bounds(b.after_move(m), spec_opposite(c), depth - 1);
        }
    }
}

/// The best move of side `c` and its score, searching `depth` plies; see `best_move`.
pub fn get_best_move(board: &Board, c: Color, depth: i8) -> (r: Option<(Move, i32)>)
    requires
        depth >= 0,
        search_safe(*board, c, depth as int),
    ensures
        r is None <==> best_move(*board, c, depth as int) is None,
        r matches Some(x) ==> best_move(*board, c, depth as int) == Some((x.0, x.1 as int)),
    decreases depth,
{
    if depth == 0 {
        return None;
    }
    let list = MoveGenerator::get_moves(board, c);
    proof {
        lemma_all_moves(*board, c, false, PieceFilter::Any, DstFilter::NotOccupied);
    }
    let mut moves: Vec<(Move, i32)> = Vec::new();
    for k in 0..list.len()
        invariant
            0 < depth,
            search_safe(*board, c, depth as int),
            list@ == side_moves(*board, c),
            forall|j: int| 0 <= j < list@.len() ==> move_of_side(*board, c, PieceFilter::Any, DstFilter::NotOccupied, #[trigger] list@[j]),
            moves@.len() == k,
            forall|j: int| 0 <= j < k ==> (#[trigger] moves@[j]).0 == list@[j] && moves@[j].1 == move_score(*board, list@[j]),
            forall|j: int| 0 <= j < k ==> 0 <= (#[trigger] moves@[j]).1 <= score_bound(),
    {
        let m = list[k];
        assert(move_of_side(*board, c, PieceFilter::Any, DstFilter::NotOccupied, list@[k as int]));
        assert(board.can_play(list@[k as int]));
        let e = MoveEvaluator { m, b: board };
        let real_score = e.evaluate();
        moves.push((m, real_score));
    }
    // Each move's final score: its immediate score minus the opponent's best reply. The scan
    // at the end keeps the highest final score, then the highest immediate score, then the
    // earliest move.
    let mut finals: Vec<i32> = Vec::new();
    for k in 0..moves.len()
        invariant
            0 < depth,
            search_safe(*board, c, depth as int),
            list@ == side_moves(*board, c),
            moves@.len() == list@.len(),
            forall|j: int| 0 <= j < list@.len() ==> move_of_side(*board, c, PieceFilter::Any, DstFilter::NotOccupied, #[trigger] list@[j]),
            forall|j: int| 0 <= j < moves@.len() ==> (#[trigger] moves@[j]).0 == list@[j] && moves@[j].1 == move_score(*board, list@[j]),
            forall|j: int| 0 <= j < moves@.len() ==> 0 <= (#[trigger] moves@[j]).1 <= score_bound(),
            finals@.len() == k,
            forall|j: int| 0 <= j < k ==> #[trigger] finals@[j] == final_score(*board, c, depth as int, list@[j]),
    {
        let (m, real_score) = moves[k];
        assert(move_of_side(*board, c, PieceFilter::Any, DstFilter::NotOccupied, list@[k as int]));
        assert(board.can_play(m));
        let mut b = board.clone();
        b.play_move(m);
        proof {
            lemma_best_move_bounds(b, spec_opposite(c), depth - 1);
        }
        let opponents_response = get_best_move(&b, c.opposite_color(), depth - 1);
        let mut final_score: i32 = real_score;
        if let Some((_opponents_move, opponents_score)) = opponents_response {
            final_score = final_score - opponents_score;
        }
        finals.push(final_score);
    }
    if moves.len() == 0 {
        return None;
    }
    let mut best: usize = 0;
    for k in 1..moves.len()
        invariant
            0 < depth,
            1 <= k <= moves@.len(),
            moves@.len() == list@.len(),
            finals@.len() == list@.len(),
            forall|j: int| 0 <= j < moves@.len() ==> (#[trigger] moves@[j]).0 == list@[j] && moves@[j].1 == move_score(*board, list@[j]),
            forall|j: int| 0 <= j < finals@.len() ==> #[trigger] finals@[j] == final_score(*board, c, depth as int, list@[j]),
            best as int == best_index(*board, c, depth as int, list@, k as int),
            best < k,
    {
        if finals[k] > finals[best] || (finals[k] == finals[best] && moves[k].1 > moves[best].1) {
            best = k;
        }
    }
    Some((moves[best].0, finals[best]))
}


// ---------------------------------------------------------------------------
// Opening book
// ---------------------------------------------------------------------------

pub open spec fn starts_with(line: Seq<char>, prefix: Seq<char>) -> bool {
    prefix.len() <= line.len() && line.subrange(0, prefix.len() as int) == prefix
}

/// The book line chosen among lines `0..n`: the first of the longest (in bytes) non-empty
/// lines that start with the moves played so far.
pub open spec fn book_line(lines: Seq<&str>, order: Seq<char>, n: int) -> Option<int>
    decreases n,
{
    if n <= 0 {
        None
    } else {
        let prev = book_line(lines, order, n - 1);
        let best_len: usize = match prev {
            Some(k) => lines[k].spec_bytes().len() as usize,
            None => 0,
        };
        if starts_with(lines[n - 1]@, order) && lines[n - 1].spec_bytes().len() as usize > best_len {
            Some(n - 1)
        } else {
            prev
        }
    }
}

/// A move in algebraic notation, such as `e2e4`, at the start of the text.
pub open spec fn is_notation(s: Seq<char>) -> bool {
    &&& s.len() >= 4
    &&& is_file_letter(s[0])
    &&& is_digit(s[1])
    &&& is_file_letter(s[2])
    &&& is_digit(s[3])
}

/// The move written at the start of the text.
pub open spec fn notation_move(s: Seq<char>) -> Move {
    Move {
        src: square_of_text(s[0], s[1]),
        dst: square_of_text(s[2], s[3]),
        dst_state: crate::move_generator::DestinationState::Free,
    }
}

/// The inputs on which `book_moves` reads a move: the move it reads is written in notation.
pub open spec fn book_ok(order: Seq<char>, lines: Seq<&str>, move_number: int) -> bool {
    move_number != 0 ==> (book_line(lines, order, lines.len() as int) matches Some(k) ==> {
        let words = split_text(lines[k]@, ' ');
        move_number < words.len() ==> is_notation(words[move_number])
    })
}

/// The book's move: `e2e4` as the first move; later, word `move_number` of the chosen line.
pub open spec fn book_move(order: Seq<char>, lines: Seq<&str>, move_number: int) -> Option<Move> {
    if move_number == 0 {
        Some(notation_move(seq!['e', '2', 'e', '4']))
    } else {
        match book_line(lines, order, lines.len() as int) {
            Some(k) => {
                let words = split_text(lines[k]@, ' ');
                if move_number < words.len() {
                    Some(notation_move(words[move_number]))
                } else {
                    None
                }
            },
            None => None,
        }
    }
}

/// Whether `line` starts with `prefix`.
fn text_starts_with(line: &str, prefix: &str) -> (r: bool)
    ensures
        r == starts_with(line@, prefix@),
{
    let n = prefix.unicode_len();
    let m = line.unicode_len();
    if n > m {
        return false;
    }
    for i in 0..n
        invariant
            n == prefix@.len(),
            m == line@.len(),
            n <= m,
            forall|k: int| 0 <= k < i ==> line@[k] == prefix@[k],
    {
        if line.get_char(i) != prefix.get_char(i) {
            return false;
        }
    }
    assert(line@.subrange(0, n as int) =~= prefix@);
    true
}

/// Whether the text starts with a move in algebraic notation; see `is_notation`.
pub fn is_move_notation(m: &str) -> (r: bool)
    ensures
        r == is_notation(m@),
{
    if m.unicode_len() < 4 {
        return false;
    }
    let a = m.get_char(0);
    let b = m.get_char(1);
    let c = m.get_char(2);
    let d = m.get_char(3);
    'a' <= a && a <= 'h' && '0' <= b && b <= '9' && 'a' <= c && c <= 'h' && '0' <= d && d <= '9'
}

/// Whether `book_moves` can read the book's move; see `book_ok`.
pub fn book_is_ok(move_order: &str, lines: &Vec<&str>, move_number: usize) -> (r: bool)
    ensures
        r == book_ok(move_order@, lines@, move_number as int),
{
    if move_number == 0 {
        return true;
    }
    let mut best: Option<usize> = None;
    let mut best_length: usize = 0;
    for k in 0..lines.len()
        invariant
            best is None <==> book_line(lines@, move_order@, k as int) is None,
            best matches Some(i) ==> book_line(lines@, move_order@, k as int) == Some(i as int),
            best_length == match best {
                Some(i) => lines@[i as int].spec_bytes().len() as usize,
                None => 0,
            },
            best matches Some(i) ==> i < lines@.len(),
    {
        let line = lines[k];
        if text_starts_with(line, move_order) {
            if line.len() > best_length {
                best = Some(k);
                best_length = line.len();
            }
        }
    }
    if let Some(i) = best {
        let line = lines[i];
        let chars = text_chars(line);
        let words = split_ranges(&chars, ' ', 0, chars.len());
        assert(chars@.subrange(0, chars@.len() as int) =~= chars@);
        if move_number < words.len() {
            let (from, to) = words[move_number];
            let word = line.substring_char(from, to);
            assert(word@ == split_text(line@, ' ')[move_number as int]);
            return is_move_notation(word);
        }
    }
    true
}

/// The next move from the opening book `lines`, given the moves played so far.
pub fn book_moves(move_order: &str, lines: &Vec<&str>, move_number: usize) -> (r: Option<Move>)
    requires
        book_ok(move_order@, lines@, move_number as int),
    ensures
        r == book_move(move_order@, lines@, move_number as int),
{
    if move_number == 0 {
        let first = "e2e4";
        proof {
            reveal_strlit("e2e4");
        }
        return Some(Move::chess_notation_to_move(first));
    }
    let mut best: Option<usize> = None;
    let mut best_length: usize = 0;
    for k in 0..lines.len()
        invariant
            best is None <==> book_line(lines@, move_order@, k as int) is None,
            best matches Some(i) ==> book_line(lines@, move_order@, k as int) == Some(i as int),
            best_length == match best {
                Some(i) => lines@[i as int].spec_bytes().len() as usize,
                None => 0,
            },
            best matches Some(i) ==> i < lines@.len(),
    {
        let line = lines[k];
        if text_starts_with(line, move_order) {
            if line.len() > best_length {
                best = Some(k);
                best_length = line.len();
            }
        }
    }
    if let Some(i) = best {
        let line = lines[i];
        let chars = text_chars(line);
        let words = split_ranges(&chars, ' ', 0, chars.len());
        assert(chars@.subrange(0, chars@.len() as int) =~= chars@);
        if move_number < words.len() {
            let (from, to) = words[move_number];
            let word = line.substring_char(from, to);
            assert(word@ == split_text(line@, ' ')[move_number as int]);
            return Some(Move::chess_notation_to_move(word));
        }
    }
    None
}

} // verus!

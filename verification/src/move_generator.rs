use vstd::prelude::*;
use crate::board::{Board, ColoredPiece, Color, Piece, Move, on_board, same_square, spec_opposite};

verus! {

/// What a move's destination square holds, seen from the moving side.
#[derive(Debug, Clone, Copy, PartialEq, Eq, Structural)]
pub enum DestinationState {
    Free,
    Occupied,
    Capturable,
    OutOfBounds,
}

/// Which destinations a move search keeps.
#[derive(Debug, Clone, Copy, PartialEq, Eq, Structural)]
pub enum DstFilter {
    /// Every destination.
    Any,
    /// Every destination that is not occupied by the moving side.
    NotOccupied,
    /// Only destinations occupied by the moving side (defended squares).
    OnlyOccupied,
    /// Only destinations holding an opposing piece.
    OnlyCapturable,
}

/// Which pieces a move search considers.
#[derive(Debug, Clone, Copy, PartialEq, Eq, Structural)]
pub enum PieceFilter {
    /// Every piece.
    Any,
    /// Only pieces of this kind.
    Only(Piece),
    /// Every piece but those of this kind.
    AllBut(Piece),
}

impl DstFilter {
    pub open spec fn admits(self, s: DestinationState) -> bool {
        match self {
            DstFilter::Any => true,
            DstFilter::NotOccupied => s != DestinationState::Occupied,
            DstFilter::OnlyOccupied => s == DestinationState::Occupied,
            DstFilter::OnlyCapturable => s == DestinationState::Capturable,
        }
    }

    pub fn accepts(&self, s: DestinationState) -> (r: bool)
        ensures
            r == self.admits(s),
    {
        match self {
            DstFilter::Any => true,
            DstFilter::NotOccupied => s != DestinationState::Occupied,
            DstFilter::OnlyOccupied => s == DestinationState::Occupied,
            DstFilter::OnlyCapturable => s == DestinationState::Capturable,
        }
    }
}

impl PieceFilter {
    pub open spec fn admits(self, p: Piece) -> bool {
        match self {
            PieceFilter::Any => true,
            PieceFilter::Only(q) => p == q,
            PieceFilter::AllBut(q) => p != q,
        }
    }

    pub fn accepts(&self, p: Piece) -> (r: bool)
        ensures
            r == self.admits(p),
    {
        match self {
            PieceFilter::Any => true,
            PieceFilter::Only(q) => p == *q,
            PieceFilter::AllBut(q) => p != *q,
        }
    }

    /// 1 when kings pass the filter: only then can a search look for castling moves, which
    /// in turn search the opponent's moves without kings.
    pub open spec fn rank(self) -> int {
        if self.admits(Piece::King) {
            1
        } else {
            0
        }
    }
}

// ---------------------------------------------------------------------------
// The moves of each piece, as sequences in generation order
// ---------------------------------------------------------------------------

/// The destination state of `dst` for a piece of side `color`.
pub open spec fn dst_state(b: Board, dst: [i8; 2], color: Color) -> DestinationState {
    if !on_board(dst) {
        DestinationState::OutOfBounds
    } else {
        match b.square(dst) {
            Some(p) => if p.color != color {
                DestinationState::Capturable
            } else {
                DestinationState::Occupied
            },
            None => DestinationState::Free,
        }
    }
}

/// The move `src -> dst`, if the filter keeps its destination state.
pub open spec fn emit(df: DstFilter, src: [i8; 2], dst: [i8; 2], st: DestinationState) -> Seq<
    Move,
> {
    if df.admits(st) {
        seq![Move { src, dst, dst_state: st }]
    } else {
        Seq::empty()
    }
}

pub open spec fn pawn_dir(color: Color) -> int {
    if color == Color::White {
        -1
    } else {
        1
    }
}

pub open spec fn pawn_start_row(color: Color) -> int {
    if color == Color::White {
        6
    } else {
        1
    }
}

/// A pawn's diagonal step towards column offset `h`: kept when the square is occupied,
/// by either side.
pub open spec fn pawn_diag(b: Board, src: [i8; 2], color: Color, df: DstFilter, h: int) -> Seq<
    Move,
> {
    let d = [(src[0] + pawn_dir(color)) as i8, (src[1] + h) as i8];
    let st = dst_state(b, d, color);
    if st == DestinationState::Capturable || st == DestinationState::Occupied {
        emit(df, src, d, st)
    } else {
        Seq::empty()
    }
}

/// Pawn moves: one step forward onto a free square, two steps from the start row when both
/// squares are free, then the two diagonal steps.
pub open spec fn pawn_moves(b: Board, src: [i8; 2], color: Color, df: DstFilter) -> Seq<Move> {
    let dir = pawn_dir(color);
    let one = [(src[0] + dir) as i8, src[1]];
    let two = [(src[0] + 2 * dir) as i8, src[1]];
    let forward = if dst_state(b, one, color) == DestinationState::Free {
        emit(df, src, one, DestinationState::Free) + if src[0] == pawn_start_row(color) && dst_state(
            b,
            two,
            color,
        ) == DestinationState::Free {
            emit(df, src, two, DestinationState::Free)
        } else {
            Seq::empty()
        }
    } else {
        Seq::empty()
    };
    forward + pawn_diag(b, src, color, df, -1) + pawn_diag(b, src, color, df, 1)
}

/// Column offsets of the knight jumps, in generation order.
pub open spec fn knight_dx() -> Seq<i8> {
    seq![2i8, 2i8, 1i8, 1i8, -1i8, -1i8, -2i8, -2i8]
}

/// Row offsets of the knight jumps, in generation order.
pub open spec fn knight_dy() -> Seq<i8> {
    seq![1i8, -1i8, 2i8, -2i8, 2i8, -2i8, 1i8, -1i8]
}

pub open spec fn knight_jump(b: Board, src: [i8; 2], color: Color, df: DstFilter, i: int) -> Seq<
    Move,
> {
    let d = [(src[0] + knight_dy()[i]) as i8, (src[1] + knight_dx()[i]) as i8];
    let st = dst_state(b, d, color);
    if st != DestinationState::OutOfBounds {
        emit(df, src, d, st)
    } else {
        Seq::empty()
    }
}

/// The first `n` knight jumps that stay on the board.
pub open spec fn knight_moves_upto(b: Board, src: [i8; 2], color: Color, df: DstFilter, n: int) -> Seq<
    Move,
>
    decreases n,
{
    if n <= 0 {
        Seq::empty()
    } else {
        knight_moves_upto(b, src, color, df, n - 1) + knight_jump(b, src, color, df, n - 1)
    }
}

/// Knight moves: the first seven of the eight jumps are tried.
pub open spec fn knight_moves(b: Board, src: [i8; 2], color: Color, df: DstFilter) -> Seq<Move> {
    knight_moves_upto(b, src, color, df, 7)
}

/// The moves along direction `dir`, from step `i` to step 6: free squares, then the first
/// square that is not free (a capture, or a defended square when `defend`), then nothing.
pub open spec fn ray(
    b: Board,
    src: [i8; 2],
    color: Color,
    defend: bool,
    df: DstFilter,
    dir: [i8; 2],
    i: int,
) -> Seq<Move>
    decreases 7 - i,
{
    if i >= 7 || i < 1 {
        Seq::empty()
    } else {
        let d = [(src[0] + i * dir[0]) as i8, (src[1] + i * dir[1]) as i8];
        match dst_state(b, d, color) {
            DestinationState::Free => emit(df, src, d, DestinationState::Free) + ray(
                b,
                src,
                color,
                defend,
                df,
                dir,
                i + 1,
            ),
            DestinationState::Occupied => if defend {
                emit(df, src, d, DestinationState::Occupied)
            } else {
                Seq::empty()
            },
            DestinationState::OutOfBounds => Seq::empty(),
            DestinationState::Capturable => emit(df, src, d, DestinationState::Capturable),
        }
    }
}

/// The rays of all the directions, in order.
pub open spec fn rays(
    b: Board,
    src: [i8; 2],
    color: Color,
    defend: bool,
    df: DstFilter,
    dirs: Seq<[i8; 2]>,
) -> Seq<Move>
    decreases dirs.len(),
{
    if dirs.len() == 0 {
        Seq::empty()
    } else {
        rays(b, src, color, defend, df, dirs.drop_last()) + ray(
            b,
            src,
            color,
            defend,
            df,
            dirs.last(),
            1,
        )
    }
}

pub open spec fn unit_dir(d: [i8; 2]) -> bool {
    -1 <= d[0] <= 1 && -1 <= d[1] <= 1
}

/// A unit direction that moves.
pub open spec fn step_dir(d: [i8; 2]) -> bool {
    unit_dir(d) && (d[0] != 0 || d[1] != 0)
}

pub open spec fn bishop_dirs() -> Seq<[i8; 2]> {
    seq![[1i8, 1i8], [-1i8, 1i8], [-1i8, -1i8], [1i8, -1i8]]
}

pub open spec fn rook_dirs() -> Seq<[i8; 2]> {
    seq![[1i8, 0i8], [-1i8, 0i8], [0i8, -1i8], [0i8, 1i8]]
}

/// Rook directions, then bishop directions; also the king's steps.
pub open spec fn queen_dirs() -> Seq<[i8; 2]> {
    rook_dirs() + bishop_dirs()
}

/// One king step: free squares and captures, and own pieces when `defend`.
pub open spec fn king_step(
    b: Board,
    src: [i8; 2],
    color: Color,
    defend: bool,
    df: DstFilter,
    dir: [i8; 2],
) -> Seq<Move> {
    let d = [(src[0] + dir[0]) as i8, (src[1] + dir[1]) as i8];
    match dst_state(b, d, color) {
        DestinationState::Free => emit(df, src, d, DestinationState::Free),
        DestinationState::Occupied => if defend {
            emit(df, src, d, DestinationState::Occupied)
        } else {
            Seq::empty()
        },
        DestinationState::Capturable => emit(df, src, d, DestinationState::Capturable),
        DestinationState::OutOfBounds => Seq::empty(),
    }
}

pub open spec fn king_steps(
    b: Board,
    src: [i8; 2],
    color: Color,
    defend: bool,
    df: DstFilter,
    dirs: Seq<[i8; 2]>,
) -> Seq<Move>
    decreases dirs.len(),
{
    if dirs.len() == 0 {
        Seq::empty()
    } else {
        king_steps(b, src, color, defend, df, dirs.drop_last()) + king_step(
            b,
            src,
            color,
            defend,
            df,
            dirs.last(),
        )
    }
}

pub open spec fn is_king(cp: ColoredPiece) -> int {
    if cp.piece == Piece::King {
        1
    } else {
        0
    }
}

/// The moves of the piece `cp` standing on `src`.
pub open spec fn piece_moves(b: Board, src: [i8; 2], cp: ColoredPiece, defend: bool, df: DstFilter) -> Seq<
    Move,
>
    decreases is_king(cp), 3int, 0int,
{
    match cp.piece {
        Piece::Pawn => pawn_moves(b, src, cp.color, df),
        Piece::Knight => knight_moves(b, src, cp.color, df),
        Piece::Bishop => rays(b, src, cp.color, defend, df, bishop_dirs()),
        Piece::Rook => rays(b, src, cp.color, defend, df, rook_dirs()),
        Piece::Queen => rays(b, src, cp.color, defend, df, queen_dirs()),
        Piece::King => king_steps(b, src, cp.color, defend, df, queen_dirs()) + castle_moves(
            b,
            src,
            cp.color,
            df,
        ),
    }
}

/// Castling moves of a king standing on column 4: towards each side whose right is still held
/// and whose corner square is occupied.
pub open spec fn castle_moves(b: Board, src: [i8; 2], color: Color, df: DstFilter) -> Seq<Move>
    decreases 1int, 2int, 0int,
{
    if src[1] != 4 {
        Seq::empty()
    } else {
        let row = if color == Color::White {
            7int
        } else {
            0int
        };
        let ks = if color == Color::White {
            b.castling.white_kingside
        } else {
            b.castling.black_kingside
        };
        let qs = if color == Color::White {
            b.castling.white_queenside
        } else {
            b.castling.black_queenside
        };
        (if ks && b.at(row, 7) is Some {
            castle_try(b, src, color, df, 1)
        } else {
            Seq::empty()
        }) + (if qs && b.at(row, 0) is Some {
            castle_try(b, src, color, df, -1)
        } else {
            Seq::empty()
        })
    }
}

/// The king passes over `src + dir` to `src + 2 dir`: both squares must be empty and no
/// opposing piece other than the king may reach either of them.
pub open spec fn castle_try(b: Board, src: [i8; 2], color: Color, df: DstFilter, dir: int) -> Seq<
    Move,
>
    decreases 1int, 1int, 0int,
{
    let p1 = [src[0], (src[1] + dir) as i8];
    let p2 = [src[0], (src[1] + 2 * dir) as i8];
    if b.square(p1) is Some || b.square(p2) is Some {
        Seq::empty()
    } else if castle_blocked(b, color, p1, p2) {
        Seq::empty()
    } else {
        emit(df, src, p2, DestinationState::Free)
    }
}

/// Some move of the opponent's pieces other than its king ends on `p1` or `p2`.
pub open spec fn castle_blocked(b: Board, color: Color, p1: [i8; 2], p2: [i8; 2]) -> bool
    decreases 1int, 0int, 0int,
{
    let ms = moves_in_rows(
        b,
        spec_opposite(color),
        false,
        PieceFilter::AllBut(Piece::King),
        DstFilter::Any,
        8,
    );
    exists|k: int|
        0 <= k < ms.len() && (same_square(#[trigger] ms[k].dst, p1) || same_square(ms[k].dst, p2))
}

/// The moves of the piece on square `(r, c)`, if it belongs to `color` and passes `pf`.
pub open spec fn square_moves(
    b: Board,
    color: Color,
    defend: bool,
    pf: PieceFilter,
    df: DstFilter,
    r: int,
    c: int,
) -> Seq<Move>
    decreases pf.rank(), 3int, 1int,
{
    match b.at(r, c) {
        Some(p) => if p.color == color && pf.admits(p.piece) {
            piece_moves(b, [r as i8, c as i8], p, defend, df)
        } else {
            Seq::empty()
        },
        None => Seq::empty(),
    }
}

/// The moves of the pieces of `color` passing `pf` on row `r`, columns `0..j`.
pub open spec fn moves_in_row(
    b: Board,
    color: Color,
    defend: bool,
    pf: PieceFilter,
    df: DstFilter,
    r: int,
    j: int,
) -> Seq<Move>
    decreases pf.rank(), 4int, j,
{
    if j <= 0 {
        Seq::empty()
    } else {
        moves_in_row(b, color, defend, pf, df, r, j - 1) + square_moves(b, color, defend, pf, df, r, j - 1)
    }
}

proof fn lemma_row_step(b: Board, color: Color, defend: bool, pf: PieceFilter, df: DstFilter, r: int, j: int)
    requires
        0 <= j,
    ensures
        moves_in_row(b, color, defend, pf, df, r, j + 1) == moves_in_row(b, color, defend, pf, df, r, j)
            + square_moves(b, color, defend, pf, df, r, j),
{
}

/// The moves of the pieces of `color` passing `pf` on rows `0..i`, row by row.
pub open spec fn moves_in_rows(
    b: Board,
    color: Color,
    defend: bool,
    pf: PieceFilter,
    df: DstFilter,
    i: int,
) -> Seq<Move>
    decreases pf.rank(), 5int, i,
{
    if i <= 0 {
        Seq::empty()
    } else {
        moves_in_rows(b, color, defend, pf, df, i - 1) + moves_in_row(
            b,
            color,
            defend,
            pf,
            df,
            i - 1,
            8,
        )
    }
}

/// All moves of the side `color`, with the given filters, in generation order.
pub open spec fn all_moves(b: Board, color: Color, defend: bool, pf: PieceFilter, df: DstFilter) -> Seq<
    Move,
> {
    moves_in_rows(b, color, defend, pf, df, 8)
}

// ---------------------------------------------------------------------------
// The generator
// ---------------------------------------------------------------------------

/// Collects the moves of one piece into `moves`.
pub struct MoveGenerator<'a> {
    pub board: &'a Board,
    pub start_pos: [i8; 2],
    pub piece: ColoredPiece,
    pub moves: Vec<Move>,
    pub defend: bool,
    pub dst_filter: DstFilter,
}

impl<'a> MoveGenerator<'a> {
    /// Same board, piece and settings as `other`.
    pub open spec fn same_setup(self, other: Self) -> bool {
        &&& self.board == other.board
        &&& self.start_pos == other.start_pos
        &&& self.piece == other.piece
        &&& self.defend == other.defend
        &&& self.dst_filter == other.dst_filter
    }

    fn add_move(&mut self, dst: [i8; 2], dst_state: DestinationState)
        ensures
            final(self).same_setup(*old(self)),
            final(self).moves@ == old(self).moves@ + emit(
                old(self).dst_filter,
                old(self).start_pos,
                dst,
                dst_state,
            ),
    {
        if !self.dst_filter.accepts(dst_state) {
            return;
        }
        let m = Move { src: self.start_pos, dst, dst_state };
        self.moves.push(m);
    }

    /// The diagonal pawn step towards column offset `hdir`.
    fn add_pawn_diag(&mut self, dir: i8, hdir: i8)
        requires
            on_board(old(self).start_pos),
            dir == pawn_dir(old(self).piece.color),
            hdir == -1 || hdir == 1,
        ensures
            final(self).same_setup(*old(self)),
            final(self).moves@ == old(self).moves@ + pawn_diag(
                *old(self).board,
                old(self).start_pos,
                old(self).piece.color,
                old(self).dst_filter,
                hdir as int,
            ),
    {
        let dst = [(self.start_pos[0] + (1 * dir)), (self.start_pos[1] + hdir)];
        let dst_state = Move::get_dst_state(self.board, dst, self.piece.color);
        if matches!(dst_state, DestinationState::Capturable | DestinationState::Occupied) {
            self.add_move(dst, dst_state);
        }
    }

    fn get_pawnmoves(&mut self)
        requires
            on_board(old(self).start_pos),
        ensures
            final(self).same_setup(*old(self)),
            final(self).moves@ == old(self).moves@ + pawn_moves(
                *old(self).board,
                old(self).start_pos,
                old(self).piece.color,
                old(self).dst_filter,
            ),
    {
        let ghost old_moves = self.moves@;
        let (pawn_start, dir): (i8, i8) = match self.piece.color {
            Color::White => (6, -1),
            Color::Black => (1, 1),
        };
        let dst = [self.start_pos[0] + (1 * dir), self.start_pos[1]];
        if matches!(Move::get_dst_state(self.board, dst, self.piece.color), DestinationState::Free) {
            self.add_move(dst, DestinationState::Free);
            if self.start_pos[0] == pawn_start {
                let dst = [self.start_pos[0] + (2 * dir), self.start_pos[1]];
                if matches!(Move::get_dst_state(self.board, dst, self.piece.color), DestinationState::Free) {
                    self.add_move(dst, DestinationState::Free)
                }
            }
        }
        self.add_pawn_diag(dir, -1);
        self.add_pawn_diag(dir, 1);
        assert(self.moves@ =~= old_moves + pawn_moves(
            *self.board,
            self.start_pos,
            self.piece.color,
            self.dst_filter,
        ));
    }

    fn get_knightmoves(&mut self)
        requires
            on_board(old(self).start_pos),
        ensures
            final(self).same_setup(*old(self)),
            final(self).moves@ == old(self).moves@ + knight_moves(
                *old(self).board,
                old(self).start_pos,
                old(self).piece.color,
                old(self).dst_filter,
            ),
    {
        let ghost old_moves = self.moves@;
        let xvals: [i8; 8] = [2, 2, 1, 1, -1, -1, -2, -2];
        let yvals: [i8; 8] = [1, -1, 2, -2, 2, -2, 1, -1];
        assert(xvals@ =~= knight_dx());
        assert(yvals@ =~= knight_dy());
        for i in 0..7usize
            invariant
                self.same_setup(*old(self)),
                on_board(self.start_pos),
                xvals@ == knight_dx(),
                yvals@ == knight_dy(),
                self.moves@ == old_moves + knight_moves_upto(
                    *self.board,
                    self.start_pos,
                    self.piece.color,
                    self.dst_filter,
                    i as int,
                ),
        {
            assert(-2 <= knight_dy()[i as int] <= 2 && -2 <= knight_dx()[i as int] <= 2);
            let dst = [self.start_pos[0] + yvals[i], self.start_pos[1] + xvals[i]];
            let dst_state = Move::get_dst_state(self.board, dst, self.piece.color);
            if dst_state != DestinationState::OutOfBounds {
                self.add_move(dst, dst_state);
            }
            assert(self.moves@ =~= old_moves + knight_moves_upto(
                *self.board,
                self.start_pos,
                self.piece.color,
                self.dst_filter,
                i + 1,
            ));
        }
    }

    /// The moves along one direction, until the first square that is not free.
    fn add_ray(&mut self, dir: [i8; 2])
        requires
            on_board(old(self).start_pos),
            unit_dir(dir),
        ensures
            final(self).same_setup(*old(self)),
            final(self).moves@ == old(self).moves@ + ray(
                *old(self).board,
                old(self).start_pos,
                old(self).piece.color,
                old(self).defend,
                old(self).dst_filter,
                dir,
                1,
            ),
    {
        let ghost old_moves = self.moves@;
        let ghost target = old_moves + ray(
            *self.board,
            self.start_pos,
            self.piece.color,
            self.defend,
            self.dst_filter,
            dir,
            1,
        );
        let mut i: i8 = 1;
        while i < 7
            invariant_except_break
                1 <= i <= 7,
                self.same_setup(*old(self)),
                on_board(self.start_pos),
                unit_dir(dir),
                self.moves@ + ray(
                    *self.board,
                    self.start_pos,
                    self.piece.color,
                    self.defend,
                    self.dst_filter,
                    dir,
                    i as int,
                ) == target,
            ensures
                self.same_setup(*old(self)),
                self.moves@ == target,
            decreases 7 - i,
        {
            assert(-6 <= i * dir[0] <= 6 && -6 <= i * dir[1] <= 6) by (nonlinear_arith)
                requires
                    1 <= i <= 6,
                    -1 <= dir[0] <= 1,
                    -1 <= dir[1] <= 1,
            ;
            let dst = [self.start_pos[0] + (i * dir[0]), self.start_pos[1] + (i * dir[1])];
            match Move::get_dst_state(self.board, dst, self.piece.color) {
                DestinationState::Free => self.add_move(dst, DestinationState::Free),
                DestinationState::Occupied => {
                    if self.defend {
                        self.add_move(dst, DestinationState::Occupied)
                    }
                    break ;
                },
                DestinationState::OutOfBounds => break ,
                DestinationState::Capturable => {
                    self.add_move(dst, DestinationState::Capturable);
                    break ;
                },
            }
            i = i + 1;
        }
    }

    fn get_linemoves(&mut self, dirs: &[[i8; 2]])
        requires
            on_board(old(self).start_pos),
            forall|k: int| 0 <= k < dirs@.len() ==> unit_dir(#[trigger] dirs@[k]),
        ensures
            final(self).same_setup(*old(self)),
            final(self).moves@ == old(self).moves@ + rays(
                *old(self).board,
                old(self).start_pos,
                old(self).piece.color,
                old(self).defend,
                old(self).dst_filter,
                dirs@,
            ),
    {
        let ghost old_moves = self.moves@;
        for d in 0..dirs.len()
            invariant
                self.same_setup(*old(self)),
                on_board(self.start_pos),
                forall|k: int| 0 <= k < dirs@.len() ==> unit_dir(#[trigger] dirs@[k]),
                self.moves@ == old_moves + rays(
                    *self.board,
                    self.start_pos,
                    self.piece.color,
                    self.defend,
                    self.dst_filter,
                    dirs@.subrange(0, d as int),
                ),
        {
            self.add_ray(dirs[d]);
            assert(dirs@.subrange(0, d + 1).drop_last() =~= dirs@.subrange(0, d as int));
            assert(self.moves@ =~= old_moves + rays(
                *self.board,
                self.start_pos,
                self.piece.color,
                self.defend,
                self.dst_filter,
                dirs@.subrange(0, d + 1),
            ));
        }
        assert(dirs@.subrange(0, dirs@.len() as int) =~= dirs@);
    }

    fn get_bishopmoves(&mut self)
        requires
            on_board(old(self).start_pos),
        ensures
            final(self).same_setup(*old(self)),
            final(self).moves@ == old(self).moves@ + rays(
                *old(self).board,
                old(self).start_pos,
                old(self).piece.color,
                old(self).defend,
                old(self).dst_filter,
                bishop_dirs(),
            ),
    {
        let dirs: [[i8; 2]; 4] = [[1, 1], [-1, 1], [-1, -1], [1, -1]];
        assert(dirs@ =~= bishop_dirs());
        self.get_linemoves(&dirs)
    }

    fn get_rookmoves(&mut self)
        requires
            on_board(old(self).start_pos),
        ensures
            final(self).same_setup(*old(self)),
            final(self).moves@ == old(self).moves@ + rays(
                *old(self).board,
                old(self).start_pos,
                old(self).piece.color,
                old(self).defend,
                old(self).dst_filter,
                rook_dirs(),
            ),
    {
        let dirs: [[i8; 2]; 4] = [[1, 0], [-1, 0], [0, -1], [0, 1]];
        assert(dirs@ =~= rook_dirs());
        self.get_linemoves(&dirs)
    }

    fn get_queenmoves(&mut self)
        requires
            on_board(old(self).start_pos),
        ensures
            final(self).same_setup(*old(self)),
            final(self).moves@ == old(self).moves@ + rays(
                *old(self).board,
                old(self).start_pos,
                old(self).piece.color,
                old(self).defend,
                old(self).dst_filter,
                queen_dirs(),
            ),
    {
        let dirs: [[i8; 2]; 8] = [
            [1, 0],
            [-1, 0],
            [0, -1],
            [0, 1],
            [1, 1],
            [-1, 1],
            [-1, -1],
            [1, -1],
        ];
        assert(dirs@ =~= queen_dirs());
        self.get_linemoves(&dirs)
    }

    fn add_king_step(&mut self, dir: [i8; 2])
        requires
            on_board(old(self).start_pos),
            unit_dir(dir),
        ensures
            final(self).same_setup(*old(self)),
            final(self).moves@ == old(self).moves@ + king_step(
                *old(self).board,
                old(self).start_pos,
                old(self).piece.color,
                old(self).defend,
                old(self).dst_filter,
                dir,
            ),
    {
        let dst = [self.start_pos[0] + (dir[0]), self.start_pos[1] + (dir[1])];
        match Move::get_dst_state(self.board, dst, self.piece.color) {
            DestinationState::Free => self.add_move(dst, DestinationState::Free),
            DestinationState::Occupied => {
                if self.defend {
                    self.add_move(dst, DestinationState::Occupied)
                }
            },
            DestinationState::Capturable => {
                let piece = Board::get(self.board, dst);
                if let Some(_) = piece {
                    self.add_move(dst, DestinationState::Capturable);
                }
            },
            DestinationState::OutOfBounds => {},
        }
    }

    fn get_kingmoves(&mut self)
        requires
            on_board(old(self).start_pos),
        ensures
            final(self).same_setup(*old(self)),
            final(self).moves@ == old(self).moves@ + king_steps(
                *old(self).board,
                old(self).start_pos,
                old(self).piece.color,
                old(self).defend,
                old(self).dst_filter,
                queen_dirs(),
            ),
    {
        let ghost old_moves = self.moves@;
        let dirs: [[i8; 2]; 8] = [
            [1, 0],
            [-1, 0],
            [0, -1],
            [0, 1],
            [1, 1],
            [-1, 1],
            [-1, -1],
            [1, -1],
        ];
        assert(dirs@ =~= queen_dirs());
        for d in 0..8usize
            invariant
                self.same_setup(*old(self)),
                on_board(self.start_pos),
                dirs@ == queen_dirs(),
                self.moves@ == old_moves + king_steps(
                    *self.board,
                    self.start_pos,
                    self.piece.color,
                    self.defend,
                    self.dst_filter,
                    queen_dirs().subrange(0, d as int),
                ),
        {
            assert(unit_dir(queen_dirs()[d as int]));
            self.add_king_step(dirs[d]);
            assert(queen_dirs().subrange(0, d + 1).drop_last() =~= queen_dirs().subrange(
                0,
                d as int,
            ));
            assert(self.moves@ =~= old_moves + king_steps(
                *self.board,
                self.start_pos,
                self.piece.color,
                self.defend,
                self.dst_filter,
                queen_dirs().subrange(0, d + 1),
            ));
        }
        assert(queen_dirs().subrange(0, 8) =~= queen_dirs());
    }

    fn maybe_add_move(&mut self, dst: Option<[i8; 2]>)
        ensures
            final(self).same_setup(*old(self)),
            final(self).moves@ == old(self).moves@ + match dst {
                Some(d) => emit(old(self).dst_filter, old(self).start_pos, d, DestinationState::Free),
                None => Seq::empty(),
            },
    {
        if let Some(dst) = dst {
            // the castling checks made sure that `dst` is free
            self.add_move(dst, DestinationState::Free)
        }
    }

    fn get_castle_moves(&mut self)
        requires
            on_board(old(self).start_pos),
            old(self).piece.piece == Piece::King,
        ensures
            final(self).same_setup(*old(self)),
            final(self).moves@ == old(self).moves@ + castle_moves(
                *old(self).board,
                old(self).start_pos,
                old(self).piece.color,
                old(self).dst_filter,
            ),
        decreases 1int, 2int, 0int,
    {
        let ghost old_moves = self.moves@;
        if self.start_pos[1] != 4 {
            return ;
        }
        let c = self.board.castling;
        if self.piece.color == Color::White {
            if c.white_kingside {
                let r = self.board.get([7, 7]);
                if let Some(_) = r {
                    let dst = self.get_kingside_castle();
                    self.maybe_add_move(dst);
                }
            }
            let ghost mid = self.moves@;
            if c.white_queenside {
                let r = self.board.get([7, 0]);
                if let Some(_) = r {
                    let dst = self.get_queenside_castle();
                    self.maybe_add_move(dst);
                }
            }
            assert(self.moves@ =~= old_moves + castle_moves(
                *self.board,
                self.start_pos,
                self.piece.color,
                self.dst_filter,
            ));
        } else {
            if c.black_kingside {
                let r = self.board.get([0, 7]);
                if let Some(_) = r {
                    let dst = self.get_kingside_castle();
                    self.maybe_add_move(dst);
                }
            }
            if c.black_queenside {
                let r = self.board.get([0, 0]);
                if let Some(_) = r {
                    let dst = self.get_queenside_castle();
                    self.maybe_add_move(dst);
                }
            }
            assert(self.moves@ =~= old_moves + castle_moves(
                *self.board,
                self.start_pos,
                self.piece.color,
                self.dst_filter,
            ));
        }
    }

    /// The square that the king castles to in direction `dir`, if castling that way is
    /// possible: the two squares it passes are empty and no opposing piece but the king
    /// reaches them.
    fn get_castle(&self, dir: i8) -> (r: Option<[i8; 2]>)
        requires
            on_board(self.start_pos),
            self.start_pos[1] == 4,
            dir == 1 || dir == -1,
            self.piece.piece == Piece::King,
        ensures
            castle_try(*self.board, self.start_pos, self.piece.color, self.dst_filter, dir as int)
                == match r {
                Some(d) => emit(self.dst_filter, self.start_pos, d, DestinationState::Free),
                None => Seq::empty(),
            },
        decreases 1int, 1int, 0int,
    {
        let p1 = crate::board::add(self.start_pos, [0, (1 * dir)]);
        let p2 = crate::board::add(self.start_pos, [0, (2 * dir)]);
        if self.board.get(p1).is_some() || self.board.get(p2).is_some() {
            return None;
        }
        let ms = MoveGenerator::get_moves_with_predicates(
            self.board,
            self.piece.color.opposite_color(),
            false,
            PieceFilter::AllBut(Piece::King),
            DstFilter::Any,
        );
        let ghost p1s = [self.start_pos[0], (self.start_pos[1] + dir) as i8];
        let ghost p2s = [self.start_pos[0], (self.start_pos[1] + 2 * dir) as i8];
        assert(same_square(p1, p1s) && same_square(p2, p2s));
        for k in 0..ms.len()
            invariant
                ms@ == all_moves(
                    *self.board,
                    spec_opposite(self.piece.color),
                    false,
                    PieceFilter::AllBut(Piece::King),
                    DstFilter::Any,
                ),
                on_board(self.start_pos),
                self.start_pos[1] == 4,
                dir == 1 || dir == -1,
                p1s == [self.start_pos[0], (self.start_pos[1] + dir) as i8],
                p2s == [self.start_pos[0], (self.start_pos[1] + 2 * dir) as i8],
                same_square(p1, p1s),
                same_square(p2, p2s),
                self.board.square(p1s) is None,
                self.board.square(p2s) is None,
                forall|j: int|
                    0 <= j < k ==> !(same_square(#[trigger] ms@[j].dst, p1s) || same_square(
                        ms@[j].dst,
                        p2s,
                    )),
        {
            let m = ms[k];
            if (m.dst[0] == p1[0] && m.dst[1] == p1[1]) || (m.dst[0] == p2[0] && m.dst[1] == p2[1]) {
                assert(same_square(ms@[k as int].dst, p1s) || same_square(ms@[k as int].dst, p2s));
                assert(castle_blocked(*self.board, self.piece.color, p1s, p2s));
                return None;
            }
        }
        assert(!castle_blocked(*self.board, self.piece.color, p1s, p2s));
        assert(p2 == p2s);
        Some(p2)
    }

    fn get_kingside_castle(&self) -> (r: Option<[i8; 2]>)
        requires
            on_board(self.start_pos),
            self.start_pos[1] == 4,
            self.piece.piece == Piece::King,
        ensures
            castle_try(*self.board, self.start_pos, self.piece.color, self.dst_filter, 1) == match r {
                Some(d) => emit(self.dst_filter, self.start_pos, d, DestinationState::Free),
                None => Seq::empty(),
            },
        decreases 1int, 1int, 1int,
    {
        self.get_castle(1)
    }

    fn get_queenside_castle(&self) -> (r: Option<[i8; 2]>)
        requires
            on_board(self.start_pos),
            self.start_pos[1] == 4,
            self.piece.piece == Piece::King,
        ensures
            castle_try(*self.board, self.start_pos, self.piece.color, self.dst_filter, -1) == match r {
                Some(d) => emit(self.dst_filter, self.start_pos, d, DestinationState::Free),
                None => Seq::empty(),
            },
        decreases 1int, 1int, 1int,
    {
        self.get_castle(-1)
    }

    fn get_pieces_moves(&mut self)
        requires
            on_board(old(self).start_pos),
        ensures
            final(self).same_setup(*old(self)),
            final(self).moves@ == old(self).moves@ + piece_moves(
                *old(self).board,
                old(self).start_pos,
                old(self).piece,
                old(self).defend,
                old(self).dst_filter,
            ),
        decreases is_king(self.piece), 3int, 0int,
    {
        match self.piece.piece {
            Piece::Pawn => self.get_pawnmoves(),
            Piece::Knight => self.get_knightmoves(),
            Piece::Bishop => self.get_bishopmoves(),
            Piece::Rook => self.get_rookmoves(),
            Piece::Queen => self.get_queenmoves(),
            Piece::King => {
                let ghost old_moves = self.moves@;
                self.get_kingmoves();
                self.get_castle_moves();
                assert(self.moves@ =~= old_moves + piece_moves(
                    *self.board,
                    self.start_pos,
                    self.piece,
                    self.defend,
                    self.dst_filter,
                ));
            },
        }
    }

    /// All moves of the piece on `pos`, defended squares excluded.
    pub fn get_moves_for_piece(board: &Board, pos: [i8; 2]) -> (r: Vec<Move>)
        requires
            on_board(pos),
            board.square(pos) is Some,
        ensures
            r@ == piece_moves(*board, pos, board.square(pos)->0, false, DstFilter::Any),
    {
        let p = board.get(pos).unwrap();
        let results: Vec<Move> = Vec::new();
        let mut gen = MoveGenerator {
            board,
            start_pos: pos,
            piece: p,
            moves: results,
            defend: false,
            dst_filter: DstFilter::Any,
        };
        gen.get_pieces_moves();
        gen.moves
    }

    /// The moves of the pieces of `color` that pass `piece_filter`, keeping those whose
    /// destination passes `dst_filter`; squares of own pieces count when `defend`.
    #[verifier::spinoff_prover]
    #[verifier::rlimit(40)]
    pub fn get_moves_with_predicates(
        board: &Board,
        color: Color,
        defend: bool,
        piece_filter: PieceFilter,
        dst_filter: DstFilter,
    ) -> (r: Vec<Move>)
        ensures
            r@ == all_moves(*board, color, defend, piece_filter, dst_filter),
        decreases piece_filter.rank(), 5int, 0int,
    {
        let mut results: Vec<Move> = Vec::new();
        for i in 0..8i8
            invariant
                results@ == moves_in_rows(*board, color, defend, piece_filter, dst_filter, i as int),
        {
            for j in 0..8i8
                invariant
                    0 <= i < 8,
                    results@ == moves_in_rows(*board, color, defend, piece_filter, dst_filter, i as int)
                        + moves_in_row(*board, color, defend, piece_filter, dst_filter, i as int, j as int),
            {
                results = Self::add_square_moves(board, color, defend, piece_filter, dst_filter, i, j, results);
                proof {
                    lemma_row_step(*board, color, defend, piece_filter, dst_filter, i as int, j as int);
                }
                assert(results@ =~= moves_in_rows(*board, color, defend, piece_filter, dst_filter, i as int)
                    + moves_in_row(*board, color, defend, piece_filter, dst_filter, i as int, j + 1));
            }
        }
        results
    }

    /// Appends the moves of the piece on `[i, j]`, if it belongs to `color` and passes
    /// `piece_filter`.
    fn add_square_moves(
        board: &Board,
        color: Color,
        defend: bool,
        piece_filter: PieceFilter,
        dst_filter: DstFilter,
        i: i8,
        j: i8,
        results: Vec<Move>,
    ) -> (r: Vec<Move>)
        requires
            0 <= i < 8,
            0 <= j < 8,
        ensures
            r@ == results@ + square_moves(*board, color, defend, piece_filter, dst_filter, i as int, j as int),
        decreases piece_filter.rank(), 3int, 1int,
    {
        match board.arr[i as usize][j as usize] {
            Some(ColoredPiece { color: c, piece }) => {
                if c == color && piece_filter.accepts(piece) {
                    let mut gen = MoveGenerator {
                        board,
                        start_pos: [i, j],
                        piece: ColoredPiece { piece, color },
                        moves: results,
                        defend,
                        dst_filter,
                    };
                    gen.get_pieces_moves();
                    gen.moves
                } else {
                    results
                }
            },
            None => results,
        }
    }

    /// The moves of `color`, except onto its own pieces.
    pub fn get_moves(board: &Board, color: Color) -> (r: Vec<Move>)
        ensures
            r@ == all_moves(*board, color, false, PieceFilter::Any, DstFilter::NotOccupied),
    {
        Self::get_moves_with_predicates(board, color, false, PieceFilter::Any, DstFilter::NotOccupied)
    }

    /// The squares of its own pieces that `color` defends, as moves onto them.
    pub fn get_defense_moves(board: &Board, color: Color) -> (r: Vec<Move>)
        ensures
            r@ == all_moves(*board, color, true, PieceFilter::Any, DstFilter::OnlyOccupied),
    {
        Self::get_moves_with_predicates(board, color, true, PieceFilter::Any, DstFilter::OnlyOccupied)
    }
}


// ---------------------------------------------------------------------------
// What every generated move satisfies
// ---------------------------------------------------------------------------

/// A move that a piece of `color` on `src` may be given: it leaves `src`, lands on the board,
/// and its recorded destination state is the true one and passes the filter.
pub open spec fn move_from(b: Board, src: [i8; 2], color: Color, df: DstFilter, m: Move) -> bool {
    &&& m.src == src
    &&& !same_square(m.src, m.dst)
    &&& on_board(m.dst)
    &&& m.dst_state == dst_state(b, m.dst, color)
    &&& df.admits(m.dst_state)
}

pub open spec fn all_from(b: Board, src: [i8; 2], color: Color, df: DstFilter, ms: Seq<Move>) -> bool {
    forall|k: int| 0 <= k < ms.len() ==> move_from(b, src, color, df, #[trigger] ms[k])
}

/// A move of the side `color` found by a search with filters `pf` and `df`.
pub open spec fn move_of_side(b: Board, color: Color, pf: PieceFilter, df: DstFilter, m: Move) -> bool {
    &&& on_board(m.src)
    &&& b.square(m.src) matches Some(p)
    &&& p.color == color
    &&& pf.admits(p.piece)
    &&& move_from(b, m.src, color, df, m)
}

pub open spec fn all_of_side(b: Board, color: Color, pf: PieceFilter, df: DstFilter, ms: Seq<Move>) -> bool {
    forall|k: int| 0 <= k < ms.len() ==> move_of_side(b, color, pf, df, #[trigger] ms[k])
}

proof fn lemma_all_from_concat(b: Board, src: [i8; 2], color: Color, df: DstFilter, x: Seq<Move>, y: Seq<Move>)
    requires
        all_from(b, src, color, df, x),
        all_from(b, src, color, df, y),
    ensures
        all_from(b, src, color, df, x + y),
{
    assert forall|k: int| 0 <= k < (x + y).len() implies move_from(b, src, color, df, #[trigger] (x + y)[k]) by {
        if k < x.len() {
            assert((x + y)[k] == x[k]);
        } else {
            assert((x + y)[k] == y[k - x.len()]);
        }
    }
}

proof fn lemma_all_of_side_concat(b: Board, color: Color, pf: PieceFilter, df: DstFilter, x: Seq<Move>, y: Seq<Move>)
    requires
        all_of_side(b, color, pf, df, x),
        all_of_side(b, color, pf, df, y),
    ensures
        all_of_side(b, color, pf, df, x + y),
{
    assert forall|k: int| 0 <= k < (x + y).len() implies move_of_side(b, color, pf, df, #[trigger] (x + y)[k]) by {
        if k < x.len() {
            assert((x + y)[k] == x[k]);
        } else {
            assert((x + y)[k] == y[k - x.len()]);
        }
    }
}

proof fn lemma_emit(b: Board, src: [i8; 2], color: Color, df: DstFilter, d: [i8; 2], st: DestinationState)
    requires
        !same_square(src, d),
        st == dst_state(b, d, color),
        st != DestinationState::OutOfBounds,
    ensures
        all_from(b, src, color, df, emit(df, src, d, st)),
        emit(df, src, d, st).len() <= 1,
{
}

proof fn lemma_ray(b: Board, src: [i8; 2], color: Color, defend: bool, df: DstFilter, dir: [i8; 2], i: int)
    requires
        1 <= i,
        on_board(src),
        step_dir(dir),
    ensures
        all_from(b, src, color, df, ray(b, src, color, defend, df, dir, i)),
        ray(b, src, color, defend, df, dir, i).len() <= if i <= 7 { 7 - i } else { 0 },
    decreases 7 - i,
{
    if i < 7 {
        let d = [(src[0] + i * dir[0]) as i8, (src[1] + i * dir[1]) as i8];
        assert(i * dir[0] != 0 || i * dir[1] != 0) by (nonlinear_arith)
            requires
                1 <= i,
                dir[0] != 0 || dir[1] != 0,
        ;
        assert(-6 <= i * dir[0] <= 6 && -6 <= i * dir[1] <= 6) by (nonlinear_arith)
            requires
                1 <= i < 7,
                -1 <= dir[0] <= 1,
                -1 <= dir[1] <= 1,
        ;
        let st = dst_state(b, d, color);
        if st != DestinationState::OutOfBounds {
            lemma_emit(b, src, color, df, d, st);
        }
        if st == DestinationState::Free {
            lemma_ray(b, src, color, defend, df, dir, i + 1);
            lemma_all_from_concat(b, src, color, df, emit(df, src, d, st), ray(b, src, color, defend, df, dir, i + 1));
        }
    }
}

proof fn lemma_rays(b: Board, src: [i8; 2], color: Color, defend: bool, df: DstFilter, dirs: Seq<[i8; 2]>)
    requires
        on_board(src),
        forall|k: int| 0 <= k < dirs.len() ==> step_dir(#[trigger] dirs[k]),
    ensures
        all_from(b, src, color, df, rays(b, src, color, defend, df, dirs)),
        rays(b, src, color, defend, df, dirs).len() <= 6 * dirs.len(),
    decreases dirs.len(),
{
    if dirs.len() > 0 {
        lemma_rays(b, src, color, defend, df, dirs.drop_last());
        lemma_ray(b, src, color, defend, df, dirs.last(), 1);
        lemma_all_from_concat(b, src, color, df, rays(b, src, color, defend, df, dirs.drop_last()), ray(b, src, color, defend, df, dirs.last(), 1));
    }
}

proof fn lemma_king_steps(b: Board, src: [i8; 2], color: Color, defend: bool, df: DstFilter, dirs: Seq<[i8; 2]>)
    requires
        on_board(src),
        forall|k: int| 0 <= k < dirs.len() ==> step_dir(#[trigger] dirs[k]),
    ensures
        all_from(b, src, color, df, king_steps(b, src, color, defend, df, dirs)),
        king_steps(b, src, color, defend, df, dirs).len() <= dirs.len(),
    decreases dirs.len(),
{
    if dirs.len() > 0 {
        lemma_king_steps(b, src, color, defend, df, dirs.drop_last());
        let dir = dirs.last();
        let d = [(src[0] + dir[0]) as i8, (src[1] + dir[1]) as i8];
        let st = dst_state(b, d, color);
        if st != DestinationState::OutOfBounds {
            lemma_emit(b, src, color, df, d, st);
        }
        lemma_all_from_concat(b, src, color, df, king_steps(b, src, color, defend, df, dirs.drop_last()), king_step(b, src, color, defend, df, dir));
    }
}

proof fn lemma_knight_upto(b: Board, src: [i8; 2], color: Color, df: DstFilter, n: int)
    requires
        on_board(src),
        n <= 8,
    ensures
        all_from(b, src, color, df, knight_moves_upto(b, src, color, df, n)),
        knight_moves_upto(b, src, color, df, n).len() <= if n < 0 { 0 } else { n },
    decreases n,
{
    if n > 0 {
        lemma_knight_upto(b, src, color, df, n - 1);
        let i = n - 1;
        let d = [(src[0] + knight_dy()[i]) as i8, (src[1] + knight_dx()[i]) as i8];
        assert(knight_dx()[i] != 0 && -2 <= knight_dx()[i] <= 2 && -2 <= knight_dy()[i] <= 2);
        let st = dst_state(b, d, color);
        if st != DestinationState::OutOfBounds {
            lemma_emit(b, src, color, df, d, st);
        }
        lemma_all_from_concat(b, src, color, df, knight_moves_upto(b, src, color, df, n - 1), knight_jump(b, src, color, df, i));
    }
}

proof fn lemma_pawn(b: Board, src: [i8; 2], color: Color, df: DstFilter)
    requires
        on_board(src),
    ensures
        all_from(b, src, color, df, pawn_moves(b, src, color, df)),
        pawn_moves(b, src, color, df).len() <= 4,
{
    let dir = pawn_dir(color);
    let one = [(src[0] + dir) as i8, src[1]];
    let two = [(src[0] + 2 * dir) as i8, src[1]];
    if dst_state(b, one, color) == DestinationState::Free {
        lemma_emit(b, src, color, df, one, DestinationState::Free);
    }
    if dst_state(b, two, color) == DestinationState::Free {
        lemma_emit(b, src, color, df, two, DestinationState::Free);
    }
    let e2 = if src[0] == pawn_start_row(color) && dst_state(b, two, color) == DestinationState::Free {
        emit(df, src, two, DestinationState::Free)
    } else {
        Seq::empty()
    };
    if dst_state(b, one, color) == DestinationState::Free {
        lemma_all_from_concat(b, src, color, df, emit(df, src, one, DestinationState::Free), e2);
    }
    let forward = if dst_state(b, one, color) == DestinationState::Free {
        emit(df, src, one, DestinationState::Free) + e2
    } else {
        Seq::empty()
    };
    assert(all_from(b, src, color, df, forward));
    let da = [(src[0] + dir) as i8, (src[1] + -1) as i8];
    let db = [(src[0] + dir) as i8, (src[1] + 1) as i8];
    if dst_state(b, da, color) != DestinationState::OutOfBounds {
        lemma_emit(b, src, color, df, da, dst_state(b, da, color));
    }
    if dst_state(b, db, color) != DestinationState::OutOfBounds {
        lemma_emit(b, src, color, df, db, dst_state(b, db, color));
    }
    lemma_all_from_concat(b, src, color, df, forward, pawn_diag(b, src, color, df, -1));
    lemma_all_from_concat(b, src, color, df, forward + pawn_diag(b, src, color, df, -1), pawn_diag(b, src, color, df, 1));
}

proof fn lemma_castle(b: Board, src: [i8; 2], color: Color, df: DstFilter)
    requires
        on_board(src),
    ensures
        all_from(b, src, color, df, castle_moves(b, src, color, df)),
        castle_moves(b, src, color, df).len() <= 2,
{
    if src[1] == 4 {
        let p2a = [src[0], (src[1] + 2) as i8];
        let p2b = [src[0], (src[1] - 2) as i8];
        if b.square(p2a) is None {
            lemma_emit(b, src, color, df, p2a, DestinationState::Free);
        }
        if b.square(p2b) is None {
            lemma_emit(b, src, color, df, p2b, DestinationState::Free);
        }
        assert(all_from(b, src, color, df, castle_try(b, src, color, df, 1)));
        assert(all_from(b, src, color, df, castle_try(b, src, color, df, -1)));
        let row = if color == Color::White { 7int } else { 0int };
        let ks = if color == Color::White { b.castling.white_kingside } else { b.castling.black_kingside };
        let qs = if color == Color::White { b.castling.white_queenside } else { b.castling.black_queenside };
        lemma_all_from_concat(b, src, color, df,
            if ks && b.at(row, 7) is Some { castle_try(b, src, color, df, 1) } else { Seq::empty() },
            if qs && b.at(row, 0) is Some { castle_try(b, src, color, df, -1) } else { Seq::empty() });
    }
}

/// Every move of a piece leaves its square, lands on the board with its true destination
/// state, and passes the filter; a piece has at most 48 moves.
pub proof fn lemma_piece_moves(b: Board, src: [i8; 2], cp: ColoredPiece, defend: bool, df: DstFilter)
    requires
        on_board(src),
    ensures
        all_from(b, src, cp.color, df, piece_moves(b, src, cp, defend, df)),
        piece_moves(b, src, cp, defend, df).len() <= 48,
{
    match cp.piece {
        Piece::Pawn => lemma_pawn(b, src, cp.color, df),
        Piece::Knight => lemma_knight_upto(b, src, cp.color, df, 7),
        Piece::Bishop => {
            assert(forall|k: int| 0 <= k < 4 ==> step_dir(#[trigger] bishop_dirs()[k]));
            lemma_rays(b, src, cp.color, defend, df, bishop_dirs())
        },
        Piece::Rook => {
            assert(forall|k: int| 0 <= k < 4 ==> step_dir(#[trigger] rook_dirs()[k]));
            lemma_rays(b, src, cp.color, defend, df, rook_dirs())
        },
        Piece::Queen => {
            assert(forall|k: int| 0 <= k < 8 ==> step_dir(#[trigger] queen_dirs()[k]));
            lemma_rays(b, src, cp.color, defend, df, queen_dirs())
        },
        Piece::King => {
            assert(forall|k: int| 0 <= k < 8 ==> step_dir(#[trigger] queen_dirs()[k]));
            lemma_king_steps(b, src, cp.color, defend, df, queen_dirs());
            lemma_castle(b, src, cp.color, df);
            lemma_all_from_concat(b, src, cp.color, df, king_steps(b, src, cp.color, defend, df, queen_dirs()), castle_moves(b, src, cp.color, df));
        },
    }
}

proof fn lemma_moves_in_row(b: Board, color: Color, defend: bool, pf: PieceFilter, df: DstFilter, r: int, j: int)
    requires
        0 <= r < 8,
        j <= 8,
    ensures
        all_of_side(b, color, pf, df, moves_in_row(b, color, defend, pf, df, r, j)),
        moves_in_row(b, color, defend, pf, df, r, j).len() <= 48 * (if j < 0 { 0 } else { j }),
    decreases j,
{
    if j > 0 {
        lemma_moves_in_row(b, color, defend, pf, df, r, j - 1);
        let src = [r as i8, (j - 1) as i8];
        let here = square_moves(b, color, defend, pf, df, r, j - 1);
        if let Some(p) = b.at(r, j - 1) {
            lemma_piece_moves(b, src, p, defend, df);
        }
        assert(all_of_side(b, color, pf, df, here));
        lemma_all_of_side_concat(b, color, pf, df, moves_in_row(b, color, defend, pf, df, r, j - 1), here);
    }
}

proof fn lemma_moves_in_rows(b: Board, color: Color, defend: bool, pf: PieceFilter, df: DstFilter, i: int)
    requires
        i <= 8,
    ensures
        all_of_side(b, color, pf, df, moves_in_rows(b, color, defend, pf, df, i)),
        moves_in_rows(b, color, defend, pf, df, i).len() <= 384 * (if i < 0 { 0 } else { i }),
    decreases i,
{
    if i > 0 {
        lemma_moves_in_rows(b, color, defend, pf, df, i - 1);
        lemma_moves_in_row(b, color, defend, pf, df, i - 1, 8);
        lemma_all_of_side_concat(b, color, pf, df, moves_in_rows(b, color, defend, pf, df, i - 1), moves_in_row(b, color, defend, pf, df, i - 1, 8));
    }
}

/// Every move that a search finds is a move of a piece of the searching side that passes the
/// piece filter, lands on the board with its true destination state, and passes the
/// destination filter; a search finds at most 3072 moves.
pub proof fn lemma_all_moves(b: Board, color: Color, defend: bool, pf: PieceFilter, df: DstFilter)
    ensures
        all_of_side(b, color, pf, df, all_moves(b, color, defend, pf, df)),
        all_moves(b, color, defend, pf, df).len() <= 3072,
{
    lemma_moves_in_rows(b, color, defend, pf, df, 8);
}

// ---------------------------------------------------------------------------
// Filtered searches as filters of the full search
// ---------------------------------------------------------------------------

/// Keeps the moves whose destination state passes `df`.
pub open spec fn dst_pred(df: DstFilter) -> spec_fn(Move) -> bool {
    |m: Move| df.admits(m.dst_state)
}

/// Keeps the moves whose destination state passes `df` and, unless `defend`, that do not
/// land on an own piece.
pub open spec fn step_pred(defend: bool, df: DstFilter) -> spec_fn(Move) -> bool {
    |m: Move| df.admits(m.dst_state) && (defend || m.dst_state != DestinationState::Occupied)
}

/// Whether pieces of this kind reach own pieces only in a search with defended squares:
/// the pieces that move along lines, and the king.
pub open spec fn defends_by_line(p: Piece) -> bool {
    p == Piece::Bishop || p == Piece::Rook || p == Piece::Queen || p == Piece::King
}

/// What a search with `defend` and `df` keeps of the moves of a piece of kind `p`.
pub open spec fn piece_pred(p: Piece, defend: bool, df: DstFilter) -> spec_fn(Move) -> bool {
    if defends_by_line(p) {
        step_pred(defend, df)
    } else {
        dst_pred(df)
    }
}

/// What a search with `defend`, `pf` and `df` keeps of the moves of the full search.
pub open spec fn move_pred(b: Board, defend: bool, pf: PieceFilter, df: DstFilter) -> spec_fn(Move) -> bool {
    |m: Move|
        b.square(m.src) matches Some(p) && pf.admits(p.piece) && (piece_pred(p.piece, defend, df))(m)
}

/// Filters that agree on the elements of a sequence keep the same elements.
pub proof fn lemma_filter_same<A>(s: Seq<A>, p: spec_fn(A) -> bool, q: spec_fn(A) -> bool)
    requires
        forall|k: int| 0 <= k < s.len() ==> p(#[trigger] s[k]) == q(s[k]),
    ensures
        s.filter(p) == s.filter(q),
    decreases s.len(),
{
    reveal(Seq::filter);
    if s.len() > 0 {
        lemma_filter_same(s.drop_last(), p, q);
        assert(s.last() == s[s.len() - 1]);
    }
}

/// A filter that keeps no element of a sequence leaves nothing.
pub proof fn lemma_filter_none<A>(s: Seq<A>, p: spec_fn(A) -> bool)
    requires
        forall|k: int| 0 <= k < s.len() ==> !p(#[trigger] s[k]),
    ensures
        s.filter(p) == Seq::<A>::empty(),
    decreases s.len(),
{
    reveal(Seq::filter);
    if s.len() > 0 {
        lemma_filter_none(s.drop_last(), p);
        assert(s.last() == s[s.len() - 1]);
    }
}

/// Filtering twice keeps what both filters keep.
pub proof fn lemma_filter_filter<A>(s: Seq<A>, p: spec_fn(A) -> bool, q: spec_fn(A) -> bool)
    ensures
        s.filter(p).filter(q) == s.filter(|x: A| p(x) && q(x)),
    decreases s.len(),
{
    reveal(Seq::filter);
    if s.len() > 0 {
        lemma_filter_filter(s.drop_last(), p, q);
        let sub = s.drop_last().filter(p);
        if p(s.last()) {
            assert(sub.push(s.last()).drop_last() =~= sub);
        }
    }
}

proof fn lemma_filter_empty<A>(p: spec_fn(A) -> bool)
    ensures
        Seq::<A>::empty().filter(p) == Seq::<A>::empty(),
{
    reveal(Seq::filter);
}

proof fn lemma_filter_add<A>(a: Seq<A>, b: Seq<A>, p: spec_fn(A) -> bool)
    ensures
        (a + b).filter(p) == a.filter(p) + b.filter(p),
{
    Seq::filter_distributes_over_add(a, b, p);
}

proof fn lemma_filter_single(m: Move, p: spec_fn(Move) -> bool)
    ensures
        seq![m].filter(p) == if p(m) {
            seq![m]
        } else {
            Seq::<Move>::empty()
        },
{
    reveal(Seq::filter);
    let s = seq![m];
    assert(s.drop_last() =~= Seq::<Move>::empty());
    assert(s.drop_last().filter(p) =~= Seq::<Move>::empty());
    assert(s.last() == m);
    assert(Seq::<Move>::empty().push(m) =~= seq![m]);
}

proof fn lemma_emit_filtered(df: DstFilter, src: [i8; 2], d: [i8; 2], st: DestinationState, p: spec_fn(Move) -> bool)
    requires
        p(Move { src, dst: d, dst_state: st }) == df.admits(st),
    ensures
        emit(df, src, d, st) == emit(DstFilter::Any, src, d, st).filter(p),
{
    lemma_filter_single(Move { src, dst: d, dst_state: st }, p);
}

proof fn lemma_pawn_filtered(b: Board, src: [i8; 2], color: Color, df: DstFilter)
    ensures
        pawn_moves(b, src, color, df) == pawn_moves(b, src, color, DstFilter::Any).filter(dst_pred(df)),
{
    let p = dst_pred(df);
    let dir = pawn_dir(color);
    let one = [(src[0] + dir) as i8, src[1]];
    let two = [(src[0] + 2 * dir) as i8, src[1]];
    lemma_emit_filtered(df, src, one, DestinationState::Free, p);
    lemma_emit_filtered(df, src, two, DestinationState::Free, p);
    lemma_filter_empty(p);
    let fa = if dst_state(b, one, color) == DestinationState::Free {
        emit(DstFilter::Any, src, one, DestinationState::Free) + if src[0] == pawn_start_row(color)
            && dst_state(b, two, color) == DestinationState::Free {
            emit(DstFilter::Any, src, two, DestinationState::Free)
        } else {
            Seq::empty()
        }
    } else {
        Seq::empty()
    };
    if dst_state(b, one, color) == DestinationState::Free {
        let t = if src[0] == pawn_start_row(color) && dst_state(b, two, color) == DestinationState::Free {
            emit(DstFilter::Any, src, two, DestinationState::Free)
        } else {
            Seq::empty()
        };
        lemma_filter_add(emit(DstFilter::Any, src, one, DestinationState::Free), t, p);
    }
    let d0 = [(src[0] + dir) as i8, (src[1] + -1) as i8];
    let d1 = [(src[0] + dir) as i8, (src[1] + 1) as i8];
    lemma_emit_filtered(df, src, d0, dst_state(b, d0, color), p);
    lemma_emit_filtered(df, src, d1, dst_state(b, d1, color), p);
    let g0 = pawn_diag(b, src, color, DstFilter::Any, -1);
    let g1 = pawn_diag(b, src, color, DstFilter::Any, 1);
    lemma_filter_add(fa + g0, g1, p);
    lemma_filter_add(fa, g0, p);
}

proof fn lemma_knight_filtered(b: Board, src: [i8; 2], color: Color, df: DstFilter, n: int)
    requires
        0 <= n <= 8,
    ensures
        knight_moves_upto(b, src, color, df, n) == knight_moves_upto(b, src, color, DstFilter::Any, n).filter(
            dst_pred(df),
        ),
    decreases n,
{
    let p = dst_pred(df);
    if n <= 0 {
        lemma_filter_empty(p);
    } else {
        lemma_knight_filtered(b, src, color, df, n - 1);
        let i = n - 1;
        let d = [(src[0] + knight_dy()[i]) as i8, (src[1] + knight_dx()[i]) as i8];
        lemma_emit_filtered(df, src, d, dst_state(b, d, color), p);
        lemma_filter_empty(p);
        lemma_filter_add(
            knight_moves_upto(b, src, color, DstFilter::Any, n - 1),
            knight_jump(b, src, color, DstFilter::Any, n - 1),
            p,
        );
    }
}

proof fn lemma_ray_filtered(b: Board, src: [i8; 2], color: Color, defend: bool, df: DstFilter, dir: [i8; 2], i: int)
    ensures
        ray(b, src, color, defend, df, dir, i) == ray(b, src, color, true, DstFilter::Any, dir, i).filter(
            step_pred(defend, df),
        ),
    decreases 7 - i,
{
    let p = step_pred(defend, df);
    lemma_filter_empty(p);
    if !(i >= 7 || i < 1) {
        let d = [(src[0] + i * dir[0]) as i8, (src[1] + i * dir[1]) as i8];
        let st = dst_state(b, d, color);
        if !(st == DestinationState::Occupied && !defend) {
            lemma_emit_filtered(df, src, d, st, p);
        }
        if st == DestinationState::Free {
            lemma_ray_filtered(b, src, color, defend, df, dir, i + 1);
            lemma_filter_add(
                emit(DstFilter::Any, src, d, st),
                ray(b, src, color, true, DstFilter::Any, dir, i + 1),
                p,
            );
        } else if st == DestinationState::Occupied && !defend {
            lemma_filter_single(Move { src, dst: d, dst_state: st }, p);
        }
    }
}

proof fn lemma_rays_filtered(b: Board, src: [i8; 2], color: Color, defend: bool, df: DstFilter, dirs: Seq<[i8; 2]>)
    ensures
        rays(b, src, color, defend, df, dirs) == rays(b, src, color, true, DstFilter::Any, dirs).filter(
            step_pred(defend, df),
        ),
    decreases dirs.len(),
{
    let p = step_pred(defend, df);
    lemma_filter_empty(p);
    if dirs.len() > 0 {
        lemma_rays_filtered(b, src, color, defend, df, dirs.drop_last());
        lemma_ray_filtered(b, src, color, defend, df, dirs.last(), 1);
        lemma_filter_add(
            rays(b, src, color, true, DstFilter::Any, dirs.drop_last()),
            ray(b, src, color, true, DstFilter::Any, dirs.last(), 1),
            p,
        );
    }
}

proof fn lemma_king_steps_filtered(b: Board, src: [i8; 2], color: Color, defend: bool, df: DstFilter, dirs: Seq<[i8; 2]>)
    ensures
        king_steps(b, src, color, defend, df, dirs) == king_steps(b, src, color, true, DstFilter::Any, dirs).filter(
            step_pred(defend, df),
        ),
    decreases dirs.len(),
{
    let p = step_pred(defend, df);
    lemma_filter_empty(p);
    if dirs.len() > 0 {
        lemma_king_steps_filtered(b, src, color, defend, df, dirs.drop_last());
        let dir = dirs.last();
        let d = [(src[0] + dir[0]) as i8, (src[1] + dir[1]) as i8];
        let st = dst_state(b, d, color);
        if st == DestinationState::Occupied && !defend {
            lemma_filter_single(Move { src, dst: d, dst_state: st }, p);
        } else {
            lemma_emit_filtered(df, src, d, st, p);
        }
        lemma_filter_add(
            king_steps(b, src, color, true, DstFilter::Any, dirs.drop_last()),
            king_step(b, src, color, true, DstFilter::Any, dir),
            p,
        );
    }
}

proof fn lemma_castle_filtered(b: Board, src: [i8; 2], color: Color, defend: bool, df: DstFilter)
    ensures
        castle_moves(b, src, color, df) == castle_moves(b, src, color, DstFilter::Any).filter(
            step_pred(defend, df),
        ),
{
    let p = step_pred(defend, df);
    lemma_filter_empty(p);
    let p1 = [src[0], (src[1] + 1) as i8];
    let p2 = [src[0], (src[1] + 2) as i8];
    let q1 = [src[0], (src[1] + -1) as i8];
    let q2 = [src[0], (src[1] + 2 * -1) as i8];
    lemma_emit_filtered(df, src, p2, DestinationState::Free, p);
    lemma_emit_filtered(df, src, q2, DestinationState::Free, p);
    if src[1] == 4 {
        let row = if color == Color::White { 7int } else { 0int };
        let ks = if color == Color::White { b.castling.white_kingside } else { b.castling.black_kingside };
        let qs = if color == Color::White { b.castling.white_queenside } else { b.castling.black_queenside };
        let a = if ks && b.at(row, 7) is Some {
            castle_try(b, src, color, DstFilter::Any, 1)
        } else {
            Seq::empty()
        };
        let c = if qs && b.at(row, 0) is Some {
            castle_try(b, src, color, DstFilter::Any, -1)
        } else {
            Seq::empty()
        };
        lemma_filter_add(a, c, p);
    }
}

/// A piece's moves in a filtered search are its moves in the full search, filtered.
pub proof fn lemma_piece_moves_filtered(b: Board, src: [i8; 2], cp: ColoredPiece, defend: bool, df: DstFilter)
    ensures
        piece_moves(b, src, cp, defend, df) == piece_moves(b, src, cp, true, DstFilter::Any).filter(
            piece_pred(cp.piece, defend, df),
        ),
{
    match cp.piece {
        Piece::Pawn => lemma_pawn_filtered(b, src, cp.color, df),
        Piece::Knight => lemma_knight_filtered(b, src, cp.color, df, 7),
        Piece::Bishop => lemma_rays_filtered(b, src, cp.color, defend, df, bishop_dirs()),
        Piece::Rook => lemma_rays_filtered(b, src, cp.color, defend, df, rook_dirs()),
        Piece::Queen => lemma_rays_filtered(b, src, cp.color, defend, df, queen_dirs()),
        Piece::King => {
            lemma_king_steps_filtered(b, src, cp.color, defend, df, queen_dirs());
            lemma_castle_filtered(b, src, cp.color, defend, df);
            lemma_filter_add(
                king_steps(b, src, cp.color, true, DstFilter::Any, queen_dirs()),
                castle_moves(b, src, cp.color, DstFilter::Any),
                step_pred(defend, df),
            );
        },
    }
}

proof fn lemma_square_piece_filtered(
    b: Board,
    defend: bool,
    pf: PieceFilter,
    df: DstFilter,
    src: [i8; 2],
    p: ColoredPiece,
)
    requires
        on_board(src),
        b.square(src) == Some(p),
    ensures
        (if pf.admits(p.piece) {
            piece_moves(b, src, p, defend, df)
        } else {
            Seq::empty()
        }) == piece_moves(b, src, p, true, DstFilter::Any).filter(move_pred(b, defend, pf, df)),
{
    let q = move_pred(b, defend, pf, df);
    let full = piece_moves(b, src, p, true, DstFilter::Any);
    lemma_piece_moves(b, src, p, true, DstFilter::Any);
    lemma_piece_moves_filtered(b, src, p, defend, df);
    if pf.admits(p.piece) {
        assert forall|k: int| 0 <= k < full.len() implies (#[trigger] piece_pred(p.piece, defend, df)(full[k]))
            == q(full[k]) by {
            assert(move_from(b, src, p.color, DstFilter::Any, full[k]));
        }
        lemma_filter_same(full, piece_pred(p.piece, defend, df), q);
    } else {
        assert forall|k: int| 0 <= k < full.len() implies !q(#[trigger] full[k]) by {
            assert(move_from(b, src, p.color, DstFilter::Any, full[k]));
        }
        lemma_filter_none(full, q);
    }
}

proof fn lemma_square_filtered(b: Board, color: Color, defend: bool, pf: PieceFilter, df: DstFilter, r: int, c: int)
    requires
        0 <= r < 8,
        0 <= c < 8,
    ensures
        square_moves(b, color, defend, pf, df, r, c) == square_moves(
            b,
            color,
            true,
            PieceFilter::Any,
            DstFilter::Any,
            r,
            c,
        ).filter(move_pred(b, defend, pf, df)),
{
    lemma_filter_empty(move_pred(b, defend, pf, df));
    let src = [r as i8, c as i8];
    if let Some(p) = b.at(r, c) {
        if p.color == color {
            assert(b.square(src) == Some(p));
            lemma_square_piece_filtered(b, defend, pf, df, src, p);
        }
    }
}

proof fn lemma_row_filtered(b: Board, color: Color, defend: bool, pf: PieceFilter, df: DstFilter, r: int, j: int)
    requires
        0 <= r < 8,
        0 <= j <= 8,
    ensures
        moves_in_row(b, color, defend, pf, df, r, j) == moves_in_row(
            b,
            color,
            true,
            PieceFilter::Any,
            DstFilter::Any,
            r,
            j,
        ).filter(move_pred(b, defend, pf, df)),
    decreases j,
{
    let q = move_pred(b, defend, pf, df);
    lemma_filter_empty(q);
    if j > 0 {
        lemma_row_filtered(b, color, defend, pf, df, r, j - 1);
        lemma_square_filtered(b, color, defend, pf, df, r, j - 1);
        lemma_filter_add(
            moves_in_row(b, color, true, PieceFilter::Any, DstFilter::Any, r, j - 1),
            square_moves(b, color, true, PieceFilter::Any, DstFilter::Any, r, j - 1),
            q,
        );
    }
}

proof fn lemma_rows_filtered(b: Board, color: Color, defend: bool, pf: PieceFilter, df: DstFilter, i: int)
    requires
        0 <= i <= 8,
    ensures
        moves_in_rows(b, color, defend, pf, df, i) == moves_in_rows(
            b,
            color,
            true,
            PieceFilter::Any,
            DstFilter::Any,
            i,
        ).filter(move_pred(b, defend, pf, df)),
    decreases i,
{
    let q = move_pred(b, defend, pf, df);
    lemma_filter_empty(q);
    if i > 0 {
        lemma_rows_filtered(b, color, defend, pf, df, i - 1);
        lemma_row_filtered(b, color, defend, pf, df, i - 1, 8);
        lemma_filter_add(
            moves_in_rows(b, color, true, PieceFilter::Any, DstFilter::Any, i - 1),
            moves_in_row(b, color, true, PieceFilter::Any, DstFilter::Any, i - 1, 8),
            q,
        );
    }
}

/// Every search is the full search (all pieces, every destination, defended squares
/// included) filtered by `move_pred`, order kept.
pub proof fn lemma_all_moves_filtered(b: Board, color: Color, defend: bool, pf: PieceFilter, df: DstFilter)
    ensures
        all_moves(b, color, defend, pf, df) == all_moves(b, color, true, PieceFilter::Any, DstFilter::Any).filter(
            move_pred(b, defend, pf, df),
        ),
{
    lemma_rows_filtered(b, color, defend, pf, df, 8);
}

} // verus!

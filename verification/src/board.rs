use vstd::prelude::*;
use vstd::string::StringSliceAdditionalSpecFns;
use crate::move_generator::{
    DestinationState, DstFilter, MoveGenerator, PieceFilter, all_moves, dst_state, lemma_all_moves,
    move_of_side,
};
use crate::text::{digit_char, digit_str, push_i8, spec_i8_text};

verus! {

/// The two sides of a chess game.
#[derive(Debug, Clone, Copy, PartialEq, Eq, Structural)]
pub enum Color {
    White,
    Black,
}

/// The six kinds of chess pieces.
#[derive(Debug, Clone, Copy, PartialEq, Eq, Structural)]
pub enum Piece {
    Pawn,
    Knight,
    Bishop,
    Rook,
    Queen,
    King,
}

/// A piece together with the side it belongs to.
#[derive(Debug, Clone, Copy, PartialEq, Eq, Structural)]
pub struct ColoredPiece {
    pub color: Color,
    pub piece: Piece,
}

/// A move from `src` to `dst`; squares are `[row, column]`, row 0 being black's back rank.
#[derive(Debug, Clone, Copy, PartialEq, Eq)]
pub struct Move {
    pub src: [i8; 2],
    pub dst: [i8; 2],
    pub dst_state: DestinationState,
}

/// Which castling moves are still allowed.
#[derive(Debug, Clone, Copy, PartialEq, Eq, Structural)]
pub struct CastlingAbility {
    pub white_kingside: bool,
    pub white_queenside: bool,
    pub black_kingside: bool,
    pub black_queenside: bool,
}

/// An 8x8 board, the side to move and some game history.
#[derive(Debug, Clone, Copy)]
pub struct Board {
    pub arr: [[Option<ColoredPiece>; 8]; 8],
    /// Used to determine whose move it is.
    pub m: Color,
    pub last_move: Option<Move>,
    pub castling: CastlingAbility,
    pub castled: bool,
}

// ---------------------------------------------------------------------------
// Mathematical model
// ---------------------------------------------------------------------------

/// The material value of a piece kind.
pub open spec fn piece_value(p: Piece) -> int {
    match p {
        Piece::Pawn => 100,
        Piece::Knight => 300,
        Piece::Bishop => 300,
        Piece::Rook => 500,
        Piece::Queen => 900,
        Piece::King => 9000,
    }
}

pub open spec fn spec_opposite(c: Color) -> Color {
    match c {
        Color::White => Color::Black,
        Color::Black => Color::White,
    }
}

/// A square on the board.
pub open spec fn on_board(pos: [i8; 2]) -> bool {
    0 <= pos[0] < 8 && 0 <= pos[1] < 8
}

pub open spec fn same_square(a: [i8; 2], b: [i8; 2]) -> bool {
    a[0] == b[0] && a[1] == b[1]
}

/// The FEN letter of a piece: upper case for white, lower case for black.
pub open spec fn piece_letter(p: ColoredPiece) -> char {
    match (p.color, p.piece) {
        (Color::White, Piece::Pawn) => 'P',
        (Color::White, Piece::Knight) => 'N',
        (Color::White, Piece::Bishop) => 'B',
        (Color::White, Piece::Rook) => 'R',
        (Color::White, Piece::Queen) => 'Q',
        (Color::White, Piece::King) => 'K',
        (Color::Black, Piece::Pawn) => 'p',
        (Color::Black, Piece::Knight) => 'n',
        (Color::Black, Piece::Bishop) => 'b',
        (Color::Black, Piece::Rook) => 'r',
        (Color::Black, Piece::Queen) => 'q',
        (Color::Black, Piece::King) => 'k',
    }
}

pub open spec fn is_piece_letter(c: char) -> bool {
    c == 'P' || c == 'N' || c == 'B' || c == 'R' || c == 'Q' || c == 'K' || c == 'p' || c == 'n'
        || c == 'b' || c == 'r' || c == 'q' || c == 'k'
}

/// The piece named by a FEN letter.
pub open spec fn piece_of_letter(c: char) -> ColoredPiece {
    let color = if c == 'P' || c == 'N' || c == 'B' || c == 'R' || c == 'Q' || c == 'K' {
        Color::White
    } else {
        Color::Black
    };
    let piece = if c == 'P' || c == 'p' {
        Piece::Pawn
    } else if c == 'N' || c == 'n' {
        Piece::Knight
    } else if c == 'B' || c == 'b' {
        Piece::Bishop
    } else if c == 'R' || c == 'r' {
        Piece::Rook
    } else if c == 'Q' || c == 'q' {
        Piece::Queen
    } else {
        Piece::King
    };
    ColoredPiece { color, piece }
}

/// The chess symbol that the board printer shows for a piece. The white pawn
/// carries a text-presentation selector after the symbol.
pub open spec fn piece_symbol(p: ColoredPiece) -> Seq<char> {
    match (p.color, p.piece) {
        (Color::White, Piece::Pawn) => seq!['\u{265F}', '\u{FE0E}'],
        (Color::White, Piece::Knight) => seq!['\u{265E}'],
        (Color::White, Piece::Bishop) => seq!['\u{265D}'],
        (Color::White, Piece::Rook) => seq!['\u{265C}'],
        (Color::White, Piece::Queen) => seq!['\u{265B}'],
        (Color::White, Piece::King) => seq!['\u{265A}'],
        (Color::Black, Piece::Pawn) => seq!['\u{2659}'],
        (Color::Black, Piece::Knight) => seq!['\u{2658}'],
        (Color::Black, Piece::Bishop) => seq!['\u{2657}'],
        (Color::Black, Piece::Rook) => seq!['\u{2656}'],
        (Color::Black, Piece::Queen) => seq!['\u{2655}'],
        (Color::Black, Piece::King) => seq!['\u{2654}'],
    }
}

/// The single-character symbols that a pictured board may hold.
pub open spec fn is_piece_symbol(c: char) -> bool {
    '\u{2654}' <= c && c <= '\u{265F}'
}

/// The piece pictured by a single-character symbol.
pub open spec fn piece_of_symbol(c: char) -> ColoredPiece {
    let color = if c >= '\u{265A}' { Color::White } else { Color::Black };
    let k = if c >= '\u{265A}' { c as int - 0x265A } else { c as int - 0x2654 };
    let piece = if k == 5 {
        Piece::Pawn
    } else if k == 4 {
        Piece::Knight
    } else if k == 3 {
        Piece::Bishop
    } else if k == 2 {
        Piece::Rook
    } else if k == 1 {
        Piece::Queen
    } else {
        Piece::King
    };
    ColoredPiece { color, piece }
}

/// The text of a castling ability: `K`, `Q`, `k`, `q` for each right still held.
pub open spec fn castling_text(c: CastlingAbility) -> Seq<char> {
    (if c.white_kingside { seq!['K'] } else { Seq::empty() })
    + (if c.white_queenside { seq!['Q'] } else { Seq::empty() })
    + (if c.black_kingside { seq!['k'] } else { Seq::empty() })
    + (if c.black_queenside { seq!['q'] } else { Seq::empty() })
}

/// The castling ability read from a text: a right is held when its letter occurs.
pub open spec fn castling_of_text(s: Seq<char>) -> CastlingAbility {
    CastlingAbility {
        white_kingside: s.contains('K'),
        white_queenside: s.contains('Q'),
        black_kingside: s.contains('k'),
        black_queenside: s.contains('q'),
    }
}

/// The rook's part of a castling move of the king, for the four castling moves.
pub open spec fn castle_rook(src: [i8; 2], dst: [i8; 2]) -> Option<([i8; 2], [i8; 2])> {
    if src[0] == 0 && src[1] == 4 && dst[0] == 0 && dst[1] == 6 {
        Some(([0i8, 7i8], [0i8, 5i8]))
    } else if src[0] == 0 && src[1] == 4 && dst[0] == 0 && dst[1] == 2 {
        Some(([0i8, 0i8], [0i8, 3i8]))
    } else if src[0] == 7 && src[1] == 4 && dst[0] == 7 && dst[1] == 6 {
        Some(([7i8, 7i8], [7i8, 5i8]))
    } else if src[0] == 7 && src[1] == 4 && dst[0] == 7 && dst[1] == 2 {
        Some(([7i8, 0i8], [7i8, 3i8]))
    } else {
        None
    }
}

pub open spec fn abs_int(x: int) -> int {
    if x < 0 { -x } else { x }
}

impl Board {
    /// The content of square `(r, c)`.
    pub open spec fn at(self, r: int, c: int) -> Option<ColoredPiece> {
        self.arr[r][c]
    }

    pub open spec fn square(self, pos: [i8; 2]) -> Option<ColoredPiece> {
        self.arr[pos[0] as int][pos[1] as int]
    }

    /// The board with square `pos` replaced by `p`.
    pub open spec fn with_square(self, pos: [i8; 2], p: Option<ColoredPiece>) -> Board {
        Board {
            arr: vstd::array::spec_array_update(
                self.arr,
                pos[0] as int,
                vstd::array::spec_array_update(self.arr[pos[0] as int], pos[1] as int, p),
            ),
            ..self
        }
    }

    /// `m` moves a king two columns.
    pub open spec fn is_king_double_step(self, m: Move) -> bool {
        &&& self.square(m.src) matches Some(p)
        &&& p.piece == Piece::King
        &&& abs_int(m.src[1] - m.dst[1]) == 2
    }

    /// The inputs on which `play_move` does its work: both squares on the board, and a king
    /// that moves two columns makes one of the four castling moves.
    pub open spec fn can_play(self, m: Move) -> bool {
        &&& on_board(m.src)
        &&& on_board(m.dst)
        &&& self.is_king_double_step(m) ==> castle_rook(m.src, m.dst) is Some
    }

    /// The board after `m` is played: a castling king brings its rook along, a pawn that
    /// reaches the last row becomes a queen, any other piece moves (possibly capturing).
    pub open spec fn after_move(self, m: Move) -> Board {
        let p = self.square(m.src);
        if self.is_king_double_step(m) {
            let (rsrc, rdst) = castle_rook(m.src, m.dst)->0;
            let r = self.square(rsrc);
            let b = self.with_square(m.dst, p).with_square(m.src, None).with_square(rdst, r)
                .with_square(rsrc, None);
            Board { last_move: Some(m), castled: true, ..b }
        } else if p matches Some(cp) && cp.piece == Piece::Pawn && ((cp.color == Color::White
            && m.dst[0] == 0) || (cp.color == Color::Black && m.dst[0] == 7)) {
            let q = ColoredPiece { color: p->0.color, piece: Piece::Queen };
            let b = self.with_square(m.dst, Some(q)).with_square(m.src, None);
            Board { last_move: Some(m), ..b }
        } else {
            let b = self.with_square(m.dst, p).with_square(m.src, None);
            Board { last_move: Some(m), ..b }
        }
    }

    /// Number of occupied squares in row `r`, among columns `0..j`.
    pub open spec fn count_in_row(self, r: int, j: int) -> int
        decreases j,
    {
        if j <= 0 {
            0
        } else {
            self.count_in_row(r, j - 1) + if self.at(r, j - 1) is Some { 1int } else { 0int }
        }
    }

    /// Number of occupied squares in rows `0..i`.
    pub open spec fn count_in_rows(self, i: int) -> int
        decreases i,
    {
        if i <= 0 {
            0
        } else {
            self.count_in_rows(i - 1) + self.count_in_row(i - 1, 8)
        }
    }

    /// The number of pieces on the board.
    pub open spec fn piece_count(self) -> int {
        self.count_in_rows(8)
    }

    /// Where `get_piece_loc` stops: scanning row by row from square `(r, c)`, the first
    /// square that is empty or holds `piece`.
    pub open spec fn loc_from(self, piece: ColoredPiece, r: int, c: int) -> Option<[i8; 2]>
        decreases 8 - r, 8 - c,
    {
        if r >= 8 || r < 0 || c < 0 {
            None
        } else if c >= 8 {
            self.loc_from(piece, r + 1, 0)
        } else {
            match self.at(r, c) {
                None => None,
                Some(p) => if p == piece {
                    Some([r as i8, c as i8])
                } else {
                    self.loc_from(piece, r, c + 1)
                },
            }
        }
    }
}

/// The squares of the larger center, `[2..6) x [2..6)`, row by row.
pub open spec fn larger_center() -> Seq<[i8; 2]> {
    Seq::new(16, |k: int| [(2 + k / 4) as i8, (2 + k % 4) as i8])
}

/// The squares of the smaller center, `[3..5) x [3..5)`, row by row.
pub open spec fn smaller_center() -> Seq<[i8; 2]> {
    Seq::new(4, |k: int| [(3 + k / 2) as i8, (3 + k % 2) as i8])
}

/// The text `"(a,b) (c,d)"` of a move's two squares.
pub open spec fn move_text(m: Move) -> Seq<char> {
    seq!['('] + spec_i8_text(m.src[0] as int) + seq![','] + spec_i8_text(m.src[1] as int)
        + seq![')', ' ', '('] + spec_i8_text(m.dst[0] as int) + seq![','] + spec_i8_text(
        m.dst[1] as int,
    ) + seq![')']
}

pub open spec fn file_letter(c: int) -> char {
    ('a' as int + c) as char
}

pub open spec fn rank_digit(r: int) -> char {
    ('8' as int - r) as char
}

/// A square in algebraic notation, such as `e2`.
pub open spec fn square_text(pos: [i8; 2]) -> Seq<char> {
    seq![file_letter(pos[1] as int), rank_digit(pos[0] as int)]
}

pub open spec fn is_file_letter(c: char) -> bool {
    'a' <= c && c <= 'h'
}

pub open spec fn is_digit(c: char) -> bool {
    '0' <= c && c <= '9'
}

/// The square named by a file letter and a rank digit; rank digit `n` is row `8 - n`.
pub open spec fn square_of_text(f: char, d: char) -> [i8; 2] {
    [(8 - (d as int - '0' as int)) as i8, (f as int - 'a' as int) as i8]
}

// ---------------------------------------------------------------------------
// Free functions
// ---------------------------------------------------------------------------

/// Componentwise sum of two squares.
pub fn add(arr1: [i8; 2], arr2: [i8; 2]) -> (r: [i8; 2])
    requires
        i8::MIN <= arr1[0] + arr2[0] <= i8::MAX,
        i8::MIN <= arr1[1] + arr2[1] <= i8::MAX,
    ensures
        r[0] == arr1[0] + arr2[0],
        r[1] == arr1[1] + arr2[1],
{
    [arr1[0] + arr2[0], arr1[1] + arr2[1]]
}

// ---------------------------------------------------------------------------
// Colors and pieces
// ---------------------------------------------------------------------------

impl Color {
    pub fn opposite_color(&self) -> (r: Self)
        ensures
            r == spec_opposite(*self),
    {
        match self {
            Color::White => Color::Black,
            Color::Black => Color::White,
        }
    }

    pub fn to_str(&self) -> (s: &'static str)
        ensures
            s@ == seq![if *self == Color::White { 'w' } else { 'b' }],
    {
        match self {
            Color::White => {
                proof {
                    reveal_strlit("w");
                }
                "w"
            },
            Color::Black => {
                proof {
                    reveal_strlit("b");
                }
                "b"
            },
        }
    }

    /// Reads `"w"` or `"b"`.
    pub fn from_str(s: &str) -> (c: Self)
        requires
            s@ == seq!['w'] || s@ == seq!['b'],
        ensures
            c == (if s@ == seq!['w'] { Color::White } else { Color::Black }),
    {
        if s.get_char(0) == 'w' {
            Color::White
        } else {
            Color::Black
        }
    }
}

impl Piece {
    pub fn get_value(&self) -> (v: i32)
        ensures
            v == piece_value(*self),
    {
        match self {
            Piece::Pawn => 100,
            Piece::Knight => 300,
            Piece::Bishop => 300,
            Piece::Rook => 500,
            Piece::Queen => 900,
            Piece::King => 9000,
        }
    }

    /// The name of the piece kind, such as `"Knight"`.
    pub fn to_string(&self) -> (s: String)
        ensures
            s@ == piece_name(*self),
    {
        let mut s = String::new();
        match self {
            Piece::Pawn => {
                proof {
                    reveal_strlit("Pawn");
                }
                s.append("Pawn");
            },
            Piece::Knight => {
                proof {
                    reveal_strlit("Knight");
                }
                s.append("Knight");
            },
            Piece::Bishop => {
                proof {
                    reveal_strlit("Bishop");
                }
                s.append("Bishop");
            },
            Piece::Rook => {
                proof {
                    reveal_strlit("Rook");
                }
                s.append("Rook");
            },
            Piece::Queen => {
                proof {
                    reveal_strlit("Queen");
                }
                s.append("Queen");
            },
            Piece::King => {
                proof {
                    reveal_strlit("King");
                }
                s.append("King");
            },
        }
        s
    }
}

pub open spec fn piece_name(p: Piece) -> Seq<char> {
    match p {
        Piece::Pawn => seq!['P', 'a', 'w', 'n'],
        Piece::Knight => seq!['K', 'n', 'i', 'g', 'h', 't'],
        Piece::Bishop => seq!['B', 'i', 's', 'h', 'o', 'p'],
        Piece::Rook => seq!['R', 'o', 'o', 'k'],
        Piece::Queen => seq!['Q', 'u', 'e', 'e', 'n'],
        Piece::King => seq!['K', 'i', 'n', 'g'],
    }
}

pub open spec fn color_name(c: Color) -> Seq<char> {
    match c {
        Color::White => seq!['W', 'h', 'i', 't', 'e'],
        Color::Black => seq!['B', 'l', 'a', 'c', 'k'],
    }
}

impl ColoredPiece {
    pub fn get_value(&self) -> (v: i32)
        ensures
            v == piece_value(self.piece),
    {
        self.piece.get_value()
    }

    /// The name of the piece, such as `"White Knight"`.
    pub fn to_string(&self) -> (s: String)
        ensures
            s@ == color_name(self.color) + seq![' '] + piece_name(self.piece),
    {
        let mut s = String::new();
        match self.color {
            Color::White => {
                proof {
                    reveal_strlit("White ");
                }
                s.append("White ");
            },
            Color::Black => {
                proof {
                    reveal_strlit("Black ");
                }
                s.append("Black ");
            },
        }
        let name = self.piece.to_string();
        s.append(name.as_str());
        s
    }

    /// The symbol shown for the piece on a printed board.
    pub fn to_piece(&self) -> (s: &'static str)
        ensures
            s@ == piece_symbol(*self),
    {
        match (self.color, self.piece) {
            (Color::White, Piece::Pawn) => {
                proof {
                    reveal_strlit("♟︎");
                }
                "♟︎"
            },
            (Color::White, Piece::Knight) => {
                proof {
                    reveal_strlit("♞");
                }
                "♞"
            },
            (Color::White, Piece::Bishop) => {
                proof {
                    reveal_strlit("♝");
                }
                "♝"
            },
            (Color::White, Piece::Rook) => {
                proof {
                    reveal_strlit("♜");
                }
                "♜"
            },
            (Color::White, Piece::Queen) => {
                proof {
                    reveal_strlit("♛");
                }
                "♛"
            },
            (Color::White, Piece::King) => {
                proof {
                    reveal_strlit("♚");
                }
                "♚"
            },
            (Color::Black, Piece::Pawn) => {
                proof {
                    reveal_strlit("♙");
                }
                "♙"
            },
            (Color::Black, Piece::Knight) => {
                proof {
                    reveal_strlit("♘");
                }
                "♘"
            },
            (Color::Black, Piece::Bishop) => {
                proof {
                    reveal_strlit("♗");
                }
                "♗"
            },
            (Color::Black, Piece::Rook) => {
                proof {
                    reveal_strlit("♖");
                }
                "♖"
            },
            (Color::Black, Piece::Queen) => {
                proof {
                    reveal_strlit("♕");
                }
                "♕"
            },
            (Color::Black, Piece::King) => {
                proof {
                    reveal_strlit("♔");
                }
                "♔"
            },
        }
    }

    /// The piece named by a FEN letter.
    pub fn from_char(c: char) -> (p: Self)
        requires
            is_piece_letter(c),
        ensures
            p == piece_of_letter(c),
            piece_letter(p) == c,
    {
        let (color, piece) = match c {
            'P' => (Color::White, Piece::Pawn),
            'N' => (Color::White, Piece::Knight),
            'B' => (Color::White, Piece::Bishop),
            'R' => (Color::White, Piece::Rook),
            'Q' => (Color::White, Piece::Queen),
            'K' => (Color::White, Piece::King),
            'p' => (Color::Black, Piece::Pawn),
            'n' => (Color::Black, Piece::Knight),
            'b' => (Color::Black, Piece::Bishop),
            'r' => (Color::Black, Piece::Rook),
            'q' => (Color::Black, Piece::Queen),
            _ => (Color::Black, Piece::King),
        };
        ColoredPiece { color, piece }
    }

    /// The piece pictured by a one-symbol text.
    pub fn from_piece_str(p: &str) -> (r: Self)
        requires
            p@.len() == 1,
            is_piece_symbol(p@[0]),
        ensures
            r == piece_of_symbol(p@[0]),
    {
        Self::from_symbol(p.get_char(0))
    }

    fn from_symbol(c: char) -> (r: Self)
        requires
            is_piece_symbol(c),
        ensures
            r == piece_of_symbol(c),
    {
        let (color, piece) = match c {
            '♟' => (Color::White, Piece::Pawn),
            '♞' => (Color::White, Piece::Knight),
            '♝' => (Color::White, Piece::Bishop),
            '♜' => (Color::White, Piece::Rook),
            '♛' => (Color::White, Piece::Queen),
            '♚' => (Color::White, Piece::King),
            '♙' => (Color::Black, Piece::Pawn),
            '♘' => (Color::Black, Piece::Knight),
            '♗' => (Color::Black, Piece::Bishop),
            '♖' => (Color::Black, Piece::Rook),
            '♕' => (Color::Black, Piece::Queen),
            _ => (Color::Black, Piece::King),
        };
        ColoredPiece { color, piece }
    }

    /// The FEN letter of the piece.
    pub fn to_str(&self) -> (s: &'static str)
        ensures
            s@ == seq![piece_letter(*self)],
    {
        match (self.color, self.piece) {
            (Color::White, Piece::Pawn) => {
                proof {
                    reveal_strlit("P");
                }
                "P"
            },
            (Color::White, Piece::Knight) => {
                proof {
                    reveal_strlit("N");
                }
                "N"
            },
            (Color::White, Piece::Bishop) => {
                proof {
                    reveal_strlit("B");
                }
                "B"
            },
            (Color::White, Piece::Rook) => {
                proof {
                    reveal_strlit("R");
                }
                "R"
            },
            (Color::White, Piece::Queen) => {
                proof {
                    reveal_strlit("Q");
                }
                "Q"
            },
            (Color::White, Piece::King) => {
                proof {
                    reveal_strlit("K");
                }
                "K"
            },
            (Color::Black, Piece::Pawn) => {
                proof {
                    reveal_strlit("p");
                }
                "p"
            },
            (Color::Black, Piece::Knight) => {
                proof {
                    reveal_strlit("n");
                }
                "n"
            },
            (Color::Black, Piece::Bishop) => {
                proof {
                    reveal_strlit("b");
                }
                "b"
            },
            (Color::Black, Piece::Rook) => {
                proof {
                    reveal_strlit("r");
                }
                "r"
            },
            (Color::Black, Piece::Queen) => {
                proof {
                    reveal_strlit("q");
                }
                "q"
            },
            (Color::Black, Piece::King) => {
                proof {
                    reveal_strlit("k");
                }
                "k"
            },
        }
    }
}

// ---------------------------------------------------------------------------
// Castling ability
// ---------------------------------------------------------------------------

impl Default for CastlingAbility {
    fn default() -> (c: Self)
        ensures
            c == full_castling(),
    {
        CastlingAbility {
            white_kingside: true,
            white_queenside: true,
            black_kingside: true,
            black_queenside: true,
        }
    }
}

impl CastlingAbility {
    /// The text of the castling rights, such as `"KQkq"`.
    pub fn to_string(&self) -> (s: String)
        ensures
            s@ == castling_text(*self),
    {
        let mut s = String::new();
        if self.white_kingside {
            proof {
                reveal_strlit("K");
            }
            s.append("K");
        }
        if self.white_queenside {
            proof {
                reveal_strlit("Q");
            }
            s.append("Q");
        }
        if self.black_kingside {
            proof {
                reveal_strlit("k");
            }
            s.append("k");
        }
        if self.black_queenside {
            proof {
                reveal_strlit("q");
            }
            s.append("q");
        }
        s
    }
}

/// Whether the text holds the character.
fn text_contains(s: &str, c: char) -> (r: bool)
    ensures
        r == s@.contains(c),
{
    let n = s.unicode_len();
    let mut i: usize = 0;
    while i < n
        invariant
            n == s@.len(),
            i <= n,
            forall|k: int| 0 <= k < i ==> s@[k] != c,
        decreases n - i,
    {
        if s.get_char(i) == c {
            return true;
        }
        i = i + 1;
    }
    false
}

impl<'a> From<&'a str> for CastlingAbility {
    fn from(s: &'a str) -> (c: Self) {
        CastlingAbility {
            white_kingside: text_contains(s, 'K'),
            white_queenside: text_contains(s, 'Q'),
            black_kingside: text_contains(s, 'k'),
            black_queenside: text_contains(s, 'q'),
        }
    }
}

impl<'a> vstd::std_specs::convert::FromSpecImpl<&'a str> for CastlingAbility {
    open spec fn obeys_from_spec() -> bool {
        true
    }

    open spec fn from_spec(s: &'a str) -> Self {
        castling_of_text(s@)
    }
}


// ---------------------------------------------------------------------------
// Board
// ---------------------------------------------------------------------------

impl Board {
    pub fn in_bounds(pos: [i8; 2]) -> (r: bool)
        ensures
            r == on_board(pos),
    {
        0 <= pos[0] && pos[0] <= 7 && 0 <= pos[1] && pos[1] <= 7
    }

    pub fn get(&self, pos: [i8; 2]) -> (p: Option<ColoredPiece>)
        requires
            on_board(pos),
        ensures
            p == self.square(pos),
    {
        self.arr[pos[0] as usize][pos[1] as usize]
    }

    pub fn set(&mut self, pos: [i8; 2], p: Option<ColoredPiece>)
        requires
            on_board(pos),
        ensures
            *final(self) == old(self).with_square(pos, p),
    {
        broadcast use vstd::array::axiom_spec_array_update, vstd::array::axiom_array_ext_equal;

        let ghost before = *self;
        self.arr[pos[0] as usize][pos[1] as usize] = p;
        assert(self.arr[pos[0] as int] =~= vstd::array::spec_array_update(
            before.arr[pos[0] as int],
            pos[1] as int,
            p,
        ));
        assert(self.arr =~= before.with_square(pos, p).arr);
    }

    pub fn count_pieces(&self) -> (n: i32)
        ensures
            n == self.piece_count(),
            0 <= n <= 64,
    {
        let mut count: i32 = 0;
        for i in 0..8usize
            invariant
                count == self.count_in_rows(i as int),
                0 <= count <= 8 * i,
        {
            for j in 0..8usize
                invariant
                    i < 8,
                    count == self.count_in_rows(i as int) + self.count_in_row(i as int, j as int),
                    0 <= count <= 8 * i + j,
            {
                if self.arr[i][j].is_some() {
                    count = count + 1;
                }
            }
        }
        count
    }

    pub fn get_larger_center() -> (spaces: Vec<[i8; 2]>)
        ensures
            spaces@.len() == 16,
            forall|k: int|
                0 <= k < 16 ==> #[trigger] spaces@[k][0] == 2 + k / 4 && spaces@[k][1] == 2 + k % 4,
    {
        let mut spaces: Vec<[i8; 2]> = Vec::new();
        for i in 2..6i8
            invariant
                spaces@.len() == 4 * (i - 2),
                forall|k: int|
                    0 <= k < spaces@.len() ==> #[trigger] spaces@[k][0] == 2 + k / 4
                        && spaces@[k][1] == 2 + k % 4,
        {
            for j in 2..6i8
                invariant
                    2 <= i < 6,
                    spaces@.len() == 4 * (i - 2) + (j - 2),
                    forall|k: int|
                        0 <= k < spaces@.len() ==> #[trigger] spaces@[k][0] == 2 + k / 4
                            && spaces@[k][1] == 2 + k % 4,
            {
                spaces.push([i, j]);
            }
        }
        spaces
    }

    pub fn get_smaller_center() -> (spaces: Vec<[i8; 2]>)
        ensures
            spaces@.len() == 4,
            forall|k: int|
                0 <= k < 4 ==> #[trigger] spaces@[k][0] == 3 + k / 2 && spaces@[k][1] == 3 + k % 2,
    {
        let mut spaces: Vec<[i8; 2]> = Vec::new();
        for i in 3..5i8
            invariant
                spaces@.len() == 2 * (i - 3),
                forall|k: int|
                    0 <= k < spaces@.len() ==> #[trigger] spaces@[k][0] == 3 + k / 2
                        && spaces@[k][1] == 3 + k % 2,
        {
            for j in 3..5i8
                invariant
                    3 <= i < 5,
                    spaces@.len() == 2 * (i - 3) + (j - 3),
                    forall|k: int|
                        0 <= k < spaces@.len() ==> #[trigger] spaces@[k][0] == 3 + k / 2
                            && spaces@[k][1] == 3 + k % 2,
            {
                spaces.push([i, j]);
            }
        }
        spaces
    }

    /// Scans the board row by row and stops at the first square that is empty or holds
    /// `piece`: the square in the latter case, `None` in the former.
    pub fn get_piece_loc(&self, piece: ColoredPiece) -> (r: Option<[i8; 2]>)
        ensures
            r == self.loc_from(piece, 0, 0),
    {
        for i in 0..8usize
            invariant
                self.loc_from(piece, i as int, 0) == self.loc_from(piece, 0, 0),
        {
            for j in 0..8usize
                invariant
                    i < 8,
                    self.loc_from(piece, i as int, j as int) == self.loc_from(piece, 0, 0),
            {
                match self.arr[i][j] {
                    Some(p) => {
                        if p.piece == piece.piece {
                            if p.color == piece.color {
                                return Some([i as i8, j as i8]);
                            }
                        }
                    },
                    None => return None,
                }
            }
            assert(self.loc_from(piece, i as int, 8) == self.loc_from(piece, i + 1, 0));
        }
        None
    }

    /// The rook's part of one of the four castling moves. It takes `&mut self` as callers
    /// hold the board mutably; the board is left unchanged.
    pub fn find_castle_rook_move(&mut self, king_move: Move) -> (r: Move)
        requires
            castle_rook(king_move.src, king_move.dst) is Some,
        ensures
            *final(self) == *old(self),
            castle_rook(king_move.src, king_move.dst) == Some((r.src, r.dst)),
            r.dst_state == DestinationState::Free,
    {
        let s = king_move.src;
        let d = king_move.dst;
        if s[0] == 0 && s[1] == 4 && d[0] == 0 && d[1] == 6 {
            Move { src: [0, 7], dst: [0, 5], dst_state: DestinationState::Free }
        } else if s[0] == 0 && s[1] == 4 && d[0] == 0 && d[1] == 2 {
            Move { src: [0, 0], dst: [0, 3], dst_state: DestinationState::Free }
        } else if s[0] == 7 && s[1] == 4 && d[0] == 7 && d[1] == 6 {
            Move { src: [7, 7], dst: [7, 5], dst_state: DestinationState::Free }
        } else {
            Move { src: [7, 0], dst: [7, 3], dst_state: DestinationState::Free }
        }
    }

    /// Whether `play_move` can play `m`; see `can_play`.
    pub fn can_play_move(&self, m: Move) -> (r: bool)
        ensures
            r == self.can_play(m),
    {
        if !(Board::in_bounds(m.src) && Board::in_bounds(m.dst)) {
            return false;
        }
        if let Some(ColoredPiece { color: _, piece: Piece::King }) = self.get(m.src) {
            let diff: i8 = m.src[1] - m.dst[1];
            if diff == 2 || diff == -2 {
                let s = m.src;
                let d = m.dst;
                return (s[0] == 0 && s[1] == 4 && d[0] == 0 && (d[1] == 6 || d[1] == 2)) || (s[0] == 7
                    && s[1] == 4 && d[0] == 7 && (d[1] == 6 || d[1] == 2));
            }
        }
        true
    }

    /// Plays `m`: castling moves the rook too, a pawn reaching the last row is promoted to a
    /// queen, and the move is recorded as the last move.
    pub fn play_move(&mut self, m: Move)
        requires
            old(self).can_play(m),
        ensures
            *final(self) == old(self).after_move(m),
    {
        let p = self.get(m.src);
        // castling
        if let Some(ColoredPiece { color: _, piece: Piece::King }) = p {
            let diff: i8 = m.src[1] - m.dst[1];
            if diff == 2 || diff == -2 {
                let rook = self.find_castle_rook_move(m);
                let r = self.get(rook.src);
                self.set(m.dst, p);
                self.set(m.src, None);
                self.last_move = Some(m);
                self.set(rook.dst, r);
                self.set(rook.src, None);
                self.last_move = Some(m);
                self.castled = true;
                return;
            }
        }
        // promotion

        if let Some(cp) = p {
            if cp.piece == Piece::Pawn {
                if cp.color == Color::White {
                    if m.dst[0] == 0 {
                        let promote = ColoredPiece { color: Color::White, piece: Piece::Queen };
                        self.set(m.dst, Some(promote));
                        self.set(m.src, None);
                        self.last_move = Some(m);
                        return;
                    }
                } else {
                    if m.dst[0] == 7 {
                        let promote = ColoredPiece { color: Color::Black, piece: Piece::Queen };
                        self.set(m.dst, Some(promote));
                        self.set(m.src, None);
                        self.last_move = Some(m);
                        return;
                    }
                }
            }
        }
        self.set(m.dst, p);
        self.set(m.src, None);
        self.last_move = Some(m);
    }
}


// ---------------------------------------------------------------------------
// Moves
// ---------------------------------------------------------------------------

impl Move {
    /// What `dst` holds for a piece of `player_color`.
    pub fn get_dst_state(b: &Board, dst: [i8; 2], player_color: Color) -> (s: DestinationState)
        ensures
            s == dst_state(*b, dst, player_color),
    {
        if !Board::in_bounds(dst) {
            return DestinationState::OutOfBounds;
        }
        match b.get(dst) {
            Some(ColoredPiece { color, .. }) => {
                if color != player_color {
                    DestinationState::Capturable
                } else {
                    DestinationState::Occupied
                }
            },
            None => DestinationState::Free,
        }
    }

    /// Reads a move such as `"e2e4"`: two squares in algebraic notation.
    pub fn chess_notation_to_move(m: &str) -> (r: Self)
        requires
            m@.len() >= 4,
            is_file_letter(m@[0]),
            is_digit(m@[1]),
            is_file_letter(m@[2]),
            is_digit(m@[3]),
        ensures
            r.src == square_of_text(m@[0], m@[1]),
            r.dst == square_of_text(m@[2], m@[3]),
            r.dst_state == DestinationState::Free,
    {
        let first_half = m.substring_char(0, 2);
        let second_half = m.substring_char(2, 4);
        let s = Self::parse_move_str(first_half);
        let d = Self::parse_move_str(second_half);
        return Self { src: s, dst: d, dst_state: DestinationState::Free };  //user parsing move
    }

    /// Whether the king on `src` moves two rows.
    pub fn is_castle(&self, b: &Board) -> (r: bool)
        requires
            on_board(self.src),
            b.square(self.src) is Some,
            -127 <= self.src[0] - self.dst[0] <= 127,
        ensures
            r == (b.square(self.src)->0.piece == Piece::King && abs_int(self.src[0] - self.dst[0]) == 2),
    {
        let p = b.get(self.src).unwrap();
        if p.piece == Piece::King {
            let diff: i8 = self.src[0] - self.dst[0];
            if diff == 2 || diff == -2 {
                return true;
            }
        }
        false
    }

    /// Whether the two moves have the same text, that is the same squares.
    pub fn equal(m1: &Move, m2: &Move) -> (r: bool)
        ensures
            r == (move_text(*m1) == move_text(*m2)),
    {
        if m1.to_string() == m2.to_string() {
            return true;
        }
        false
    }

    /// The square named by a file letter and a rank digit, such as `"e2"`.
    pub fn parse_move_str(m: &str) -> (arr: [i8; 2])
        requires
            m@.len() >= 2,
            is_file_letter(m@[0]),
            is_digit(m@[1]),
        ensures
            arr == square_of_text(m@[0], m@[1]),
    {
        let mut arr: [i8; 2] = [-1, -1];
        let f = m.get_char(0);
        arr[1] = (f as u32 - 'a' as u32) as i8;
        let num: i8 = (m.get_char(1) as u32 - '0' as u32) as i8;
        let fix: i8 = 8 - num;
        arr[0] = fix;
        assert(arr@ =~= square_of_text(m@[0], m@[1])@);
        arr
    }

    /// The text `"(a,b) (c,d)"` of the move's squares.
    pub fn to_string(&self) -> (s: String)
        ensures
            s@ == move_text(*self),
    {
        let mut s = String::new();
        proof {
            reveal_strlit("(");
            reveal_strlit(",");
            reveal_strlit(") (");
            reveal_strlit(")");
        }
        s.append("(");
        push_i8(&mut s, self.src[0]);
        s.append(",");
        push_i8(&mut s, self.src[1]);
        s.append(") (");
        push_i8(&mut s, self.dst[0]);
        s.append(",");
        push_i8(&mut s, self.dst[1]);
        s.append(")");
        assert(s@ =~= move_text(*self));
        s
    }

    /// The move in algebraic notation, such as `"e2e4"`.
    pub fn to_move_string(&self) -> (s: String)
        requires
            on_board(self.src),
            on_board(self.dst),
        ensures
            s@ == square_text(self.src) + square_text(self.dst),
    {
        let mut s = String::new();
        push_square(&mut s, self.src);
        push_square(&mut s, self.dst);
        s
    }
}

/// Appends a square in algebraic notation.
fn push_square(s: &mut String, square: [i8; 2])
    requires
        on_board(square),
    ensures
        final(s)@ == old(s)@ + square_text(square),
{
    let files: [&str; 8] = ["a", "b", "c", "d", "e", "f", "g", "h"];
    let ranks: [&str; 8] = ["8", "7", "6", "5", "4", "3", "2", "1"];
    proof {
        reveal_strlit("a");
        reveal_strlit("b");
        reveal_strlit("c");
        reveal_strlit("d");
        reveal_strlit("e");
        reveal_strlit("f");
        reveal_strlit("g");
        reveal_strlit("h");
        reveal_strlit("8");
        reveal_strlit("7");
        reveal_strlit("6");
        reveal_strlit("5");
        reveal_strlit("4");
        reveal_strlit("3");
        reveal_strlit("2");
        reveal_strlit("1");
    }
    let f = files[square[1] as usize];
    let r = ranks[square[0] as usize];
    assert(f@ == seq![file_letter(square[1] as int)]);
    assert(r@ == seq![rank_digit(square[0] as int)]);
    s.append(f);
    s.append(r);
    assert(final(s)@ =~= old(s)@ + square_text(square));
}


// ---------------------------------------------------------------------------
// Attacks, defences and evaluation
// ---------------------------------------------------------------------------

/// The kinds of the pieces that make the moves of `ms` that land on `pos`, in order.
pub open spec fn pieces_onto(b: Board, ms: Seq<Move>, pos: [i8; 2]) -> Seq<Piece>
    decreases ms.len(),
{
    if ms.len() == 0 {
        Seq::empty()
    } else {
        pieces_onto(b, ms.drop_last(), pos) + if same_square(ms.last().dst, pos) {
            seq![b.square(ms.last().src)->0.piece]
        } else {
            Seq::empty()
        }
    }
}

impl Board {
    /// The opposing captures that land on `pos`.
    pub open spec fn attacks_on(self, pos: [i8; 2]) -> Seq<Move> {
        all_moves(
            self,
            spec_opposite(self.square(pos)->0.color),
            false,
            PieceFilter::Any,
            DstFilter::OnlyCapturable,
        )
    }

    /// The pieces of the opponent of the piece on `pos` that can capture it.
    pub open spec fn attackers(self, pos: [i8; 2]) -> Seq<Piece> {
        pieces_onto(self, self.attacks_on(pos), pos)
    }

    /// The moves of the side of the piece on `pos` onto its own pieces.
    pub open spec fn defences_of(self, pos: [i8; 2]) -> Seq<Move> {
        all_moves(self, self.square(pos)->0.color, true, PieceFilter::Any, DstFilter::OnlyOccupied)
    }

    /// The pieces of the same side that defend the piece on `pos`.
    pub open spec fn defenders(self, pos: [i8; 2]) -> Seq<Piece> {
        pieces_onto(self, self.defences_of(pos), pos)
    }
}

/// The pieces in `ms` collected by `pieces_onto`, built move by move.
fn collect_onto(b: &Board, ms: &Vec<Move>, pos: [i8; 2], Ghost(color): Ghost<Color>, Ghost(pf): Ghost<PieceFilter>, Ghost(df): Ghost<DstFilter>) -> (r: (Vec<Piece>, i32))
    requires
        ms@.len() <= 3072,
        forall|k: int| 0 <= k < ms@.len() ==> move_of_side(*b, color, pf, df, #[trigger] ms@[k]),
    ensures
        r.0@ == pieces_onto(*b, ms@, pos),
        r.1 == r.0@.len(),
{
    let mut pieces: Vec<Piece> = Vec::new();
    let mut n: i32 = 0;
    for k in 0..ms.len()
        invariant
            ms@.len() <= 3072,
            forall|k: int| 0 <= k < ms@.len() ==> move_of_side(*b, color, pf, df, #[trigger] ms@[k]),
            pieces@ == pieces_onto(*b, ms@.subrange(0, k as int), pos),
            n == pieces@.len(),
            n <= k,
    {
        let m = ms[k];
        assert(move_of_side(*b, color, pf, df, ms@[k as int]));
        if m.dst[0] == pos[0] && m.dst[1] == pos[1] {
            pieces.push(b.get(m.src).unwrap().piece);
            n = n + 1;
        }
        assert(ms@.subrange(0, k + 1).drop_last() =~= ms@.subrange(0, k as int));
        assert(pieces@ =~= pieces_onto(*b, ms@.subrange(0, k + 1), pos));
    }
    assert(ms@.subrange(0, ms@.len() as int) =~= ms@);
    (pieces, n)
}

impl Board {
    /// The opposing pieces that can capture the piece on `pos`, and how many there are.
    pub fn is_attacked(&self, pos: [i8; 2]) -> (r: (Vec<Piece>, i32))
        requires
            on_board(pos),
            self.square(pos) is Some,
        ensures
            r.0@ == self.attackers(pos),
            r.1 == self.attackers(pos).len(),
            0 <= r.1 <= 3072,
    {
        let p = self.get(pos).unwrap();
        let ms = MoveGenerator::get_moves_with_predicates(
            self,
            p.color.opposite_color(),
            false,
            PieceFilter::Any,
            DstFilter::OnlyCapturable,
        );
        proof {
            lemma_all_moves(*self, spec_opposite(p.color), false, PieceFilter::Any, DstFilter::OnlyCapturable);
            lemma_pieces_onto_len(*self, ms@, pos);
        }
        collect_onto(self, &ms, pos, Ghost(spec_opposite(p.color)), Ghost(PieceFilter::Any), Ghost(DstFilter::OnlyCapturable))
    }

    /// The pieces of the same side that defend the piece on `pos`, and how many there are.
    pub fn is_defended(&self, pos: [i8; 2]) -> (r: (Vec<Piece>, i32))
        requires
            on_board(pos),
            self.square(pos) is Some,
        ensures
            r.0@ == self.defenders(pos),
            r.1 == self.defenders(pos).len(),
            0 <= r.1 <= 3072,
    {
        let p = self.get(pos).unwrap();
        let ms = MoveGenerator::get_moves_with_predicates(
            self,
            p.color,
            true,
            PieceFilter::Any,
            DstFilter::OnlyOccupied,
        );
        proof {
            lemma_all_moves(*self, p.color, true, PieceFilter::Any, DstFilter::OnlyOccupied);
            lemma_pieces_onto_len(*self, ms@, pos);
        }
        collect_onto(self, &ms, pos, Ghost(p.color), Ghost(PieceFilter::Any), Ghost(DstFilter::OnlyOccupied))
    }
}

proof fn lemma_pieces_onto_len(b: Board, ms: Seq<Move>, pos: [i8; 2])
    ensures
        pieces_onto(b, ms, pos).len() <= ms.len(),
    decreases ms.len(),
{
    if ms.len() > 0 {
        lemma_pieces_onto_len(b, ms.drop_last(), pos);
    }
}


/// The squares on which `get_pawn_value` is defined: the row fits the score formula, and a
/// pawn on rows 1 to 6 stands on a column from which the scan stays on the board.
pub open spec fn pawn_scan_ok(pos: [i8; 2]) -> bool {
    &&& -12 <= pos[0] <= 12
    &&& 0 < pos[0] < 7 ==> 0 <= pos[1] <= 8
}

/// How many rows the passed-pawn scan visits: from the pawn's row towards the last row,
/// stopping before rows 0 and 7.
pub open spec fn pawn_scan_rows(row: int, c: Color) -> int {
    if 0 < row < 7 {
        if c == Color::White {
            row
        } else {
            7 - row
        }
    } else {
        0
    }
}

/// The square looked at in the `k`-th row of the scan: each row one column further left,
/// never left of column 0.
pub open spec fn pawn_scan_square(pos: [i8; 2], c: Color, k: int) -> (int, int) {
    let row = if c == Color::White {
        pos[0] - k
    } else {
        pos[0] + k
    };
    let col = if pos[1] - k - 1 > 0 {
        pos[1] - k - 1
    } else {
        0
    };
    (row, col)
}

pub open spec fn is_opposing_pawn(sq: Option<ColoredPiece>, c: Color) -> bool {
    sq matches Some(p) && p.piece == Piece::Pawn && p.color == spec_opposite(c)
}

/// No opposing pawn on the scanned squares.
pub open spec fn is_passed_pawn(b: Board, pos: [i8; 2], c: Color) -> bool {
    forall|k: int|
        0 <= k < pawn_scan_rows(pos[0] as int, c) ==> !is_opposing_pawn(
            #[trigger] b.at(pawn_scan_square(pos, c, k).0, pawn_scan_square(pos, c, k).1),
            c,
        )
}

/// A pawn's score: row score, plus 100 in the endgame (fewer than 12 pieces), doubled for a
/// passed pawn. The row score of a white pawn is `7 - 10 * row`, of a black pawn `10 * row`.
pub open spec fn pawn_value(b: Board, pos: [i8; 2], c: Color) -> int {
    let base = if c == Color::White {
        7 - pos[0] * 10
    } else {
        pos[0] * 10
    };
    let v = base + if b.piece_count() < 12 {
        100int
    } else {
        0int
    };
    if is_passed_pawn(b, pos, c) {
        2 * v
    } else {
        v
    }
}

/// The value of the first piece in `attackers` worth less than `v`.
pub open spec fn first_cheaper(attackers: Seq<Piece>, v: int) -> Option<int>
    decreases attackers.len(),
{
    if attackers.len() == 0 {
        None
    } else if piece_value(attackers[0]) < v {
        Some(piece_value(attackers[0]))
    } else {
        first_cheaper(attackers.drop_first(), v)
    }
}

/// The value of `p` standing on `pos`: its material (plus the pawn score), a tenth more when
/// more pieces attack than defend it, nothing when it hangs undefended, and when defended by
/// more than attack it, the value of its first attacker worth less, if any.
pub open spec fn relative_value(b: Board, p: ColoredPiece, pos: [i8; 2]) -> int {
    let v0 = piece_value(p.piece) + if p.piece == Piece::Pawn {
        pawn_value(b, pos, p.color)
    } else {
        0
    };
    let na = b.attackers(pos).len();
    let nd = b.defenders(pos).len();
    let v1 = if na > nd {
        v0 + piece_value(p.piece) / 10
    } else {
        v0
    };
    if na > 0 && nd == 0 {
        0
    } else if na < nd {
        match first_cheaper(b.attackers(pos), piece_value(p.piece)) {
            Some(a) => a,
            None => v1,
        }
    } else {
        v1
    }
}

/// The running sums of `evaluate`: white score, black score, white bishops, black bishops.
pub open spec fn eval_step(s: (int, int, int, int), b: Board, r: int, c: int) -> (int, int, int, int) {
    match b.at(r, c) {
        Some(p) => if p.color == Color::White {
            let w = s.0 + relative_value(b, p, [r as i8, c as i8]);
            let wb = s.2 + if p.piece == Piece::Bishop {
                1int
            } else {
                0int
            };
            (w + if wb == 2 {
                10int
            } else {
                0int
            }, s.1, wb, s.3)
        } else {
            let bl = s.1 - relative_value(b, p, [r as i8, c as i8]);
            let bb = s.3 + if p.piece == Piece::Bishop {
                1int
            } else {
                0int
            };
            (s.0, bl + if bb == 2 {
                10int
            } else {
                0int
            }, s.2, bb)
        },
        None => s,
    }
}

/// The running sums after rows `0..i`.
pub open spec fn eval_rows(b: Board, i: int) -> (int, int, int, int)
    decreases i, 10int,
{
    if i <= 0 {
        (0, 0, 0, 0)
    } else {
        eval_row(b, i - 1, 8)
    }
}

/// The running sums after rows `0..r` and columns `0..j` of row `r`.
pub open spec fn eval_row(b: Board, r: int, j: int) -> (int, int, int, int)
    decreases r + 1, if j < 0 { 0 } else { j + 1 },
{
    if j <= 0 {
        if r <= 0 {
            (0, 0, 0, 0)
        } else {
            eval_rows(b, r)
        }
    } else {
        eval_step(eval_row(b, r, j - 1), b, r, j - 1)
    }
}

/// The evaluation of the board from white's side: white's relative values minus black's, and
/// 10 for each piece of a side counted while that side has seen exactly two bishops.
pub open spec fn evaluation(b: Board) -> int {
    eval_rows(b, 8).0 + eval_rows(b, 8).1
}

/// The kinds of the pieces captured by the moves of `ms` that are themselves attacked.
pub open spec fn attacked_from(b: Board, ms: Seq<Move>) -> Seq<Piece>
    decreases ms.len(),
{
    if ms.len() == 0 {
        Seq::empty()
    } else {
        attacked_from(b, ms.drop_last()) + match b.square(ms.last().dst) {
            Some(p) => if b.attackers(ms.last().dst).len() > 0 {
                seq![p.piece]
            } else {
                Seq::empty()
            },
            None => Seq::empty(),
        }
    }
}

impl Board {
    pub fn get_pawn_value(&self, pos: [i8; 2], c: Color) -> (v: i32)
        requires
            pawn_scan_ok(pos),
        ensures
            v == pawn_value(*self, pos, c),
            -254 <= v <= 454,
    {
        let mut value: i32 = 0;
        let mut y: i8 = pos[0];
        let mut x: i8 = pos[1];
        let mut passed_pawn = true;
        let dir: i8 = if c == Color::White {
            -1
        } else {
            1
        };
        let ghost mut k: int = 0;
        // Checks if pawn is a passed pawn by looking from its pos "up" on its rows for opposite pawn
        while y > 0 && y < 7
            invariant
                pawn_scan_ok(pos),
                dir == (if c == Color::White { -1int } else { 1int }),
                0 <= k,
                y == (if c == Color::White { pos[0] - k } else { pos[0] + k }),
                0 < pos[0] < 7 ==> k <= pawn_scan_rows(pos[0] as int, c),
                !(0 < pos[0] < 7) ==> k == 0,
                (0 < y < 7) ==> k < pawn_scan_rows(pos[0] as int, c),
                !(0 < y < 7) ==> k == pawn_scan_rows(pos[0] as int, c),
                (0 < y < 7) ==> x == (if pos[1] - k > 0 { pos[1] - k } else { 0 }),
                passed_pawn == (forall|kk: int|
                    0 <= kk < k ==> !is_opposing_pawn(
                        #[trigger] self.at(pawn_scan_square(pos, c, kk).0, pawn_scan_square(pos, c, kk).1),
                        c,
                    )),
            decreases if c == Color::White { y as int } else { 7 - y },
        {
            // look one column further left, but not beyond column 0
            if x != 0 {
                x = x - 1;
            }
            assert(y as int == pawn_scan_square(pos, c, k).0 && x as int == pawn_scan_square(pos, c, k).1);
            let ghost was_passed = passed_pawn;
            let ghost seen = self.at(pawn_scan_square(pos, c, k).0, pawn_scan_square(pos, c, k).1);
            if let Some(ColoredPiece { color, piece }) = self.arr[y as usize][x as usize] {
                if piece == Piece::Pawn && color == c.opposite_color() {
                    passed_pawn = false;
                }
            }
            // the same square again for the second column offset
            if let Some(ColoredPiece { color, piece }) = self.arr[y as usize][x as usize] {
                if piece == Piece::Pawn && color == c.opposite_color() {
                    passed_pawn = false;
                }
            }
            assert(passed_pawn == (was_passed && !is_opposing_pawn(seen, c)));
            y = y + dir;
            proof {
                k = k + 1;
            }
        }
        assert(passed_pawn == is_passed_pawn(*self, pos, c));
        // Pawn value increases as it moves up the board
        // They also become important in the endgame
        // Extra points assigned if its a passed pawn
        let mut is_endgame = false;
        if self.count_pieces() < 12 {
            is_endgame = true;
        }
        if c == Color::White {
            value = value + (7 - pos[0] * 10) as i32;
        } else {
            value = value + (pos[0] * 10) as i32;
        }
        if is_endgame {
            value = value + 100;
        }
        if passed_pawn {
            value = value * 2;
        }
        value
    }
}


proof fn lemma_first_cheaper_skip(s: Seq<Piece>, v: int, k: int)
    requires
        0 <= k <= s.len(),
        forall|kk: int| 0 <= kk < k ==> piece_value(#[trigger] s[kk]) >= v,
    ensures
        first_cheaper(s, v) == first_cheaper(s.skip(k), v),
    decreases k,
{
    if k > 0 {
        assert(s.skip(1) =~= s.drop_first());
        lemma_first_cheaper_skip(s.drop_first(), v, k - 1);
        assert(s.drop_first().skip(k - 1) =~= s.skip(k));
    } else {
        assert(s.skip(0) =~= s);
    }
}

proof fn lemma_first_cheaper_bounds(s: Seq<Piece>, v: int)
    ensures
        first_cheaper(s, v) matches Some(a) ==> 100 <= a <= 9000,
    decreases s.len(),
{
    if s.len() > 0 {
        lemma_first_cheaper_bounds(s.drop_first(), v);
    }
}

/// The value of the first attacker worth less than `v`.
fn first_cheaper_of(attackers: &Vec<Piece>, v: i32) -> (r: Option<i32>)
    ensures
        r matches Some(a) ==> first_cheaper(attackers@, v as int) == Some(a as int),
        r is None ==> first_cheaper(attackers@, v as int) is None,
        r matches Some(a) ==> 100 <= a <= 9000,
{
    proof {
        lemma_first_cheaper_bounds(attackers@, v as int);
    }
    for k in 0..attackers.len()
        invariant
            forall|kk: int| 0 <= kk < k ==> piece_value(#[trigger] attackers@[kk]) >= v,
    {
        let attacker = attackers[k];
        if attacker.get_value() < v {
            proof {
                lemma_first_cheaper_skip(attackers@, v as int, k as int);
            }
            return Some(attacker.get_value());
        }
    }
    proof {
        lemma_first_cheaper_skip(attackers@, v as int, attackers@.len() as int);
    }
    None
}

impl Board {
    /// The value of `p` standing on `pos`, weighing its attackers and defenders.
    pub fn get_relative_value(&self, p: ColoredPiece, pos: [i8; 2]) -> (v: i32)
        requires
            on_board(pos),
            self.square(pos) is Some,
        ensures
            v == relative_value(*self, p, pos),
            -200 <= v <= 10000,
    {
        let mut value: i32 = 0;
        // Value of piece
        value = value + p.get_value();
        if p.piece == Piece::Pawn {
            value = value + self.get_pawn_value(pos, p.color);
        }
        let (attackers, num_attackers) = self.is_attacked(pos);
        let (_, num_defenders) = self.is_defended(pos);
        // Pieces that are fortified and take up opponents attacks are somewhat valuable
        if num_attackers > num_defenders {
            value = value + p.get_value() / 10;
        }
        // Hanging pieces are worthless unless moved or defended.
        if num_attackers > 0 && num_defenders == 0 {
            value = 0;
        }
        // If the piece is capturable by something worth less than it, it's hanging
        // And can only be worth as much as its least valuable attacker
        else if num_attackers < num_defenders {
            if let Some(cheaper) = first_cheaper_of(&attackers, p.get_value()) {
                value = cheaper;
                return value;
            }
        }
        // The more space a player has the better
        // Open files, connected rooks
        // Pinned pieces
        // Open kings
        value
    }

    /// The static evaluation of the position from white's side.
    pub fn evaluate(&self) -> (score: i32)
        ensures
            score == evaluation(*self),
    {
        let mut white_score: i32 = 0;
        let mut black_score: i32 = 0;
        let mut white_bishop_pair: i32 = 0;
        let mut black_bishop_pair: i32 = 0;
        for i in 0..8usize
            invariant
                (white_score as int, black_score as int, white_bishop_pair as int, black_bishop_pair as int)
                    == eval_rows(*self, i as int),
                -10010 * (8 * i) <= white_score <= 10010 * (8 * i),
                -10010 * (8 * i) <= black_score <= 10010 * (8 * i),
                0 <= white_bishop_pair <= 8 * i,
                0 <= black_bishop_pair <= 8 * i,
        {
            for j in 0..8usize
                invariant
                    i < 8,
                    (white_score as int, black_score as int, white_bishop_pair as int, black_bishop_pair as int)
                        == eval_row(*self, i as int, j as int),
                    -10010 * (8 * i + j) <= white_score <= 10010 * (8 * i + j),
                    -10010 * (8 * i + j) <= black_score <= 10010 * (8 * i + j),
                    0 <= white_bishop_pair <= 8 * i + j,
                    0 <= black_bishop_pair <= 8 * i + j,
            {
                match self.arr[i][j] {
                    Some(p) => {
                        if p.color == Color::White {
                            white_score = white_score + self.get_relative_value(p, [i as i8, j as i8]);
                            if p.piece == Piece::Bishop {
                                white_bishop_pair = white_bishop_pair + 1;
                            }
                            if white_bishop_pair == 2 {
                                white_score = white_score + 10;
                            }
                        } else {
                            black_score = black_score - self.get_relative_value(p, [i as i8, j as i8]);
                            if p.piece == Piece::Bishop {
                                black_bishop_pair = black_bishop_pair + 1;
                            }
                            if black_bishop_pair == 2 {
                                black_score = black_score + 10;
                            }
                        }
                    },
                    None => {},
                }
            }
        }
        white_score + black_score
    }

    /// The kinds of the pieces that `attacker_color` can capture and that are attacked.
    pub fn get_attacked_pieces(&self, attacker_color: Color) -> (r: Vec<Piece>)
        ensures
            r@ == attacked_from(*self, all_moves(*self, attacker_color, false, PieceFilter::Any, DstFilter::NotOccupied)),
    {
        let mut attacked_pieces: Vec<Piece> = Vec::new();
        let ms = MoveGenerator::get_moves(self, attacker_color);
        proof {
            lemma_all_moves(*self, attacker_color, false, PieceFilter::Any, DstFilter::NotOccupied);
        }
        for k in 0..ms.len()
            invariant
                ms@ == all_moves(*self, attacker_color, false, PieceFilter::Any, DstFilter::NotOccupied),
                forall|kk: int| 0 <= kk < ms@.len() ==> move_of_side(*self, attacker_color, PieceFilter::Any, DstFilter::NotOccupied, #[trigger] ms@[kk]),
                attacked_pieces@ == attacked_from(*self, ms@.subrange(0, k as int)),
        {
            let m = ms[k];
            assert(move_of_side(*self, attacker_color, PieceFilter::Any, DstFilter::NotOccupied, ms@[k as int]));
            let p = self.get(m.dst);
            if let Some(p) = p {
                let (_, attackers) = self.is_attacked(m.dst);
                if attackers > 0 {
                    attacked_pieces.push(p.piece);
                }
            }
            assert(ms@.subrange(0, k + 1).drop_last() =~= ms@.subrange(0, k as int));
            assert(attacked_pieces@ =~= attacked_from(*self, ms@.subrange(0, k + 1)));
        }
        assert(ms@.subrange(0, ms@.len() as int) =~= ms@);
        attacked_pieces
    }
}


/// Replacing one square changes only that square.
pub proof fn lemma_with_square(b: Board, pos: [i8; 2], p: Option<ColoredPiece>, q: [i8; 2])
    requires
        on_board(pos),
        on_board(q),
    ensures
        b.with_square(pos, p).square(q) == if same_square(pos, q) {
            p
        } else {
            b.square(q)
        },
        b.with_square(pos, p).m == b.m,
        b.with_square(pos, p).castling == b.castling,
{
    broadcast use vstd::array::axiom_spec_array_update;

}

/// After a move of a piece to another square, the destination holds a piece.
pub proof fn lemma_after_move_dst(b: Board, m: Move)
    requires
        b.can_play(m),
        b.square(m.src) is Some,
        !same_square(m.src, m.dst),
    ensures
        b.after_move(m).square(m.dst) is Some,
        b.after_move(m).m == b.m,
{
    let p = b.square(m.src);
    if b.is_king_double_step(m) {
        let (rsrc, rdst) = castle_rook(m.src, m.dst)->0;
        let r = b.square(rsrc);
        let b1 = b.with_square(m.dst, p);
        let b2 = b1.with_square(m.src, None);
        let b3 = b2.with_square(rdst, r);
        lemma_with_square(b, m.dst, p, m.dst);
        lemma_with_square(b1, m.src, None, m.dst);
        lemma_with_square(b2, rdst, r, m.dst);
        lemma_with_square(b3, rsrc, None, m.dst);
        lemma_with_square(b, m.dst, p, m.dst);
    } else if p matches Some(cp) && cp.piece == Piece::Pawn && ((cp.color == Color::White && m.dst[0]
        == 0) || (cp.color == Color::Black && m.dst[0] == 7)) {
        let q = ColoredPiece { color: p->0.color, piece: Piece::Queen };
        lemma_with_square(b, m.dst, Some(q), m.dst);
        lemma_with_square(b.with_square(m.dst, Some(q)), m.src, None, m.dst);
    } else {
        lemma_with_square(b, m.dst, p, m.dst);
        lemma_with_square(b.with_square(m.dst, p), m.src, None, m.dst);
    }
}


/// All four castling rights.
pub open spec fn full_castling() -> CastlingAbility {
    CastlingAbility {
        white_kingside: true,
        white_queenside: true,
        black_kingside: true,
        black_queenside: true,
    }
}

/// The square `(i, j)` of a board drawn as text: each row is 16 characters, a piece letter or
/// `.` every other character.
pub open spec fn drawn_cell(s: Seq<char>, i: int, j: int) -> Option<ColoredPiece> {
    let ch = s[16 * i + 2 * j];
    if ch == '.' {
        None
    } else {
        Some(piece_of_letter(ch))
    }
}

/// The square `(i, j)` of a board drawn with piece symbols.
pub open spec fn pictured_cell(s: Seq<char>, i: int, j: int) -> Option<ColoredPiece> {
    let ch = s[16 * i + 2 * j];
    if ch == '.' {
        None
    } else {
        Some(piece_of_symbol(ch))
    }
}

/// A board drawn as text: at least 127 characters, and each square is `.` or a piece letter.
pub open spec fn is_drawn_board(s: Seq<char>) -> bool {
    &&& s.len() >= 127
    &&& forall|i: int, j: int|
        0 <= i < 8 && 0 <= j < 8 ==> #[trigger] s[16 * i + 2 * j] == '.' || is_piece_letter(
            s[16 * i + 2 * j],
        )
}

/// A board drawn with piece symbols: each square is `.` or a one-character piece symbol.
pub open spec fn is_pictured_board(s: Seq<char>) -> bool {
    &&& s.len() >= 127
    &&& forall|i: int, j: int|
        0 <= i < 8 && 0 <= j < 8 ==> #[trigger] s[16 * i + 2 * j] == '.' || is_piece_symbol(
            s[16 * i + 2 * j],
        )
}

impl Board {
    /// Reads a board drawn as text, 128 bytes, with `c` to move and all castling rights.
    pub fn from_str(sboard: &str, c: Color) -> (b: Self)
        requires
            sboard.spec_bytes().len() == 8 * 16,
            is_drawn_board(sboard@),
        ensures
            forall|i: int, j: int|
                0 <= i < 8 && 0 <= j < 8 ==> #[trigger] b.at(i, j) == drawn_cell(sboard@, i, j),
            b.m == c,
            b.last_move is None,
            b.castling == full_castling(),
            !b.castled,
    {
        let mut board: [[Option<ColoredPiece>; 8]; 8] = [[None; 8]; 8];
        for i in 0..8usize
            invariant
                is_drawn_board(sboard@),
                forall|r: int, k: int|
                    0 <= r < 8 && 0 <= k < 8 ==> #[trigger] board[r][k] == if r < i {
                        drawn_cell(sboard@, r, k)
                    } else {
                        None
                    },
        {
            for j in 0..8usize
                invariant
                    i < 8,
                    is_drawn_board(sboard@),
                    forall|r: int, k: int|
                        0 <= r < 8 && 0 <= k < 8 ==> #[trigger] board[r][k] == if r < i || (r
                            == i && k < j) {
                            drawn_cell(sboard@, r, k)
                        } else {
                            None
                        },
            {
                let index = 16 * i + 2 * j;
                let ch = sboard.get_char(index);
                assert(ch == '.' || is_piece_letter(ch)) by {
                    assert(sboard@[16 * (i as int) + 2 * (j as int)] == '.' || is_piece_letter(sboard@[16 * (i as int) + 2 * (j as int)]));
                }
                if ch != '.' {
                    board[i][j] = Some(ColoredPiece::from_char(ch));
                }
            }
        }
        let castling = CastlingAbility::default();
        Self { arr: board, m: c, last_move: None, castling, castled: false }
    }

    /// Reads a board drawn with piece symbols, with `c` to move and all castling rights.
    pub fn from_str_piece(sboard: &str, c: Color) -> (b: Self)
        requires
            is_pictured_board(sboard@),
        ensures
            forall|i: int, j: int|
                0 <= i < 8 && 0 <= j < 8 ==> #[trigger] b.at(i, j) == pictured_cell(sboard@, i, j),
            b.m == c,
            b.last_move is None,
            b.castling == full_castling(),
            !b.castled,
    {
        let mut board: [[Option<ColoredPiece>; 8]; 8] = [[None; 8]; 8];
        for i in 0..8usize
            invariant
                is_pictured_board(sboard@),
                forall|r: int, k: int|
                    0 <= r < 8 && 0 <= k < 8 ==> #[trigger] board[r][k] == if r < i {
                        pictured_cell(sboard@, r, k)
                    } else {
                        None
                    },
        {
            for j in 0..8usize
                invariant
                    i < 8,
                    is_pictured_board(sboard@),
                    forall|r: int, k: int|
                        0 <= r < 8 && 0 <= k < 8 ==> #[trigger] board[r][k] == if r < i || (r
                            == i && k < j) {
                            pictured_cell(sboard@, r, k)
                        } else {
                            None
                        },
            {
                let index = 16 * i + 2 * j;
                let ch = sboard.get_char(index);
                assert(ch == '.' || is_piece_symbol(ch)) by {
                    assert(sboard@[16 * (i as int) + 2 * (j as int)] == '.' || is_piece_symbol(sboard@[16 * (i as int) + 2 * (j as int)]));
                }
                if ch != '.' {
                    board[i][j] = Some(ColoredPiece::from_symbol(ch));
                }
            }
        }
        let castling = CastlingAbility::default();
        Self { arr: board, m: c, last_move: None, castling, castled: false }
    }
}

} // verus!

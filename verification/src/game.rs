//! A game played by the engine against itself, one turn at a time.
use vstd::prelude::*;
use crate::board::{Board, Color, Move, Piece, on_board, spec_opposite, square_text};
use crate::engine::{
    alpha_beta, alpha_beta_safe, best_move, book_move, book_moves, book_ok, get_best_move,
    get_best_move_alpha_beta, search_safe,
};

verus! {

/// The score window an alpha-beta search of a whole turn starts from.
pub open spec fn full_window() -> (int, int) {
    (-10000000, 10000000)
}

/// A game in progress.
pub struct Game {
    pub board: Board,
    /// The side whose turn it is.
    pub side: Color,
    /// Whether moves are still taken from the opening book.
    pub use_book: bool,
    /// The number of moves played so far.
    pub move_number: usize,
    /// The moves played so far, each in algebraic notation followed by a space.
    pub move_history: String,
}

/// What a turn did.
#[derive(Debug)]
pub enum Turn {
    /// The book had no move: it is put aside for the rest of the game.
    LeftBook,
    /// No move was found: the game is over.
    NoMove,
    /// A move was played. When it ended on an occupied square, `contest` holds the numbers
    /// of attackers and defenders of that square before the move, and `king_taken` tells
    /// whether the piece taken there was a king.
    Played { m: Move, contest: Option<(i32, i32)>, king_taken: bool },
}

/// The move chosen for a turn of the scored search: the book's while it is used, else the
/// best move searching `depth` plies.
pub open spec fn scored_choice(g: Game, lines: Seq<&str>, depth: int) -> Option<Move> {
    if g.use_book {
        book_move(g.move_history@, lines, g.move_number as int)
    } else {
        match best_move(g.board, g.side, depth) {
            Some(r) => Some(r.0),
            None => None,
        }
    }
}

/// The inputs on which the scored choice can be made: a book that can be read while it is
/// used, and a search in which every line of play can be played.
pub open spec fn scored_choice_ok(g: Game, lines: Seq<&str>, depth: int) -> bool {
    &&& depth >= 0
    &&& g.use_book ==> book_ok(g.move_history@, lines, g.move_number as int)
    &&& !g.use_book ==> search_safe(g.board, g.side, depth)
}

/// The move the alpha-beta search over `depth` plies returns for the side to move, starting
/// from the full window and no move.
pub open spec fn alpha_beta_choice(g: Game, depth: int) -> Option<Move> {
    alpha_beta(g.board, depth, full_window().0, full_window().1, g.side, None).1
}

/// What a turn that plays `m` reports about its destination square, seen before the move.
pub open spec fn contest_of(b: Board, m: Move) -> Option<(i32, i32)> {
    if b.square(m.dst) is Some {
        Some((b.attackers(m.dst).len() as i32, b.defenders(m.dst).len() as i32))
    } else {
        None
    }
}

/// Whether the move takes a king.
pub open spec fn takes_king(b: Board, m: Move) -> bool {
    b.square(m.dst) matches Some(p) && p.piece == Piece::King
}

impl Game {
    /// A game from `board` with `side` to move; no move played yet.
    pub fn new(board: Board, side: Color, use_book: bool) -> (g: Game)
        ensures
            g.board == board,
            g.side == side,
            g.use_book == use_book,
            g.move_number == 0,
            g.move_history@ == Seq::<char>::empty(),
    {
        Game { board, side, use_book, move_number: 0, move_history: String::new() }
    }

    /// The move for this turn: the book's move while the book is used, else the best move of
    /// the scored search over `depth` plies.
    pub fn choose_move(&self, lines: &Vec<&str>, depth: i8) -> (r: Option<Move>)
        requires
            scored_choice_ok(*self, lines@, depth as int),
        ensures
            r == scored_choice(*self, lines@, depth as int),
    {
        if self.use_book {
            book_moves(self.move_history.as_str(), lines, self.move_number)
        } else {
            match get_best_move(&self.board, self.side, depth) {
                Some((m, _)) => Some(m),
                None => None,
            }
        }
    }

    /// The move for this turn from the alpha-beta search over `depth` plies.
    pub fn choose_move_alpha_beta(&self, depth: i8) -> (r: Option<Move>)
        requires
            depth >= 0,
            alpha_beta_safe(self.board, depth as int, full_window().0, full_window().1, self.side),
        ensures
            r == alpha_beta_choice(*self, depth as int),
    {
        let (_, m) = get_best_move_alpha_beta(&self.board, depth, -10000000, 10000000, self.side, None);
        m
    }

    /// Plays the turn with the move chosen for it. Without a move, a game that still uses the
    /// book puts it aside, and any other game is over. With a move, the move is played, written
    /// to the history, and the other side is to move.
    pub fn take_turn(&mut self, m: Option<Move>) -> (t: Turn)
        requires
            m matches Some(mv) ==> old(self).board.can_play(mv),
            m is Some ==> old(self).move_number < usize::MAX,
        ensures
            match m {
                None => {
                    &&& final(self).board == old(self).board
                    &&& final(self).side == old(self).side
                    &&& final(self).move_number == old(self).move_number
                    &&& final(self).move_history@ == old(self).move_history@
                    &&& !final(self).use_book
                    &&& if old(self).use_book {
                        t is LeftBook
                    } else {
                        t is NoMove
                    }
                },
                Some(mv) => {
                    &&& t == Turn::Played {
                        m: mv,
                        contest: contest_of(old(self).board, mv),
                        king_taken: takes_king(old(self).board, mv),
                    }
                    &&& final(self).board == old(self).board.after_move(mv)
                    &&& final(self).side == spec_opposite(old(self).side)
                    &&& final(self).use_book == old(self).use_book
                    &&& final(self).move_number == old(self).move_number + 1
                    &&& final(self).move_history@ == old(self).move_history@ + square_text(mv.src)
                        + square_text(mv.dst) + seq![' ']
                },
            },
    {
        match m {
            None => {
                let was_book = self.use_book;
                self.use_book = false;
                if was_book {
                    Turn::LeftBook
                } else {
                    Turn::NoMove
                }
            },
            Some(mv) => {
                let mut contest: Option<(i32, i32)> = None;
                let mut king_taken = false;
                if let Some(p) = self.board.get(mv.dst) {
                    let (_, attackers) = self.board.is_attacked(mv.dst);
                    let (_, defenders) = self.board.is_defended(mv.dst);
                    contest = Some((attackers, defenders));
                    if p.piece == Piece::King {
                        king_taken = true;
                    }
                }
                self.board.play_move(mv);
                let text = mv.to_move_string();
                self.move_history.append(text.as_str());
                proof {
                    reveal_strlit(" ");
                }
                self.move_history.append(" ");
                self.move_number = self.move_number + 1;
                self.side = self.side.opposite_color();
                Turn::Played { m: mv, contest, king_taken }
            },
        }
    }
}

} // verus!

//! The picture of a board that is shown to a player.
use vstd::prelude::*;
use crate::board::{Board, Color, ColoredPiece, piece_symbol};
use crate::fen::start_board;
use crate::text::{digit_char, digit_str};

verus! {

/// The line of column numbers above and below the picture.
pub open spec fn column_numbers() -> Seq<char> {
    seq![' ', ' ', '0', ' ', '1', ' ', '2', ' ', '3', ' ', '4', ' ', '5', ' ', '6', ' ', '7', '\n']
}

/// A square of the picture: the piece's symbol, or a dot, and a space.
pub open spec fn picture_cell(c: Option<ColoredPiece>) -> Seq<char> {
    match c {
        Some(p) => piece_symbol(p) + seq![' '],
        None => seq!['.', ' '],
    }
}

/// The squares of a row, from column 0.
pub open spec fn picture_cells(row: Seq<Option<ColoredPiece>>) -> Seq<char>
    decreases row.len(),
{
    if row.len() == 0 {
        Seq::empty()
    } else {
        picture_cells(row.drop_last()) + picture_cell(row.last())
    }
}

/// Rows `0..i` of the picture, each between its number.
pub open spec fn picture_rows(b: Board, i: int) -> Seq<char>
    decreases i,
{
    if i <= 0 {
        Seq::empty()
    } else {
        picture_rows(b, i - 1) + seq![digit_char(i - 1), ' '] + picture_cells(b.arr[i - 1]@)
            + seq![digit_char(i - 1), '\n']
    }
}

/// The whole picture: the rows framed by column numbers, then the side to move.
pub open spec fn picture_text(b: Board) -> Seq<char> {
    column_numbers() + picture_rows(b, 8) + column_numbers() + seq!['S', 'i', 'd', 'e', ':', ' ']
        + seq![
        if b.m == Color::White {
            'w'
        } else {
            'b'
        },
    ] + seq!['\n']
}

impl Board {
    /// The picture of the board, one line per row, as a player is shown it.
    pub fn picture(&self) -> (s: String)
        ensures
            s@ == picture_text(*self),
    {
        let header = "  0 1 2 3 4 5 6 7\n";
        proof {
            reveal_strlit("  0 1 2 3 4 5 6 7\n");
            reveal_strlit(" ");
            reveal_strlit(". ");
            reveal_strlit("\n");
            reveal_strlit("Side: ");
            assert(header@ =~= column_numbers());
        }
        let mut s = String::new();
        s.append(header);
        for i in 0..8usize
            invariant
                s@ == column_numbers() + picture_rows(*self, i as int),
        {
            proof {
                reveal_strlit(" ");
                reveal_strlit(". ");
                reveal_strlit("\n");
            }
            let ghost row = self.arr[i as int]@;
            let ghost before = s@;
            s.append(digit_str(i as u8));
            s.append(" ");
            let ghost lead = before + seq![digit_char(i as int), ' '];
            assert(s@ =~= lead);
            assert(row.subrange(0, 0) =~= Seq::<Option<ColoredPiece>>::empty());
            assert(s@ =~= lead + picture_cells(row.subrange(0, 0)));
            for j in 0..8usize
                invariant
                    i < 8,
                    row == self.arr[i as int]@,
                    s@ == lead + picture_cells(row.subrange(0, j as int)),
            {
                proof {
                    reveal_strlit(" ");
                    reveal_strlit(". ");
                }
                let ghost done = row.subrange(0, j as int);
                assert(row.subrange(0, j + 1).drop_last() =~= done);
                assert(row.subrange(0, j + 1).last() == self.arr[i as int][j as int]);
                let cell = self.arr[i][j];
                match cell {
                    Some(p) => {
                        s.append(p.to_piece());
                        s.append(" ");
                    },
                    None => {
                        s.append(". ");
                    },
                }
                assert(s@ =~= lead + picture_cells(done) + picture_cell(cell));
            }
            assert(row.subrange(0, 8) =~= row);
            s.append(digit_str(i as u8));
            s.append("\n");
            assert(s@ =~= before + seq![digit_char(i as int), ' '] + picture_cells(row) + seq![
                digit_char(i as int),
                '\n',
            ]);
            assert(s@ =~= column_numbers() + picture_rows(*self, i + 1));
        }
        s.append(header);
        s.append("Side: ");
        s.append(self.m.to_str());
        s.append("\n");
        assert(s@ =~= picture_text(*self));
        s
    }

    /// The picture of a new game's board.
    pub fn print_new_game() -> (s: String)
        ensures
            s@ == picture_text(start_board()),
    {
        Board::new().picture()
    }
}

} // verus!

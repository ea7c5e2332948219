//! Forsyth-Edwards notation: reading and writing positions.
use vstd::prelude::*;
use crate::board::{
    Board, CastlingAbility, Color, ColoredPiece, castling_of_text, castling_text, is_digit,
    is_piece_letter, piece_letter, piece_of_letter,
};
use crate::text::{digit_char, digit_str};

verus! {

// ---------------------------------------------------------------------------
// Writing
// ---------------------------------------------------------------------------

/// The FEN text of a row, `counter` empty squares pending before it: piece letters, and
/// runs of empty squares written as their count.
pub open spec fn rank_text(row: Seq<Option<ColoredPiece>>, counter: int) -> Seq<char>
    decreases row.len(),
{
    let pending = if counter != 0 {
        seq![digit_char(counter)]
    } else {
        Seq::empty()
    };
    if row.len() == 0 {
        pending
    } else {
        match row[0] {
            Some(p) => pending + seq![piece_letter(p)] + rank_text(row.drop_first(), 0),
            None => rank_text(row.drop_first(), counter + 1),
        }
    }
}

/// The placement of rows `0..i`, each row followed by `/`.
pub open spec fn placement_text(b: Board, i: int) -> Seq<char>
    decreases i,
{
    if i <= 0 {
        Seq::empty()
    } else {
        placement_text(b, i - 1) + rank_text(b.arr[i - 1]@, 0) + seq!['/']
    }
}

/// The text `to_fen` writes: the placement, the side to move and the castling rights.
pub open spec fn fen_text(b: Board) -> Seq<char> {
    placement_text(b, 8) + seq![' '] + seq![
        if b.m == Color::White {
            'w'
        } else {
            'b'
        },
    ] + seq![' '] + castling_text(b.castling)
}

/// The characters a written row is made of: digits and piece letters.
pub proof fn lemma_rank_text_chars(row: Seq<Option<ColoredPiece>>, counter: int)
    requires
        0 <= counter,
        counter + row.len() <= 9,
    ensures
        forall|k: int|
            0 <= k < rank_text(row, counter).len() ==> is_digit(#[trigger] rank_text(row, counter)[k])
                || is_piece_letter(rank_text(row, counter)[k]),
    decreases row.len(),
{
    let t = rank_text(row, counter);
    let pending = if counter != 0 {
        seq![digit_char(counter)]
    } else {
        Seq::empty()
    };
    assert(forall|k: int| 0 <= k < pending.len() ==> is_digit(#[trigger] pending[k]));
    if row.len() == 0 {
        assert(t == pending);
    } else {
        let rest = row.drop_first();
        match row[0] {
            Some(p) => {
                lemma_rank_text_chars(rest, 0);
                let x = seq![piece_letter(p)] + rank_text(rest, 0);
                assert(t == pending + x);
                assert forall|k: int| 0 <= k < t.len() implies is_digit(#[trigger] t[k]) || is_piece_letter(t[k]) by {
                    if k < pending.len() {
                        assert(t[k] == pending[k]);
                    } else if k == pending.len() {
                        assert(t[k] == piece_letter(p));
                    } else {
                        assert(t[k] == rank_text(rest, 0)[k - pending.len() - 1]);
                    }
                }
            },
            None => {
                lemma_rank_text_chars(rest, counter + 1);
                assert(t == rank_text(rest, counter + 1));
            },
        }
    }
}

/// Reading a written row from column `file`, `counter` empty squares pending before it,
/// places each piece of the row on its column and nothing else.
pub proof fn lemma_rank_text_reads(rank: int, row: Seq<Option<ColoredPiece>>, counter: int, file: int)
    requires
        0 <= rank < 8,
        0 <= file,
        0 <= counter,
        file + counter + row.len() <= 8,
    ensures
        line_ok(rank, rank_text(row, counter), file),
        forall|c: int|
            #[trigger] line_cell(rank_text(row, counter), file, c) == if file + counter <= c < file
                + counter + row.len() {
                row[c - file - counter]
            } else {
                None
            },
    decreases row.len(),
{
    let t = rank_text(row, counter);
    let pending = if counter != 0 {
        seq![digit_char(counter)]
    } else {
        Seq::empty()
    };
    if counter != 0 {
        assert(is_digit(digit_char(counter)));
        assert(digit_value(digit_char(counter)) == counter);
    }
    if row.len() == 0 {
        assert(t == pending);
        if counter != 0 {
            assert(t.drop_first() =~= Seq::<char>::empty());
            assert(t[0] == digit_char(counter));
            assert(line_ok(rank, t.drop_first(), file + counter));
            assert(line_ok(rank, t, file));
            assert forall|c: int| #[trigger] line_cell(t, file, c) == None::<ColoredPiece> by {
                assert(line_cell(t.drop_first(), file + counter, c) == None::<ColoredPiece>);
            }
        }
    } else {
        let rest = row.drop_first();
        match row[0] {
            Some(p) => {
                let x = seq![piece_letter(p)] + rank_text(rest, 0);
                assert(t == pending + x);
                lemma_rank_text_reads(rank, rest, 0, file + counter + 1);
                assert(x.drop_first() =~= rank_text(rest, 0));
                assert(line_ok(rank, x, file + counter));
                assert forall|c: int| #[trigger] line_cell(x, file + counter, c) == if file + counter
                    <= c < file + counter + row.len() {
                    row[c - file - counter]
                } else {
                    None
                } by {
                    assert(line_cell(rank_text(rest, 0), file + counter + 1, c) == if file + counter
                        + 1 <= c < file + counter + 1 + rest.len() {
                        rest[c - file - counter - 1]
                    } else {
                        None
                    });
                    if file + counter + 1 <= c < file + counter + row.len() {
                        assert(rest[c - file - counter - 1] == row[c - file - counter]);
                    }
                }
                if counter != 0 {
                    assert((pending + x).drop_first() =~= x);
                    assert((pending + x)[0] == digit_char(counter));
                    assert(line_ok(rank, t, file));
                    assert forall|c: int| #[trigger] line_cell(t, file, c) == line_cell(x, file + counter, c) by {
                    }
                } else {
                    assert(pending + x =~= x);
                }
            },
            None => {
                lemma_rank_text_reads(rank, rest, counter + 1, file);
                assert(t == rank_text(rest, counter + 1));
                assert forall|c: int| #[trigger] line_cell(t, file, c) == if file + counter <= c < file
                    + counter + row.len() {
                    row[c - file - counter]
                } else {
                    None
                } by {
                    if file + counter + 1 <= c < file + counter + row.len() {
                        assert(rest[c - file - counter - 1] == row[c - file - counter]);
                    }
                }
            },
        }
    }
}

/// The rows that the placement written for rows `k..8` splits into at its `/`s: the text of
/// each row, then the empty text after the last `/`.
pub open spec fn written_rows(b: Board, k: int) -> Seq<Seq<char>>
    decreases 8 - k,
{
    if k >= 8 {
        seq![Seq::empty()]
    } else {
        seq![rank_text(b.arr[k]@, 0)] + written_rows(b, k + 1)
    }
}

/// A record that `to_fen` writes, completed with the three fields it leaves out: no en
/// passant square, the half-move clock and the move number.
pub open spec fn completed_fen(b: Board) -> Seq<char> {
    fen_text(b) + seq![' ', '-', ' ', '0', ' ', '1']
}

/// The placement of fewer rows is the start of the placement of more.
pub proof fn lemma_placement_prefix(b: Board, k: int, j: int)
    requires
        0 <= k <= j,
    ensures
        placement_text(b, k).len() <= placement_text(b, j).len(),
        placement_text(b, j).subrange(0, placement_text(b, k).len() as int) == placement_text(b, k),
    decreases j - k,
{
    if k < j {
        lemma_placement_prefix(b, k, j - 1);
        let prev = placement_text(b, j - 1);
        let pk = placement_text(b, k);
        assert(placement_text(b, j).subrange(0, prev.len() as int) =~= prev);
        assert(placement_text(b, j).subrange(0, pk.len() as int) =~= prev.subrange(0, pk.len() as int));
    } else {
        assert(placement_text(b, j).subrange(0, placement_text(b, j).len() as int) =~= placement_text(b, j));
    }
}

/// The characters of a written placement: digits, piece letters and `/`.
pub proof fn lemma_placement_chars(b: Board, k: int)
    requires
        0 <= k <= 8,
    ensures
        forall|i: int|
            0 <= i < placement_text(b, k).len() ==> is_digit(#[trigger] placement_text(b, k)[i])
                || is_piece_letter(placement_text(b, k)[i]) || placement_text(b, k)[i] == '/',
        k > 0 ==> placement_text(b, k).len() > 0,
    decreases k,
{
    if k > 0 {
        lemma_placement_chars(b, k - 1);
        let prev = placement_text(b, k - 1);
        let row = rank_text(b.arr[k - 1]@, 0);
        lemma_rank_text_chars(b.arr[k - 1]@, 0);
        let t = placement_text(b, k);
        assert(t == prev + row + seq!['/']);
        assert forall|i: int| 0 <= i < t.len() implies is_digit(#[trigger] t[i]) || is_piece_letter(t[i])
            || t[i] == '/' by {
            if i < prev.len() {
                assert(t[i] == prev[i]);
            } else if i < prev.len() + row.len() {
                assert(t[i] == row[i - prev.len()]);
            }
        }
    }
}

/// The placement written for rows `k..8` splits at its `/`s into `written_rows(b, k)`.
pub proof fn lemma_placement_rows(b: Board, k: int)
    requires
        0 <= k <= 8,
    ensures
        pieces_from(placement_text(b, 8), '/', placement_text(b, k).len() as int) == written_rows(b, k),
    decreases 8 - k,
{
    let p = placement_text(b, 8);
    let start = placement_text(b, k).len() as int;
    lemma_placement_prefix(b, k, 8);
    if k == 8 {
        assert(p.subrange(start, start) =~= Seq::<char>::empty());
        assert(pieces_from(p, '/', start) =~= seq![p.subrange(start, start)]);
    } else {
        let row = rank_text(b.arr[k]@, 0);
        let next = placement_text(b, k + 1);
        lemma_placement_prefix(b, k + 1, 8);
        assert(next == placement_text(b, k) + row + seq!['/']);
        lemma_rank_text_chars(b.arr[k]@, 0);
        let end = start + row.len();
        assert forall|i: int| start <= i < end implies #[trigger] p[i] != '/' by {
            assert(p[i] == p.subrange(0, next.len() as int)[i]);
            assert(next[i] == row[i - start]);
        }
        assert(p[end] == '/') by {
            assert(p[end] == p.subrange(0, next.len() as int)[end]);
        }
        lemma_piece_end_at(p, start, end);
        lemma_placement_rows(b, k + 1);
        assert(p.subrange(start, end) =~= row) by {
            assert forall|i: int| 0 <= i < row.len() implies p.subrange(start, end)[i] == row[i] by {
                assert(p[start + i] == p.subrange(0, next.len() as int)[start + i]);
                assert(next[start + i] == row[i]);
            }
        }
        assert(pieces_from(p, '/', start) =~= seq![row] + pieces_from(p, '/', end + 1));
    }
}

/// The rows of `written_rows(b, k)`, one by one.
pub proof fn lemma_written_rows(b: Board, k: int)
    requires
        0 <= k <= 8,
    ensures
        written_rows(b, k).len() == 9 - k,
        forall|i: int|
            0 <= i < 9 - k ==> #[trigger] written_rows(b, k)[i] == if k + i < 8 {
                rank_text(b.arr[k + i]@, 0)
            } else {
                Seq::<char>::empty()
            },
    decreases 8 - k,
{
    if k < 8 {
        lemma_written_rows(b, k + 1);
        assert forall|i: int| 0 <= i < 9 - k implies #[trigger] written_rows(b, k)[i] == if k + i < 8 {
            rank_text(b.arr[k + i]@, 0)
        } else {
            Seq::<char>::empty()
        } by {
            if i > 0 {
                assert(written_rows(b, k)[i] == written_rows(b, k + 1)[i - 1]);
            }
        }
    }
}

/// The fields of a text made of three words separated by single spaces, followed by
/// ` - 0 1`.
proof fn lemma_six_fields(s: Seq<char>, p: Seq<char>, side: char, c: Seq<char>)
    requires
        p.len() > 0,
        c.len() > 0,
        forall|i: int| 0 <= i < p.len() ==> !is_ws(#[trigger] p[i]),
        forall|i: int| 0 <= i < c.len() ==> !is_ws(#[trigger] c[i]),
        !is_ws(side),
        s == p + seq![' ', side, ' '] + c + seq![' ', '-', ' ', '0', ' ', '1'],
    ensures
        fields(s) == seq![p, seq![side], c, seq!['-'], seq!['0'], seq!['1']],
{
    let pl = p.len() as int;
    let cl = c.len() as int;
    let n = pl + 9 + cl;
    assert(s.len() == n);
    assert forall|i: int| 0 <= i < pl implies !is_ws(#[trigger] s[i]) by {
        assert(s[i] == p[i]);
    }
    assert forall|i: int| pl + 3 <= i < pl + 3 + cl implies !is_ws(#[trigger] s[i]) by {
        assert(s[i] == c[i - pl - 3]);
    }
    assert(s[pl] == ' ');
    assert(s[pl + 1] == side);
    assert(s[pl + 2] == ' ');
    assert(s[pl + 3 + cl] == ' ');
    assert(s[pl + 4 + cl] == '-');
    assert(s[pl + 5 + cl] == ' ');
    assert(s[pl + 6 + cl] == '0');
    assert(s[pl + 7 + cl] == ' ');
    assert(s[pl + 8 + cl] == '1');
    lemma_field_end_at(s, 0, pl);
    lemma_field_end_at(s, pl + 1, pl + 2);
    lemma_field_end_at(s, pl + 3, pl + 3 + cl);
    lemma_field_end_at(s, pl + 4 + cl, pl + 5 + cl);
    lemma_field_end_at(s, pl + 6 + cl, pl + 7 + cl);
    lemma_field_end_at(s, pl + 8 + cl, n);
    assert(fields_from(s, n) =~= Seq::<Seq<char>>::empty());
    assert(fields_from(s, pl + 8 + cl) =~= seq![s.subrange(pl + 8 + cl, n)]);
    assert(fields_from(s, pl + 7 + cl) =~= fields_from(s, pl + 8 + cl));
    assert(fields_from(s, pl + 6 + cl) =~= seq![s.subrange(pl + 6 + cl, pl + 7 + cl)] + fields_from(s, pl + 7 + cl));
    assert(fields_from(s, pl + 5 + cl) =~= fields_from(s, pl + 6 + cl));
    assert(fields_from(s, pl + 4 + cl) =~= seq![s.subrange(pl + 4 + cl, pl + 5 + cl)] + fields_from(s, pl + 5 + cl));
    assert(fields_from(s, pl + 3 + cl) =~= fields_from(s, pl + 4 + cl));
    assert(fields_from(s, pl + 3) =~= seq![s.subrange(pl + 3, pl + 3 + cl)] + fields_from(s, pl + 3 + cl));
    assert(fields_from(s, pl + 2) =~= fields_from(s, pl + 3));
    assert(fields_from(s, pl + 1) =~= seq![s.subrange(pl + 1, pl + 2)] + fields_from(s, pl + 2));
    assert(fields_from(s, pl) =~= fields_from(s, pl + 1));
    assert(fields_from(s, 0) =~= seq![s.subrange(0, pl)] + fields_from(s, pl));
    assert(s.subrange(0, pl) =~= p);
    assert(s.subrange(pl + 1, pl + 2) =~= seq![side]);
    assert(s.subrange(pl + 3, pl + 3 + cl) =~= c);
    assert(s.subrange(pl + 4 + cl, pl + 5 + cl) =~= seq!['-']);
    assert(s.subrange(pl + 6 + cl, pl + 7 + cl) =~= seq!['0']);
    assert(s.subrange(pl + 8 + cl, n) =~= seq!['1']);
}

/// The fields of a completed record: placement, side to move, castling rights, `-`, `0`, `1`.
pub proof fn lemma_completed_fields(b: Board)
    requires
        castling_text(b.castling).len() > 0,
    ensures
        fields(completed_fen(b)) == seq![
            placement_text(b, 8),
            seq![if b.m == Color::White { 'w' } else { 'b' }],
            castling_text(b.castling),
            seq!['-'],
            seq!['0'],
            seq!['1'],
        ],
{
    let p = placement_text(b, 8);
    let side = if b.m == Color::White { 'w' } else { 'b' };
    let c = castling_text(b.castling);
    lemma_placement_chars(b, 8);
    assert forall|i: int| 0 <= i < p.len() implies !is_ws(#[trigger] p[i]) by {
        assert(is_digit(p[i]) || is_piece_letter(p[i]) || p[i] == '/');
    }
    let k = if b.castling.white_kingside { seq!['K'] } else { Seq::<char>::empty() };
    let q = if b.castling.white_queenside { seq!['Q'] } else { Seq::<char>::empty() };
    let kk = if b.castling.black_kingside { seq!['k'] } else { Seq::<char>::empty() };
    let qq = if b.castling.black_queenside { seq!['q'] } else { Seq::<char>::empty() };
    assert(c == k + q + kk + qq);
    assert forall|i: int| 0 <= i < c.len() implies !is_ws(#[trigger] c[i]) by {
        assert(c[i] == 'K' || c[i] == 'Q' || c[i] == 'k' || c[i] == 'q');
    }
    assert(completed_fen(b) =~= p + seq![' ', side, ' '] + c + seq![' ', '-', ' ', '0', ' ', '1']);
    lemma_six_fields(completed_fen(b), p, side, c);
}

// ---------------------------------------------------------------------------
// Reading
// ---------------------------------------------------------------------------

/// The Unicode white space characters, which separate the fields of a FEN record.
pub open spec fn is_ws(c: char) -> bool {
    ||| '\u{9}' <= c <= '\u{D}'
    ||| c == ' '
    ||| c == '\u{85}'
    ||| c == '\u{A0}'
    ||| c == '\u{1680}'
    ||| '\u{2000}' <= c <= '\u{200A}'
    ||| c == '\u{2028}'
    ||| c == '\u{2029}'
    ||| c == '\u{202F}'
    ||| c == '\u{205F}'
    ||| c == '\u{3000}'
}

/// The end of the field that starts at `i`.
pub open spec fn field_end(s: Seq<char>, i: int) -> int
    decreases s.len() - i,
{
    if i < 0 || i >= s.len() || is_ws(s[i]) {
        i
    } else {
        field_end(s, i + 1)
    }
}

pub proof fn lemma_field_end(s: Seq<char>, i: int)
    requires
        0 <= i <= s.len(),
    ensures
        i <= field_end(s, i) <= s.len(),
        i < s.len() && !is_ws(s[i]) ==> field_end(s, i) > i,
        forall|k: int| i <= k < field_end(s, i) ==> !is_ws(#[trigger] s[k]),
        field_end(s, i) < s.len() ==> is_ws(s[field_end(s, i)]),
    decreases s.len() - i,
{
    if i < s.len() && !is_ws(s[i]) {
        lemma_field_end(s, i + 1);
    }
}

/// The white-space separated fields of `s` from index `i` on.
pub open spec fn fields_from(s: Seq<char>, i: int) -> Seq<Seq<char>>
    decreases s.len() - i,
{
    if i < 0 || i >= s.len() {
        Seq::empty()
    } else if is_ws(s[i]) {
        fields_from(s, i + 1)
    } else {
        let e = field_end(s, i);
        proof {
            lemma_field_end(s, i);
        }
        seq![s.subrange(i, e)] + fields_from(s, e)
    }
}

/// The white-space separated fields of `s`.
pub open spec fn fields(s: Seq<char>) -> Seq<Seq<char>> {
    fields_from(s, 0)
}

/// The end of the piece that starts at `i` when splitting at `sep`.
pub open spec fn piece_end(s: Seq<char>, sep: char, i: int) -> int
    decreases s.len() - i,
{
    if i < 0 || i >= s.len() || s[i] == sep {
        i
    } else {
        piece_end(s, sep, i + 1)
    }
}

pub proof fn lemma_piece_end(s: Seq<char>, sep: char, i: int)
    requires
        0 <= i <= s.len(),
    ensures
        i <= piece_end(s, sep, i) <= s.len(),
        forall|k: int| i <= k < piece_end(s, sep, i) ==> #[trigger] s[k] != sep,
        piece_end(s, sep, i) < s.len() ==> s[piece_end(s, sep, i)] == sep,
    decreases s.len() - i,
{
    if i < s.len() && s[i] != sep {
        lemma_piece_end(s, sep, i + 1);
    }
}

/// The pieces of `s` from `i` on, split at every `sep`; there is one more piece than
/// separators.
pub open spec fn pieces_from(s: Seq<char>, sep: char, i: int) -> Seq<Seq<char>>
    decreases s.len() - i,
{
    if i < 0 || i > s.len() {
        Seq::empty()
    } else {
        let e = piece_end(s, sep, i);
        proof {
            lemma_piece_end(s, sep, i);
        }
        if e >= s.len() {
            seq![s.subrange(i, s.len() as int)]
        } else {
            seq![s.subrange(i, e)] + pieces_from(s, sep, e + 1)
        }
    }
}

/// The pieces of `s` split at every `sep`.
pub open spec fn split_text(s: Seq<char>, sep: char) -> Seq<Seq<char>> {
    pieces_from(s, sep, 0)
}

/// The rows of a placement field.
pub open spec fn rows_of(placement: Seq<char>) -> Seq<Seq<char>> {
    split_text(placement, '/')
}

pub open spec fn digit_value(c: char) -> int {
    c as int - '0' as int
}

/// The row `rank` of a placement, read from column `file` on, places only letters of pieces,
/// and only on squares of the board.
pub open spec fn line_ok(rank: int, line: Seq<char>, file: int) -> bool
    decreases line.len(),
{
    if line.len() == 0 {
        true
    } else if is_digit(line[0]) {
        line_ok(rank, line.drop_first(), file + digit_value(line[0]))
    } else {
        &&& is_piece_letter(line[0])
        &&& 0 <= rank < 8
        &&& 0 <= file < 8
        &&& line_ok(rank, line.drop_first(), file + 1)
    }
}

/// What reading `line` from column `file` on leaves on column `c`: the last piece placed
/// there. A digit skips that many columns.
pub open spec fn line_cell(line: Seq<char>, file: int, c: int) -> Option<ColoredPiece>
    decreases line.len(),
{
    if line.len() == 0 {
        None
    } else if is_digit(line[0]) {
        line_cell(line.drop_first(), file + digit_value(line[0]), c)
    } else {
        let later = line_cell(line.drop_first(), file + 1, c);
        if later is Some {
            later
        } else if file == c {
            Some(piece_of_letter(line[0]))
        } else {
            None
        }
    }
}

/// The FEN records that `from_fen` reads: six fields, each row of the placement well formed,
/// and `w` or `b` to move.
pub open spec fn fen_ok(s: Seq<char>) -> bool {
    let f = fields(s);
    &&& f.len() == 6
    &&& forall|r: int| 0 <= r < rows_of(f[0]).len() ==> line_ok(r, #[trigger] rows_of(f[0])[r], 0)
    &&& (f[1] == seq!['w'] || f[1] == seq!['b'])
}

/// The square `(r, c)` of the position of a FEN record.
pub open spec fn fen_cell(s: Seq<char>, r: int, c: int) -> Option<ColoredPiece> {
    let rows = rows_of(fields(s)[0]);
    if r < rows.len() {
        line_cell(rows[r], 0, c)
    } else {
        None
    }
}

/// The side to move of a FEN record.
pub open spec fn fen_side(s: Seq<char>) -> Color {
    if fields(s)[1] == seq!['w'] {
        Color::White
    } else {
        Color::Black
    }
}

/// The castling rights of a FEN record.
pub open spec fn fen_castling(s: Seq<char>) -> CastlingAbility {
    castling_of_text(fields(s)[2])
}

/// Whether `b` is the board read from the FEN record `s`: its squares, side to move and
/// castling rights are the record's, no move has been played and no castling done.
pub open spec fn is_fen_board(s: Seq<char>, b: Board) -> bool {
    &&& forall|r: int, c: int|
        0 <= r < 8 && 0 <= c < 8 ==> #[trigger] b.at(r, c) == fen_cell(s, r, c)
    &&& b.m == fen_side(s)
    &&& b.last_move is None
    &&& b.castling == fen_castling(s)
    &&& !b.castled
}

/// The board read from the FEN record `s`.
pub open spec fn fen_board(s: Seq<char>) -> Board {
    choose|b: Board| is_fen_board(s, b)
}

/// A FEN record describes at most one board.
pub proof fn lemma_fen_board_unique(s: Seq<char>, b1: Board, b2: Board)
    requires
        is_fen_board(s, b1),
        is_fen_board(s, b2),
    ensures
        b1 == b2,
{
    assert forall|r: int| 0 <= r < 8 implies b1.arr[r] =~= b2.arr[r] by {
        assert forall|c: int| 0 <= c < 8 implies b1.arr[r][c] == b2.arr[r][c] by {
            assert(b1.at(r, c) == b2.at(r, c));
        }
    }
    assert(b1.arr =~= b2.arr);
}

/// A board read from a record is the record's board.
pub proof fn lemma_fen_board(s: Seq<char>, b: Board)
    requires
        is_fen_board(s, b),
    ensures
        fen_board(s) == b,
{
    lemma_fen_board_unique(s, fen_board(s), b);
}

// ---------------------------------------------------------------------------
// Executable helpers
// ---------------------------------------------------------------------------

/// The characters of a text.
pub fn text_chars(s: &str) -> (v: Vec<char>)
    ensures
        v@ == s@,
{
    let n = s.unicode_len();
    let mut v: Vec<char> = Vec::new();
    for i in 0..n
        invariant
            n == s@.len(),
            v@ == s@.subrange(0, i as int),
    {
        v.push(s.get_char(i));
        assert(v@ =~= s@.subrange(0, i + 1));
    }
    assert(s@.subrange(0, n as int) =~= s@);
    v
}

fn is_whitespace(c: char) -> (r: bool)
    ensures
        r == is_ws(c),
{
    ('\u{9}' <= c && c <= '\u{D}') || c == ' ' || c == '\u{85}' || c == '\u{A0}' || c == '\u{1680}'
        || ('\u{2000}' <= c && c <= '\u{200A}') || c == '\u{2028}' || c == '\u{2029}' || c
        == '\u{202F}' || c == '\u{205F}' || c == '\u{3000}'
}

/// The texts of index ranges of `s`.
pub open spec fn texts_of(s: Seq<char>, ranges: Seq<(usize, usize)>) -> Seq<Seq<char>> {
    ranges.map_values(|p: (usize, usize)| s.subrange(p.0 as int, p.1 as int))
}

/// The index ranges of the white-space separated fields.
pub fn field_ranges(s: &Vec<char>) -> (r: Vec<(usize, usize)>)
    ensures
        texts_of(s@, r@) == fields(s@),
        forall|k: int| 0 <= k < r@.len() ==> (#[trigger] r@[k]).0 <= r@[k].1 <= s@.len(),
{
    let n = s.len();
    let mut out: Vec<(usize, usize)> = Vec::new();
    let mut i: usize = 0;
    while i < n
        invariant
            n == s@.len(),
            i <= n,
            texts_of(s@, out@) + fields_from(s@, i as int) == fields(s@),
            forall|k: int| 0 <= k < out@.len() ==> (#[trigger] out@[k]).0 <= out@[k].1 <= s@.len(),
        decreases n - i,
    {
        if is_whitespace(s[i]) {
            i = i + 1;
        } else {
            let start = i;
            proof {
                lemma_field_end(s@, start as int);
            }
            while i < n && !is_whitespace(s[i])
                invariant
                    n == s@.len(),
                    start <= i <= n,
                    field_end(s@, start as int) == field_end(s@, i as int),
                decreases n - i,
            {
                i = i + 1;
            }
            let ghost before = out@;
            out.push((start, i));
            assert(texts_of(s@, out@) =~= texts_of(s@, before) + seq![s@.subrange(start as int, i as int)]);
        }
    }
    assert(texts_of(s@, out@) =~= fields(s@));
    out
}

/// The index ranges of the pieces of `s[from..to]`, split at every `sep`.
pub fn split_ranges(s: &Vec<char>, sep: char, from: usize, to: usize) -> (r: Vec<(usize, usize)>)
    requires
        from <= to <= s@.len(),
    ensures
        texts_of(s@, r@) == split_text(s@.subrange(from as int, to as int), sep),
        forall|k: int| 0 <= k < r@.len() ==> from <= (#[trigger] r@[k]).0 <= r@[k].1 <= to,
{
    let ghost t = s@.subrange(from as int, to as int);
    let mut out: Vec<(usize, usize)> = Vec::new();
    let mut i: usize = from;
    loop
        invariant
            from <= i <= to <= s@.len(),
            t == s@.subrange(from as int, to as int),
            texts_of(s@, out@) + pieces_from(t, sep, i - from) == split_text(t, sep),
            forall|k: int| 0 <= k < out@.len() ==> from <= (#[trigger] out@[k]).0 <= out@[k].1 <= to,
        decreases to - i,
    {
        let start = i;
        proof {
            lemma_piece_end(t, sep, (start - from) as int);
        }
        while i < to && s[i] != sep
            invariant
                from <= start <= i <= to <= s@.len(),
                t == s@.subrange(from as int, to as int),
                piece_end(t, sep, (start - from) as int) == piece_end(t, sep, (i - from) as int),
            decreases to - i,
        {
            i = i + 1;
        }
        let ghost before = out@;
        out.push((start, i));
        assert(t.subrange((start - from) as int, (i - from) as int) =~= s@.subrange(start as int, i as int));
        assert(texts_of(s@, out@) =~= texts_of(s@, before) + seq![s@.subrange(start as int, i as int)]);
        if i >= to {
            assert(texts_of(s@, out@) =~= split_text(t, sep));
            return out;
        }
        i = i + 1;
    }
}

/// Whether reading row `rank` succeeds: the characters `s[from..to]` are digits, or piece
/// letters placed on the board.
fn row_is_valid(s: &Vec<char>, rank: usize, from: usize, to: usize) -> (r: bool)
    requires
        from <= to <= s@.len(),
    ensures
        r == line_ok(rank as int, s@.subrange(from as int, to as int), 0),
{
    let ghost line = s@.subrange(from as int, to as int);
    let mut file: usize = 0;
    let ghost mut file_spec: int = 0;
    let mut k: usize = from;
    assert(line.skip(0) =~= line);
    while k < to
        invariant
            from <= k <= to <= s@.len(),
            line == s@.subrange(from as int, to as int),
            0 <= file_spec,
            file as int == if file_spec > 9 { 9 } else { file_spec },
            line_ok(rank as int, line, 0) == line_ok(rank as int, line.skip(k - from), file_spec),
        decreases to - k,
    {
        let ch = s[k];
        assert(line.skip(k - from)[0] == ch);
        assert(line.skip(k - from).drop_first() =~= line.skip(k - from + 1));
        if '0' <= ch && ch <= '9' {
            let n = (ch as u32 - '0' as u32) as usize;
            file = if file + n > 9 {
                9
            } else {
                file + n
            };
            proof {
                file_spec = file_spec + digit_value(ch);
            }
        } else {
            let letter = ch == 'P' || ch == 'N' || ch == 'B' || ch == 'R' || ch == 'Q' || ch == 'K'
                || ch == 'p' || ch == 'n' || ch == 'b' || ch == 'r' || ch == 'q' || ch == 'k';
            if !(letter && rank < 8 && file < 8) {
                return false;
            }
            file = file + 1;
            proof {
                file_spec = file_spec + 1;
            }
        }
        k = k + 1;
    }
    true
}

/// Whether `from_fen` can read the text; see `fen_ok`.
pub fn fen_is_valid(fen_str: &str) -> (r: bool)
    ensures
        r == fen_ok(fen_str@),
{
    let chars = text_chars(fen_str);
    let franges = field_ranges(&chars);
    if franges.len() != 6 {
        return false;
    }
    let ghost fs = fields(fen_str@);
    let (pos_from, pos_to) = franges[0];
    assert(fs[0] == chars@.subrange(pos_from as int, pos_to as int));
    let rows = split_ranges(&chars, '/', pos_from, pos_to);
    let ghost rs = rows_of(fs[0]);
    let mut rank: usize = 0;
    while rank < rows.len()
        invariant
            rank <= rows@.len(),
            fs == fields(fen_str@),
            fs.len() == 6,
            rs == rows_of(fs[0]),
            chars@ == fen_str@,
            texts_of(chars@, rows@) == rs,
            forall|k: int| 0 <= k < rows@.len() ==> (#[trigger] rows@[k]).0 <= rows@[k].1 <= chars@.len(),
            forall|r: int| 0 <= r < rank ==> line_ok(r, #[trigger] rs[r], 0),
        decreases rows@.len() - rank,
    {
        let (from, to) = rows[rank];
        assert(rs[rank as int] == chars@.subrange(from as int, to as int));
        if !row_is_valid(&chars, rank, from, to) {
            return false;
        }
        rank = rank + 1;
    }
    assert(rows@.len() == rs.len());
    let (c_from, c_to) = franges[1];
    assert(fs[1] == chars@.subrange(c_from as int, c_to as int));
    if c_to - c_from != 1 {
        assert(fs[1].len() != 1);
        return false;
    }
    let side = chars[c_from];
    assert(fs[1] =~= seq![side]);
    assert(fs[1][0] == side);
    assert(forall|r: int| 0 <= r < rows_of(fs[0]).len() ==> line_ok(r, #[trigger] rows_of(fs[0])[r], 0));
    if side == 'w' || side == 'b' {
        assert(fen_ok(fen_str@));
        true
    } else {
        assert(fs[1] != seq!['w']);
        assert(fs[1] != seq!['b']);
        false
    }
}

impl Board {
    /// The FEN text of the board: placement (each row followed by `/`), side to move and
    /// castling rights.
    pub fn to_fen(&self) -> (fen: String)
        ensures
            fen@ == fen_text(*self),
    {
        let mut fen = String::new();
        let mut counter: i8 = 0;
        for i in 0..8usize
            invariant
                counter == 0,
                fen@ == placement_text(*self, i as int),
        {
            let ghost row = self.arr[i as int]@;
            assert(row.subrange(0, 8) =~= row);
            for j in 0..8usize
                invariant
                    i < 8,
                    row == self.arr[i as int]@,
                    0 <= counter <= j,
                    fen@ + rank_text(row.subrange(j as int, 8), counter as int) == placement_text(*self, i as int)
                        + rank_text(row, 0),
            {
                assert(row.subrange(j as int, 8).drop_first() =~= row.subrange(j + 1, 8));
                match self.arr[i][j] {
                    Some(p) => {
                        if counter != 0 {
                            fen.append(digit_str(counter as u8));
                            counter = 0;
                        }
                        fen.append(p.to_str())
                    },
                    None => {
                        counter = counter + 1;
                    },
                }
            }
            if counter != 0 {
                fen.append(digit_str(counter as u8));
                counter = 0;
            }
            proof {
                reveal_strlit("/");
                assert(row.subrange(0, 8) =~= row);
            }
            fen.append("/");
        }
        proof {
            reveal_strlit(" ");
        }
        fen.append(" ");
        fen.append(self.m.to_str());
        fen.append(" ");
        let castling = self.castling.to_string();
        fen.append(castling.as_str());
        fen
    }

    /// Reads a FEN record: the placement, the side to move and the castling rights; the
    /// remaining three fields are not read.
    pub fn from_fen(fen_str: &str) -> (b: Self)
        requires
            fen_ok(fen_str@),
        ensures
            is_fen_board(fen_str@, b),
            b == fen_board(fen_str@),
    {
        let mut arr: [[Option<ColoredPiece>; 8]; 8] = [[None; 8]; 8];
        let chars = text_chars(fen_str);
        let franges = field_ranges(&chars);
        let ghost fs = fields(fen_str@);
        assert(franges@.len() == fs.len());
        let (pos_from, pos_to) = franges[0];
        assert(fs[0] == chars@.subrange(pos_from as int, pos_to as int));
        let rows = split_ranges(&chars, '/', pos_from, pos_to);
        let ghost rs = rows_of(fs[0]);
        assert(rows@.len() == rs.len());
        for rank in 0..rows.len()
            invariant
                fen_ok(fen_str@),
                fs == fields(fen_str@),
                rs == rows_of(fs[0]),
                chars@ == fen_str@,
                texts_of(chars@, rows@) == rs,
                forall|k: int| 0 <= k < rows@.len() ==> (#[trigger] rows@[k]).0 <= rows@[k].1 <= chars@.len(),
                forall|r: int, c: int|
                    0 <= r < 8 && 0 <= c < 8 ==> #[trigger] arr[r][c] == if r < rank {
                        fen_cell(fen_str@, r, c)
                    } else {
                        None
                    },
        {
            let (from, to) = rows[rank];
            let ghost line = rs[rank as int];
            assert(line == chars@.subrange(from as int, to as int));
            assert(line_ok(rank as int, line, 0));
            let mut file: usize = 0;
            let ghost mut file_spec: int = 0;
            let mut k: usize = from;
            assert(line.skip(0) =~= line);
            while k < to
                invariant
                    from <= k <= to <= chars@.len(),
                    line == chars@.subrange(from as int, to as int),
                    line == rs[rank as int],
                    rank < rs.len(),
                    fen_ok(fen_str@),
                    fs == fields(fen_str@),
                    rs == rows_of(fs[0]),
                    0 <= file_spec,
                    file as int == if file_spec > 9 { 9 } else { file_spec },
                    line_ok(rank as int, line.skip(k - from), file_spec),
                    forall|r: int, c: int|
                        0 <= r < 8 && 0 <= c < 8 && r != rank ==> #[trigger] arr[r][c] == if r < rank {
                            fen_cell(fen_str@, r, c)
                        } else {
                            None
                        },
                    rank < 8 ==> forall|c: int|
                        0 <= c < 8 ==> line_cell(line, 0, c) == match line_cell(
                            line.skip(k - from),
                            file_spec,
                            c,
                        ) {
                            Some(p) => Some(p),
                            None => #[trigger] arr[rank as int][c],
                        },
                decreases to - k,
            {
                let ch = chars[k];
                assert(line.skip(k - from)[0] == ch);
                assert(line.skip(k - from).drop_first() =~= line.skip(k - from + 1));
                if '0' <= ch && ch <= '9' {
                    let n = (ch as u32 - '0' as u32) as usize;
                    file = if file + n > 9 {
                        9
                    } else {
                        file + n
                    };
                    proof {
                        file_spec = file_spec + digit_value(ch);
                    }
                } else {
                    arr[rank][file] = Some(ColoredPiece::from_char(ch));
                    file = file + 1;
                    proof {
                        file_spec = file_spec + 1;
                    }
                }
                k = k + 1;
            }
            assert(line.skip(to - from).len() == 0);
        }
        let (c_from, c_to) = franges[1];
        let color_text = fen_str.substring_char(c_from, c_to);
        let m = Color::from_str(color_text);
        let (k_from, k_to) = franges[2];
        let castling_field = fen_str.substring_char(k_from, k_to);
        let castling = CastlingAbility::from(castling_field);
        let last_move = None;
        let b = Board { arr, m, last_move, castling, castled: false };
        proof {
            lemma_fen_board(fen_str@, b);
        }
        b
    }
}


// ---------------------------------------------------------------------------
// The starting position
// ---------------------------------------------------------------------------

/// The FEN record of the starting position.
pub open spec fn start_fen() -> Seq<char> {
    seq![
        'r', 'n', 'b', 'q', 'k', 'b', 'n', 'r', '/',
        'p', 'p', 'p', 'p', 'p', 'p', 'p', 'p', '/',
        '8', '/', '8', '/', '8', '/', '8', '/',
        'P', 'P', 'P', 'P', 'P', 'P', 'P', 'P', '/',
        'R', 'N', 'B', 'Q', 'K', 'B', 'N', 'R',
        ' ', 'w', ' ', 'K', 'Q', 'k', 'q', ' ', '-', ' ', '0', ' ', '1',
    ]
}

proof fn lemma_field_end_at(s: Seq<char>, i: int, j: int)
    requires
        0 <= i <= j <= s.len(),
        forall|k: int| i <= k < j ==> !is_ws(#[trigger] s[k]),
        j == s.len() || is_ws(s[j]),
    ensures
        field_end(s, i) == j,
    decreases j - i,
{
    if i < j {
        lemma_field_end_at(s, i + 1, j);
    }
}

proof fn lemma_piece_end_at(s: Seq<char>, i: int, j: int)
    requires
        0 <= i <= j <= s.len(),
        forall|k: int| i <= k < j ==> #[trigger] s[k] != '/',
        j == s.len() || s[j] == '/',
    ensures
        piece_end(s, '/', i) == j,
    decreases j - i,
{
    if i < j {
        lemma_piece_end_at(s, i + 1, j);
    }
}

/// The fields of the starting record.
proof fn lemma_start_fields()
    ensures
        fields(start_fen()).len() == 6,
        fields(start_fen())[0] == start_fen().subrange(0, 43),
        fields(start_fen())[1] == seq!['w'],
        fields(start_fen())[2] == seq!['K', 'Q', 'k', 'q'],
{
    let s = start_fen();
    assert(s.len() == 56);
    lemma_field_end_at(s, 0, 43);
    lemma_field_end_at(s, 44, 45);
    lemma_field_end_at(s, 46, 50);
    lemma_field_end_at(s, 51, 52);
    lemma_field_end_at(s, 53, 54);
    lemma_field_end_at(s, 55, 56);
    assert(fields_from(s, 56) =~= Seq::<Seq<char>>::empty());
    assert(fields_from(s, 55) =~= seq![s.subrange(55, 56)]);
    assert(fields_from(s, 54) =~= fields_from(s, 55));
    assert(fields_from(s, 53) =~= seq![s.subrange(53, 54)] + fields_from(s, 54));
    assert(fields_from(s, 52) =~= fields_from(s, 53));
    assert(fields_from(s, 51) =~= seq![s.subrange(51, 52)] + fields_from(s, 52));
    assert(fields_from(s, 50) =~= fields_from(s, 51));
    assert(fields_from(s, 46) =~= seq![s.subrange(46, 50)] + fields_from(s, 50));
    assert(fields_from(s, 45) =~= fields_from(s, 46));
    assert(fields_from(s, 44) =~= seq![s.subrange(44, 45)] + fields_from(s, 45));
    assert(fields_from(s, 43) =~= fields_from(s, 44));
    assert(fields_from(s, 0) =~= seq![s.subrange(0, 43)] + fields_from(s, 43));
    assert(s.subrange(44, 45) =~= seq!['w']);
    assert(s.subrange(46, 50) =~= seq!['K', 'Q', 'k', 'q']);
}

/// The rows of the starting placement.
proof fn lemma_start_rows()
    ensures
        rows_of(start_fen().subrange(0, 43)) == seq![
            seq!['r', 'n', 'b', 'q', 'k', 'b', 'n', 'r'],
            seq!['p', 'p', 'p', 'p', 'p', 'p', 'p', 'p'],
            seq!['8'],
            seq!['8'],
            seq!['8'],
            seq!['8'],
            seq!['P', 'P', 'P', 'P', 'P', 'P', 'P', 'P'],
            seq!['R', 'N', 'B', 'Q', 'K', 'B', 'N', 'R'],
        ],
{
    let t = start_fen().subrange(0, 43);
    assert(t.len() == 43);
    lemma_piece_end_at(t, 0, 8);
    lemma_piece_end_at(t, 9, 17);
    lemma_piece_end_at(t, 18, 19);
    lemma_piece_end_at(t, 20, 21);
    lemma_piece_end_at(t, 22, 23);
    lemma_piece_end_at(t, 24, 25);
    lemma_piece_end_at(t, 26, 34);
    lemma_piece_end_at(t, 35, 43);
    assert(pieces_from(t, '/', 35) =~= seq![t.subrange(35, 43)]);
    assert(pieces_from(t, '/', 26) =~= seq![t.subrange(26, 34)] + pieces_from(t, '/', 35));
    assert(pieces_from(t, '/', 24) =~= seq![t.subrange(24, 25)] + pieces_from(t, '/', 26));
    assert(pieces_from(t, '/', 22) =~= seq![t.subrange(22, 23)] + pieces_from(t, '/', 24));
    assert(pieces_from(t, '/', 20) =~= seq![t.subrange(20, 21)] + pieces_from(t, '/', 22));
    assert(pieces_from(t, '/', 18) =~= seq![t.subrange(18, 19)] + pieces_from(t, '/', 20));
    assert(pieces_from(t, '/', 9) =~= seq![t.subrange(9, 17)] + pieces_from(t, '/', 18));
    assert(pieces_from(t, '/', 0) =~= seq![t.subrange(0, 8)] + pieces_from(t, '/', 9));
    assert(t.subrange(0, 8) =~= seq!['r', 'n', 'b', 'q', 'k', 'b', 'n', 'r']);
    assert(t.subrange(9, 17) =~= seq!['p', 'p', 'p', 'p', 'p', 'p', 'p', 'p']);
    assert(t.subrange(18, 19) =~= seq!['8']);
    assert(t.subrange(20, 21) =~= seq!['8']);
    assert(t.subrange(22, 23) =~= seq!['8']);
    assert(t.subrange(24, 25) =~= seq!['8']);
    assert(t.subrange(26, 34) =~= seq!['P', 'P', 'P', 'P', 'P', 'P', 'P', 'P']);
    assert(t.subrange(35, 43) =~= seq!['R', 'N', 'B', 'Q', 'K', 'B', 'N', 'R']);
}

/// The FEN record of the starting position is one that `from_fen` reads.
pub proof fn lemma_start_fen_ok()
    ensures
        fen_ok(start_fen()),
        fen_side(start_fen()) == Color::White,
{
    lemma_start_fields();
    lemma_start_rows();
    let rows = rows_of(start_fen().subrange(0, 43));
    reveal_with_fuel(line_ok, 9);
    assert(line_ok(0, rows[0], 0));
    assert(line_ok(1, rows[1], 0));
    assert(line_ok(2, rows[2], 0));
    assert(line_ok(3, rows[3], 0));
    assert(line_ok(4, rows[4], 0));
    assert(line_ok(5, rows[5], 0));
    assert(line_ok(6, rows[6], 0));
    assert(line_ok(7, rows[7], 0));
}

/// The board of a new game: the starting position, white to move, all castling rights and
/// no move played.
pub open spec fn is_start_board(b: Board) -> bool {
    &&& forall|r: int, c: int|
        0 <= r < 8 && 0 <= c < 8 ==> #[trigger] b.at(r, c) == fen_cell(start_fen(), r, c)
    &&& b.m == Color::White
    &&& b.last_move is None
    &&& b.castling == fen_castling(start_fen())
    &&& !b.castled
}

/// The board of a new game.
pub open spec fn start_board() -> Board {
    fen_board(start_fen())
}

impl Board {
    /// The starting position, white to move, all castling rights.
    pub fn new() -> (b: Self)
        ensures
            is_start_board(b),
            b == start_board(),
    {
        let fen = "rnbqkbnr/pppppppp/8/8/8/8/PPPPPPPP/RNBQKBNR w KQkq - 0 1";
        proof {
            reveal_strlit("rnbqkbnr/pppppppp/8/8/8/8/PPPPPPPP/RNBQKBNR w KQkq - 0 1");
            assert(fen@ =~= start_fen());
            lemma_start_fen_ok();
        }
        Board::from_fen(fen)
    }
}

} // verus!

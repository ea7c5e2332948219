//! The commands of the Universal Chess Interface that the engine understands, and the set-up
//! of a position from the `position` command.
use vstd::prelude::*;
use vstd::string::StringSliceAdditionalSpecFns;
use vstd::utf8::{decode_utf8, is_char_boundary};
use crate::board::{Board, Move, on_board};
use crate::engine::{MoveEvaluator, is_legal, is_move_notation, is_notation, notation_move};
use crate::fen::{field_ranges, fields, fen_board, fen_is_valid, fen_ok, start_fen, text_chars, texts_of};

verus! {

// ---------------------------------------------------------------------------
// Commands
// ---------------------------------------------------------------------------

/// A command line, read word by word.
#[derive(Debug)]
pub enum Command {
    /// `uci`: the interface is asked to identify itself.
    Uci,
    /// `isready`
    IsReady,
    /// `ucinewgame`
    NewGame,
    /// `position <setup> moves <move>...`
    Position { setup: String, moves: Vec<String> },
    /// `quit`
    Quit,
    /// Any other line, as its words.
    Unknown { words: Vec<String> },
}

pub open spec fn word_uci() -> Seq<char> {
    seq!['u', 'c', 'i']
}

pub open spec fn word_isready() -> Seq<char> {
    seq!['i', 's', 'r', 'e', 'a', 'd', 'y']
}

pub open spec fn word_ucinewgame() -> Seq<char> {
    seq!['u', 'c', 'i', 'n', 'e', 'w', 'g', 'a', 'm', 'e']
}

pub open spec fn word_position() -> Seq<char> {
    seq!['p', 'o', 's', 'i', 't', 'i', 'o', 'n']
}

pub open spec fn word_moves() -> Seq<char> {
    seq!['m', 'o', 'v', 'e', 's']
}

pub open spec fn word_quit() -> Seq<char> {
    seq!['q', 'u', 'i', 't']
}

pub open spec fn word_startpos() -> Seq<char> {
    seq!['s', 't', 'a', 'r', 't', 'p', 'o', 's']
}

/// The texts of a list of strings.
pub open spec fn texts(v: Seq<String>) -> Seq<Seq<char>> {
    v.map_values(|w: String| w@)
}

/// The texts of a list of string slices.
pub open spec fn str_texts(v: Seq<&str>) -> Seq<Seq<char>> {
    v.map_values(|w: &str| w@)
}

/// Whether the characters `r.0..r.1` of `chars` spell `word`.
fn range_is(chars: &Vec<char>, r: (usize, usize), word: &str) -> (b: bool)
    requires
        r.0 <= r.1 <= chars@.len(),
    ensures
        b == (chars@.subrange(r.0 as int, r.1 as int) == word@),
{
    let n = word.unicode_len();
    let (from, to) = r;
    if to - from != n {
        assert(chars@.subrange(from as int, to as int).len() != word@.len());
        return false;
    }
    for i in 0..n
        invariant
            n == word@.len(),
            r == (from, to),
            from <= to <= chars@.len(),
            to - from == n,
            forall|k: int| 0 <= k < i ==> chars@[from + k] == word@[k],
    {
        if chars[from + i] != word.get_char(i) {
            assert(chars@.subrange(from as int, to as int)[i as int] != word@[i as int]);
            assert(chars@.subrange(from as int, to as int) != word@);
            return false;
        }
    }
    assert(chars@.subrange(from as int, to as int) =~= word@);
    true
}

/// The string of the characters `from..to` of `line`.
fn word_string(line: &str, from: usize, to: usize) -> (w: String)
    requires
        from <= to <= line@.len(),
    ensures
        w@ == line@.subrange(from as int, to as int),
{
    line.substring_char(from, to).to_owned()
}

/// The words of `line` in the ranges `ranges[from..]`, as strings.
fn words_from(line: &str, ranges: &Vec<(usize, usize)>, from: usize) -> (v: Vec<String>)
    requires
        from <= ranges@.len(),
        forall|k: int| 0 <= k < ranges@.len() ==> (#[trigger] ranges@[k]).0 <= ranges@[k].1 <= line@.len(),
    ensures
        texts(v@) == texts_of(line@, ranges@).subrange(from as int, ranges@.len() as int),
{
    let mut v: Vec<String> = Vec::new();
    for k in from..ranges.len()
        invariant
            from <= ranges@.len(),
            forall|j: int| 0 <= j < ranges@.len() ==> (#[trigger] ranges@[j]).0 <= ranges@[j].1 <= line@.len(),
            texts(v@) == texts_of(line@, ranges@).subrange(from as int, k as int),
    {
        let (a, b) = ranges[k];
        let w = word_string(line, a, b);
        let ghost before = v@;
        v.push(w);
        assert(texts_of(line@, ranges@)[k as int] == line@.subrange(a as int, b as int));
        assert(v@ =~= before.push(w));
        assert(texts(v@) =~= texts(before).push(w@));
        assert(texts(v@) =~= texts_of(line@, ranges@).subrange(from as int, k + 1));
    }
    v
}

/// Reads a command line: the words are separated by white space, and the command is known
/// by its words.
pub fn parse_command(line: &str) -> (r: Command)
    ensures
        r is Uci <==> fields(line@) == seq![word_uci()],
        r is IsReady <==> fields(line@) == seq![word_isready()],
        r is NewGame <==> fields(line@) == seq![word_ucinewgame()],
        r is Quit <==> fields(line@) == seq![word_quit()],
        r is Position <==> fields(line@).len() >= 3 && fields(line@)[0] == word_position()
            && fields(line@)[2] == word_moves(),
        r matches Command::Position { setup, moves } ==> setup@ == fields(line@)[1] && texts(moves@)
            == fields(line@).subrange(3, fields(line@).len() as int),
        r matches Command::Unknown { words } ==> texts(words@) == fields(line@),
{
    let chars = text_chars(line);
    let ranges = field_ranges(&chars);
    let ghost ws = fields(line@);
    assert(texts_of(chars@, ranges@) == ws);
    assert(ranges@.len() == ws.len());
    proof {
        reveal_strlit("uci");
        reveal_strlit("isready");
        reveal_strlit("ucinewgame");
        reveal_strlit("quit");
        reveal_strlit("position");
        reveal_strlit("moves");
        assert("uci"@ =~= word_uci());
        assert("isready"@ =~= word_isready());
        assert("ucinewgame"@ =~= word_ucinewgame());
        assert("quit"@ =~= word_quit());
        assert("position"@ =~= word_position());
        assert("moves"@ =~= word_moves());
    }
    let n = ranges.len();
    if n == 1 {
        let r0 = ranges[0];
        assert(ws[0] == chars@.subrange(r0.0 as int, r0.1 as int));
        if range_is(&chars, r0, "uci") {
            assert(ws =~= seq![word_uci()]);
            return Command::Uci;
        }
        if range_is(&chars, r0, "isready") {
            assert(ws =~= seq![word_isready()]);
            return Command::IsReady;
        }
        if range_is(&chars, r0, "ucinewgame") {
            assert(ws =~= seq![word_ucinewgame()]);
            return Command::NewGame;
        }
        if range_is(&chars, r0, "quit") {
            assert(ws =~= seq![word_quit()]);
            return Command::Quit;
        }
    }
    if n >= 3 {
        let r0 = ranges[0];
        let r2 = ranges[2];
        assert(ws[0] == chars@.subrange(r0.0 as int, r0.1 as int));
        assert(ws[2] == chars@.subrange(r2.0 as int, r2.1 as int));
        if range_is(&chars, r0, "position") && range_is(&chars, r2, "moves") {
            let (a, b) = ranges[1];
            let setup = word_string(line, a, b);
            let moves = words_from(line, &ranges, 3);
            return Command::Position { setup, moves };
        }
    }
    let words = words_from(line, &ranges, 0);
    assert(texts_of(line@, ranges@).subrange(0, n as int) =~= ws);
    Command::Unknown { words }
}

// ---------------------------------------------------------------------------
// Setting up a position
// ---------------------------------------------------------------------------

/// The bytes of the word `fen`.
pub open spec fn fen_bytes() -> Seq<u8> {
    seq![102u8, 101u8, 110u8]
}

/// The FEN record carried by a `fen` set-up: its bytes from the sixth to the last but one.
pub open spec fn setup_fen(setup: &str) -> Seq<char> {
    let b = setup.spec_bytes();
    decode_utf8(b.subrange(5, b.len() - 1))
}

/// Whether the first three bytes of the set-up spell `fen`.
pub open spec fn is_fen_setup(setup: &str) -> bool {
    setup.spec_bytes().len() >= 3 && setup.spec_bytes().subrange(0, 3) == fen_bytes()
}

/// The board a set-up names: the starting position for `startpos`, the board of the record
/// `setup_fen` for a `fen` set-up, and none for any other.
pub open spec fn setup_board(setup: &str) -> Option<Board> {
    if setup@ == word_startpos() {
        Some(fen_board(start_fen()))
    } else if is_fen_setup(setup) {
        Some(fen_board(setup_fen(setup)))
    } else {
        None
    }
}

/// The set-ups that can be read. Besides `startpos`, the first three bytes must make whole
/// characters; in a `fen` set-up, the bytes from the sixth to the last but one must make
/// whole characters (the last byte is a character of its own, and the sixth byte starts one
/// among the bytes before it) and a FEN record that can be read.
pub open spec fn setup_ok(setup: &str) -> bool {
    let b = setup.spec_bytes();
    setup@ != word_startpos() ==> {
        &&& is_char_boundary(b, 3)
        &&& is_fen_setup(setup) ==> {
            &&& b.len() >= 6
            &&& is_char_boundary(b, b.len() - 1)
            &&& is_char_boundary(b.subrange(0, b.len() - 1), 5)
            &&& fen_ok(setup_fen(setup))
        }
    }
}

/// The moves of a `position` command that can be played from `b`: each move up to the first
/// one that is not legal is written in notation from a square of the board, and each legal
/// one can be played.
pub open spec fn replay_ok(b: Board, ms: Seq<Seq<char>>) -> bool
    decreases ms.len(),
{
    ms.len() == 0 || {
        let m = notation_move(ms[0]);
        &&& is_notation(ms[0])
        &&& on_board(m.src)
        &&& is_legal(b, m) ==> b.can_play(m) && replay_ok(b.after_move(m), ms.drop_first())
    }
}

/// The board after the moves of a `position` command are played from `b`, up to the first
/// one that is not legal, and whether all of them were legal.
pub open spec fn replay(b: Board, ms: Seq<Seq<char>>) -> (Board, bool)
    decreases ms.len(),
{
    if ms.len() == 0 {
        (b, true)
    } else {
        let m = notation_move(ms[0]);
        if is_legal(b, m) {
            replay(b.after_move(m), ms.drop_first())
        } else {
            (b, false)
        }
    }
}

/// What a `position` command set up.
#[derive(Debug)]
pub enum PositionSetup {
    /// The set-up named no board.
    InvalidSetup,
    /// A move was not legal: the board before it.
    IllegalMove(Board),
    /// All the moves were legal: the board after them.
    Ready(Board),
}

/// Whether two texts are the same.
fn text_is(a: &str, b: &str) -> (r: bool)
    ensures
        r == (a@ == b@),
{
    let n = a.unicode_len();
    if n != b.unicode_len() {
        assert(a@.len() != b@.len());
        return false;
    }
    for i in 0..n
        invariant
            n == a@.len(),
            n == b@.len(),
            forall|k: int| 0 <= k < i ==> a@[k] == b@[k],
    {
        if a.get_char(i) != b.get_char(i) {
            assert(a@[i as int] != b@[i as int]);
            return false;
        }
    }
    assert(a@ =~= b@);
    true
}

/// Reads a set-up: `None` where it cannot be read, else the board it names, if any.
fn read_setup(setup: &str) -> (r: Option<Option<Board>>)
    ensures
        r is Some <==> setup_ok(setup),
        r matches Some(x) ==> x == setup_board(setup),
{
    proof {
        reveal_strlit("startpos");
        assert("startpos"@ =~= word_startpos());
        vstd::utf8::encode_utf8_valid_utf8(setup@);
    }
    if text_is(setup, "startpos") {
        return Some(Some(Board::new()));
    }
    if !setup.is_char_boundary(3) {
        return None;
    }
    let bytes = setup.as_bytes();
    let n = bytes.len();
    if !(bytes[0] == 102u8 && bytes[1] == 101u8 && bytes[2] == 110u8) {
        assert(setup.spec_bytes().subrange(0, 3)[0] == bytes@[0]);
        assert(setup.spec_bytes().subrange(0, 3)[1] == bytes@[1]);
        assert(setup.spec_bytes().subrange(0, 3)[2] == bytes@[2]);
        return Some(None);
    }
    assert(setup.spec_bytes().subrange(0, 3) =~= fen_bytes());
    if n < 6 {
        return None;
    }
    if !setup.is_char_boundary(n - 1) {
        return None;
    }
    let (front, _) = setup.split_at(n - 1);
    proof {
        vstd::utf8::encode_utf8_valid_utf8(front@);
    }
    if !front.is_char_boundary(5) {
        return None;
    }
    let (_, fen) = front.split_at(5);
    proof {
        assert(fen.spec_bytes() =~= setup.spec_bytes().subrange(5, n - 1));
        vstd::utf8::encode_utf8_decode_utf8(fen@);
        assert(fen@ == setup_fen(setup));
    }
    if !fen_is_valid(fen) {
        return None;
    }
    Some(Some(Board::from_fen(fen)))
}

/// Plays the moves of a `position` command from `b`; see `replay`.
fn replay_moves(start: Board, moves: &[&str]) -> (r: (Board, bool))
    requires
        replay_ok(start, str_texts(moves@)),
    ensures
        r == replay(start, str_texts(moves@)),
{
    let ghost ms = str_texts(moves@);
    let mut b = start;
    let ghost b0 = start;
    assert(ms.subrange(0, ms.len() as int) =~= ms);
    for i in 0..moves.len()
        invariant
            ms == str_texts(moves@),
            b0 == start,
            replay(b0, ms) == replay(b, ms.subrange(i as int, ms.len() as int)),
            replay_ok(b, ms.subrange(i as int, ms.len() as int)),
    {
        let ghost rest = ms.subrange(i as int, ms.len() as int);
        assert(rest[0] == moves@[i as int]@);
        assert(rest.drop_first() =~= ms.subrange(i + 1, ms.len() as int));
        let text = moves[i];
        let m = Move::chess_notation_to_move(text);
        assert(m == notation_move(rest[0]));
        let e = MoveEvaluator { m, b: &b };
        if e.is_legal_move() {
            b.play_move(m);
        } else {
            return (b, false);
        }
    }
    assert(ms.subrange(ms.len() as int, ms.len() as int).len() == 0);
    (b, true)
}

/// Whether the moves of a `position` command can be played from `b`; see `replay_ok`.
fn replay_is_ok(start: Board, moves: &[&str]) -> (r: bool)
    ensures
        r == replay_ok(start, str_texts(moves@)),
{
    let ghost ms = str_texts(moves@);
    let mut b = start;
    let ghost b0 = start;
    assert(ms.subrange(0, ms.len() as int) =~= ms);
    for i in 0..moves.len()
        invariant
            ms == str_texts(moves@),
            b0 == start,
            replay_ok(b0, ms) == replay_ok(b, ms.subrange(i as int, ms.len() as int)),
    {
        let ghost rest = ms.subrange(i as int, ms.len() as int);
        assert(rest[0] == moves@[i as int]@);
        assert(rest.drop_first() =~= ms.subrange(i + 1, ms.len() as int));
        let text = moves[i];
        if !is_move_notation(text) {
            return false;
        }
        let m = Move::chess_notation_to_move(text);
        assert(m == notation_move(rest[0]));
        if !Board::in_bounds(m.src) {
            return false;
        }
        let e = MoveEvaluator { m, b: &b };
        if e.is_legal_move() {
            if !b.can_play_move(m) {
                return false;
            }
            b.play_move(m);
        } else {
            return true;
        }
    }
    assert(ms.subrange(ms.len() as int, ms.len() as int).len() == 0);
    true
}

/// Whether a `position` command can be carried out: the set-up can be read, and the moves
/// can be played from the board it names.
pub fn position_is_ok(boardsetup: &str, moves: &[&str]) -> (r: bool)
    ensures
        r == (setup_ok(boardsetup) && (setup_board(boardsetup) matches Some(b0) ==> replay_ok(
            b0,
            str_texts(moves@),
        ))),
{
    match read_setup(boardsetup) {
        None => false,
        Some(None) => true,
        Some(Some(b0)) => replay_is_ok(b0, moves),
    }
}

/// Sets up the position of a `position` command: the board the set-up names, and the moves
/// played on it in turn until one is not legal.
pub fn cmd_position(boardsetup: &str, moves: &[&str]) -> (r: PositionSetup)
    requires
        setup_ok(boardsetup),
        setup_board(boardsetup) matches Some(b0) ==> replay_ok(b0, str_texts(moves@)),
    ensures
        match setup_board(boardsetup) {
            None => r is InvalidSetup,
            Some(b0) => {
                let (b, all_legal) = replay(b0, str_texts(moves@));
                r == if all_legal {
                    PositionSetup::Ready(b)
                } else {
                    PositionSetup::IllegalMove(b)
                }
            },
        },
{
    match read_setup(boardsetup) {
        Some(Some(b0)) => {
            let (b, all_legal) = replay_moves(b0, moves);
            if all_legal {
                PositionSetup::Ready(b)
            } else {
                PositionSetup::IllegalMove(b)
            }
        },
        _ => PositionSetup::InvalidSetup,
    }
}

} // verus!

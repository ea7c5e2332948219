# chess

A small chess engine whose logic is checked by Verus: board representation, move
generation, evaluation, a scored search and an alpha-beta search, an opening book, FEN
reading and writing, and the few commands of the Universal Chess Interface it answers.

## Layout

- `src/board.rs`: pieces, colors, moves and the board; playing a move (castling and
  promotion included), attack and defence counts, piece and position values.
- `src/move_generator.rs`: the moves of each kind of piece and of a whole side, with the
  filters on pieces and destinations.
- `src/engine.rs`: scoring a move, the scored search, the alpha-beta search and the
  opening book.
- `src/fen.rs`: reading and writing positions in Forsyth-Edwards notation.
- `src/picture.rs`: the picture of a board shown to a player.
- `src/game.rs`: a game played turn by turn.
- `src/uci.rs`: reading command lines and setting up the position of a `position` command.
- `src/text.rs`: decimal text of small integers.
- `src/laws.rs`: properties that relate several operations.
- `app/main.rs`: the program: standard input and output, the book file, the game loops.
- `tests/`: tests on concrete positions.

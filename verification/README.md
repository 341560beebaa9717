# quintet

A Renju library: the board as lines of stones, the shapes stones make on
them (rows, sequences, potentials), the moves Black may not play, and a
compact text for positions. The functions in `src/` carry contracts
that Verus proves; the one unproved item, the wrapper around
`String::push`, is marked as trusted.

- `src/board/`: the board as 72 lines kept as bit masks, points and their
  text, segments and sequences, rows, potentials, the Zobrist hash, the
  forbidden moves, and maps of swords kept in step with the board.
- `src/bitboard/`: a second board, whose lines find rows through pattern
  tables and remember which kinds of rows they cannot hold; its own rows,
  eyes and forbidden moves.
- `src/analysis/`, `src/feature/`: fields kept alongside a board (swords,
  potentials, and per point the shapes a stone there would make, with the
  count of threes and fours whose eyes look forbidden for Black).
- `src/encoding.rs`: positions written like `H8,J9/I9`.
- `src/analyzer/`: patterns that give a row's segment where they match,
  slid over a line to find its rows; the pattern tables for fours, fives
  and overlines; a search of those rows over a whole board or through one
  point, which keeps the rows of each line it has scanned; and an analyzer that answers for rows, their eyes and the
  forbidden moves.
- `tests/`: the library's tests.
- `app/`: a small program that reads game codes and prints the board,
  the forbidden moves and the rows.

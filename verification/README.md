# sanqi

Rules, search engine and rendering for Sanqi (三棋), a two-player board game
in which a piece moves by jumping across the point halfway between two of its
own pieces. The library is written in Verus: its functions carry
`requires`/`ensures` contracts that Verus proves. The searches are specified
exactly: a search cut short by its deadline gives the best result among the
root moves that finished, and the contracts say which result that is for the
number of finished moves it reports; only that number, and the time
measurements, depend on the wall clock.

## Layout

- `src/board.rs`: colors, squares, moves and their notation, support pairs and pivots.
- `src/position.rs`: bitboard positions, legal move generation, apply/undo, outcome,
  pivot queries, and the laws about them (undo restores, incremental Zobrist key).
- `src/zobrist.rs`: the Zobrist hash of a placement and side to move.
- `src/game.rs`: games as move histories with every reached position.
- `src/movetext.rs`: PGN-like movetext such as `1. h1-d3 h8-d6 2. a1-d4`, with the
  proof that parsing gives back what formatting wrote.
- `src/eval.rs`: the static evaluation.
- `src/table.rs`: the transposition table (buckets of four entries).
- `src/search.rs`: move ordering, quiescence search, alpha-beta search, iterative
  deepening with a time budget, principal variations and search statistics.
- `src/clock.rs`: the wall clock used for deadlines (the only trusted code besides
  appending a character to a string in `src/text.rs`).
- `src/render.rs`: text and SVG boards.
- `src/frontend.rs`: replaying move lists and reading side and style names.
- `src/interactive.rs`: the decisions of interactive play (reading a command, the
  engine's turn, game over, performing a command).
- `app/main.rs`: the `sanqi` command-line program (board, moves, best, best-time,
  apply, record, replay, svg, play).
- `tests/`: behaviour tests.

# mick

A bitboard chess move generator and engine core, verified with Verus.

- `src/` is the library: bitboards and their ray attacks, squares, pieces,
  castling rights, moves, FEN reading and writing, the position with making
  and taking back moves, legal move generation, evaluation, perft counting,
  alpha-beta search, the UCI command reader and the state of an interactive
  game. Every function there carries a contract that Verus proves; the laws
  that tie functions together are public proof functions named `law_*`.
- `app/` is the command-line program around it: argument handling, the
  terminal game, the UCI loop and threaded perft.
- `tests/` runs the library on concrete positions.

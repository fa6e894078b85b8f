# chessbot

A chess engine whose logic is verified with Verus.

There are two engines in the crate:

- a self-contained one on an 8x8 board of squares (`pieces`, `utils`, `moves`,
  `material`, `move_ordering`, `search`): move generation with check masks and a
  legality filter, material and position evaluation, move ordering, perft and a
  principal-variation search, each function with a contract over spec functions;
- one that plays on `cozy_chess` boards (`cozy`, `hashing`, `engine`): Zobrist hashing,
  a transposition table, material counting over bitboards, move ordering and an
  alpha-beta search. The calls into `cozy_chess` and `rand` are trusted items in
  `cozy.rs` and `hashing.rs`, each with a doc comment saying what is assumed.

`fen` reads and writes Forsyth-Edwards Notation on top of `text`, which splits fields
and recognises numbers as `str::parse` does.

`app/` holds the Python module (pyo3), the shared keys and table, and the timed,
threaded search loop. `tests/` runs the library on concrete positions.

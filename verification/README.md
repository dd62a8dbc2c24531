# chess_engine

A chess engine library verified with Verus: bitboard move generation, making and taking back
moves with an incrementally updated Zobrist hash, FEN reading and writing, material evaluation,
minimax and alpha-beta searches, perft counting, a hash-collision tester, a game history with
repetition counting, and the command-line argument parser of the interactive interface.

Layout:

- `src/rules/` squares, bitboards, positions, board state, move generation and making moves;
  `src/rules/board/hashes.rs` proves that the incremental hash always equals the hash computed
  from scratch for moves that fit the position, that it matches the hash of the board read back
  from its FEN record, that a change worked out ahead agrees with the move made, and that a
  FEN record as written reads into a board that writes it back. The FEN round trips hold when
  the two black castling rights are both held or both lost: the FEN writer writes the black
  queenside letter from the black kingside right.
- `src/util/` FEN records (with the proof that a written record reads back, the black rights
  as above), Zobrist hashing,
  errors, the priority-queue builder and the game-piece table.
- `src/engine/` evaluation, move ordering, the minimax search and the alpha-beta searches,
  including the per-node decisions of the threaded alpha-beta search; the alpha-beta search is
  proved to give the minimax value of the trees in which no two boards share a hash.
- `src/game/` the game and its history.
- `src/testing/` perft and the Zobrist collision tester.
- `src/interface/` the argument parser and the texts of the interactive interface.
- `app/` the interactive shell (rustyline), thread pools and the threaded drivers.
- `tests/` scenarios on concrete positions and command lines.

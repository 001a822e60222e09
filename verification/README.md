# Bitboard chess engine, verified

A chess engine on bitboards (one `u64` per piece kind, bit `8 * rank + file`)
whose rules, move generation, search and notation are proved correct with
Verus.

Layout:

- `src/bits.rs` — single-square bit facts used everywhere.
- `src/board.rs` — `Piece`, `Board`, `CastlingRights`, `UndoInfo`; occupancy
  masks, piece lookup, `make_move` / `unmake_move`, and the proof that taking
  back a move restores the board.
- `src/moves.rs` — `Move`; the rules of every piece (`legal_shape`), castling,
  attacks, check, executing a move.
- `src/movegen.rs` — candidate destinations and the generation of all legal
  moves, proved sound and complete.
- `src/distinct.rs` — the proof that the generated list names each move once.
- `src/evaluate.rs` — material and piece-square evaluation, move ordering, the
  alpha-beta search, proved equal to minimax with the full window and a
  bound on it outside the window; the engine's move is proved best; swapping
  colours negates the evaluation.
- `src/notation.rs` — FEN output and the text diagram.
- `src/ui.rs` — square and move text input, the turn logic of the terminal
  game.
- `app/` — the program: file polling for the viewer, terminal I/O.
- `tests/` — scenarios on concrete positions.

# xiangqi

Chinese chess for self-play training: the rules with their verdicts on repeated positions, the
encoding of games for a network, tree search, the production of training samples, and matches
between models. The library is written in Verus, and every function states and proves what it does.

- `src/grid.rs`, `src/fen.rs`, `src/types.rs`, `src/text.rs`, `src/bytes.rs`: the board, its text
  form, and numbers as text and bytes.
- `src/kernel/`: positions that are never changed, games, their encoding, search, self-play, the
  batches of an evaluating thread, matches, settings, and the game on the screen.
- `src/engine/`: a board on which moves are made and taken back, its games, hashes, encoding, search
  and self-play, with shards of its own.
- `src/store.rs`: shards in the safetensors format, and the names of shards and models.
- `tests/`: tests.
- `app/`: the programs. Files, threads, networks, the screen and all floating-point arithmetic are
  there.

The library holds floating-point numbers as bit patterns. Where the search needs arithmetic on them,
it asks functions that the caller hands in.

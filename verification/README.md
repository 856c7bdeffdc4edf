# tetris_ai

A Tetris engine and the board logic of a Tetris AI, written in Verus and
proved against its contracts.

## Layout

- `src/` — the verified library.
  - `tetris.rs`: pieces, SRS rotation with wall kicks, the 7-bag, the game
    (moves, hold, hard drop, locking with line clears, T-Spin scoring,
    back-to-back and attack, rising garbage).
  - `scoring.rs`: board measures (column heights, wells, holes, T-slots, the
    deep-well bonus).
  - `ai.rs`: the breadth-first search of every resting position a piece can
    reach, the input paths that play them, placing a landing, playing a
    chosen move.
  - `opening/`: opening templates — conditions on the piece order, mirrored
    branches, reading pieces out of board maps (`board_map.rs`), preparing a
    template's maps (`layout.rs`), following a map during play (`guide.rs`).
  - `tspin_recorder.rs`: the five turns before and after each T-Spin.
  - `server.rs`: the rules of an AI battle; `benchmark.rs`: seeded games.
  - `rng.rs`, `text.rs`: the calls into `rand` and `std` string functions
    that the library trusts, with their contracts.
- `tests/` — tests of the library.
- `app/` — the program around the library: terminal UI, evaluator with
  floating-point features and GPU back ends, training, benchmarks, the web
  server, file I/O.

# RustClaw

A chess engine with a quantized NNUE evaluator (HalfKP 40960 -> 256x2 -> 32 ->
32 -> 1), its search, its training data handling and its network file format.
The library in `src/` is verified with Verus; `app/` is the command line
program around it.

## Library (`src/`)

- `arith`: clamping, truncating division and 16-bit wrapping.
- `chess`: positions, moves, pieces and sides as plain values.
- `movegen`: move generation, FEN parsing and printing, done by `cozy_chess`
  behind trusted wrappers.
- `codec`: little-endian integers, done by `byteorder`.
- `features`: HalfKP feature indices of a position.
- `accumulator`: the feature transformer and its incrementally updated
  accumulators, with the laws that incremental updates equal full refreshes
  and can be undone.
- `layers`: the quantized hidden and output layers, with a check that rules
  out arithmetic overflow.
- `network`: the whole network, its evaluation and its file image, with the
  law that loading a saved network gives it back.
- `search`: opening book, perft, quiescence, negamax and iterative deepening,
  whose values, move choice and node counts are stated exactly when no clock
  limits them.
- `text`: words, separators and decimal numbers on character sequences.
- `data`: training positions, the mirroring augmentation (mirroring twice
  gives a FEN back), Lichess records, the streaming dataset and the
  synthetic and self-play generators.
- `uci`: move notation and the UCI commands.
- `session`: what each message of the web board does.

## Program (`app/`)

`main.rs` parses the command line and runs the UCI loop, the web server
(axum), the benchmark, data generation, Lichess import and the
floating-point trainer. Network files, JSON records and random
initialisation live there too.

# bullet_shogi

The verified core of a value-network trainer for shogi and chess.

- `src/game/outputs.rs`: which output head a position is scored by (material, king ranks, ply, progress).
- `src/trainer/schedule/wdl.rs`: schedules of the WDL lambda.
- `src/value/trainer.rs`: what a training run does after each batch and superbatch, and how positions are evaluated.
- `src/value/validate.rs`: validation metrics, and reading packed positions.
- `src/utils/shuffle.rs`: shuffling a file of positions, in memory or in parts.
- `src/shogi.rs`, `src/text.rs`: positions and decimal text.
- `src/counting.rs`, `src/exact.rs`: counts and functions of real numbers, for contracts.

The library computes with integers only. Numbers of a network are of a type parameter `L`: they are
carried into formulas, which `app/` works out in floating point. What a formula means is stated over
the reals (`exact_value`, `exact_progress`, `exact_loss`, `exact_eval`), and the laws about it are proved
there. `app/` also holds the file and device access.

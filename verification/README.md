# sim_core

The core of Particle Factory, a deterministic falling-sand factory game: element data,
the world's storage, one tick of machines, movement, chemistry and heat, the hashes a
replay is checked against, and the pixels and sprites a frame is drawn from. It has no
floats, no clock and no system randomness, and every function in `src/` is verified
with Verus against its contract.

## Layout

- `src/fixed.rs`, `src/json.rs`, `src/elements.rs`, `src/reactions.rs`,
  `src/entities.rs` (tables), `src/rules.rs`: fixed-point numbers and the data files,
  read without ever going through a float.
- `src/field.rs`: the storage interface the rules are written against, with its model:
  a cell, a temperature and a moved flag per position, and a census.
- `src/grid.rs` (a flat rectangle with hard edges) and `src/chunk.rs` (sparse chunks on
  an unbounded plane, with sleeping): the two storages.
- `src/step.rs`, `src/heat.rs`, `src/compress.rs`, `src/entities.rs` (machines),
  `src/spawners.rs`, `src/paint.rs`: what a tick and the player do to the world, each
  specified exactly over the model.
- `src/visits.rs` and `src/transparent.rs`: why the extent of a sweep does not matter,
  and why a walled-in chunked world evolves exactly as the flat one.
- `src/world.rs`, `src/scene.rs`, `src/hash.rs`, `src/rng.rs`: worlds, scenes,
  fingerprints and the position-hash randomness, and why sleeping chunks never change
  what a world does: every cell that could move stays next to reported activity.
- `src/render.rs`, `src/sprites.rs`: the frame buffer and machine sprites.
- `tests/`: the test suite, run against the compiled library.
- `app/main.rs`: `sim-hash`, a headless runner that prints a world's fingerprint.

# necrofactory

The core of a 2D factory game with mod support, as a verified library.

- `src/` holds the logic, with contracts proved by Verus: the fixed-point
  types (`math`), the tile world and positions (`world`), the definition
  registries, mod metadata, dependency checks, cycle detection and load
  ordering (`modding`), input bindings (`input`), recipes (`factory`), the
  chunks that world generation makes (`world_gen`) and the
  choice of chunks to draw (`graphics`). Version strings are parsed and
  matched by the `semver` crate behind a few trusted wrappers in
  `modding/version.rs`; the rounding, products, quotients and remainders of
  `FixedVec2` are computed by the `fixed` crate behind wrappers in
  `math/fixed_vec2.rs`.
- `app/` is a command-line program around it: it reads the settings and the
  mods from disk (`serde`, `toml`, `ron`), runs discovery, validation and
  registration through the library, and reports the load order. The
  floating-point parts of the game (positions as floats, collisions, the
  jetpack) live there too.
- `tests/` runs the library on concrete values.

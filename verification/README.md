# galaxy_sim

Verified core of a two-galaxy N-body simulation.

- `src/text.rs` – Unicode whitespace, trimming, searching and comparing
  windows of a `Vec<char>`.
- `src/config.rs` – reading the `config` block of `informations.md`: which
  lines assign which setting, the `usize` syntax of the body count, and the
  `min, max` syntax of the mass range. `src/config_laws.rs` proves what holds
  of every text.
- `src/grid.rs` – the uniform grid that selects the candidate pairs for the
  collision pass. `src/grid_laws.rs` proves that the candidates are exactly the
  pairs of bodies in a cell and its forward neighbours, each once.
- `app/` – the floating-point parts (parsing float settings, collision
  response, hydrodynamic inflow, initial galaxy velocities) and the entry point.

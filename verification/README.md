# goblin_core

The verified core of a transit-network editor that turns a geographic
network of stations, edges and lines into an octilinear schematic.

- `src/` is the library, verified with Verus: network validation and the
  adjacency list (`builder`), detection of circular lines (`cycles`), hop
  distances between stations (`initial`), preprocessing (`preprocess`), the
  order and choice of label placements (`labels`), the offsets of lines that
  share an edge (`render`), the pseudo-random generator and the choices it
  drives in the annealing (`annealing`), the swap move (`operators`) and the
  polygon chosen for a circular line (`circle`). Identifiers are the 128-bit
  values of UUIDs; `ident` formats them with the `uuid` crate.
- `tests/` exercises the library on concrete networks.
- `app/` holds the HTTP routes (axum), the serde types of the API and the
  floating-point stages of the layout (energies, stress majorisation,
  annealing, repair passes, polygon placement and label geometry), which
  call into the library for the steps above.

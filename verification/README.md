# planet_sim

The verified core of a small planet simulator: the combinatorial mesh machinery used to
build Goldberg-style planet tiles (vertex and polygon arrays, edge maps, subdivision into
triangles and quads, random pairing of triangles into quads, neighbour and adjacency
lists), the chemical tables, hex color parsing, and the selection and sidebar layout
decisions of the user interface.

Layout:

- `src/` — the library, written in Verus; every function carries a contract and is
  proved. `src/mesh/laws.rs` states the properties that span several operations.
- `tests/` — ordinary Rust tests of the library.
- `app/` — the Bevy application: rendering, input, physics and everything that works on
  floating-point positions, calling the library for the decisions and the mesh topology.

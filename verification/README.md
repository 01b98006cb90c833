# plurtfm

A lamp designer's core: polyhedra whose faces carry printed circuit boards
(one board variant per face), and a path through all faces along which a LED
strip is soldered. A path is written down as turns — how many solder
jumpers to close on each board — so that a lamp can be rebuilt from a small
design.

- `src/` is the verified library (Verus):
  - `polyhedron.rs`: faces, the edge table, edges and their positions;
  - `make_path.rs`: walking, searching, applying and reading back paths;
  - `search.rs`: the order in which a path is searched, as a function of
    the faces, the path so far and the visit lists;
  - `reapply.rs`: a path read back in full applies again to the same
    crossings;
  - `pcbdron.rs`, `pcboron.rs`: one polyhedron with its board variants, and
    a lamp of several, with its designs and the plan of the drawn path;
  - `design.rs`: designs and how they merge;
  - `rebuild.rs`: why a lamp's own design gives its board variants back;
  - `flags.rs`: board identifiers and variant bits;
  - `load.rs`: a polyhedron from the rows of the polyhedron database, and
    the check that it is well formed;
  - `ui.rs`: what key presses and clicks ask for;
  - `visits.rs`: the per-face list of path positions (a `SmallVec`).
- `app/` is the WebAssembly side: the database, geometry, rendering and the
  event handlers, around the library.
- `tests/` exercise the library.

# brep_kernel

The topological and textual core of a small boundary-representation kernel,
written in Verus: every function in `src/` carries a contract, and Verus
proves the code against it.

## Layout

- `src/topology.rs`, `src/halfedge.rs` – indexed triangle meshes and the
  half-edge structure built from them; construction rejects out-of-range,
  degenerate, duplicate, non-manifold and open input, and a built mesh is
  proved closed.
- `src/identity.rs` – persistent topology identities and their history; the
  validity of an identity table is kept by every allocation and record.
- `src/euler.rs` – the `MVFS`, `MEV` and `MEF` construction operators, each
  proved to keep `V - E + F = 2` and the builder's well-formedness.
- `src/sewing.rs` – union–find clustering of close vertices and the
  renumbering of sewn triangles.
- `src/boolean.rs`, `src/intersection.rs` – the discrete decisions of the
  boolean and intersection layers (region actions, split states, operand
  bookkeeping, closed operand subsets, triangle filtering and compaction,
  the stitching of welded intersection segments into walks);
  `src/stitch_laws.rs` proves that stitching walks every edge exactly
  once; `src/predicates.rs` and `src/nurbs.rs` hold the sign and error
  vocabularies of the floating-point layers.
- `src/trim_topology.rs`, `src/trim_nesting.rs`, `src/face_splits.rs` – the
  topological checks of face trim loops (half-edge chaining, one outer loop
  per face), the parent and depth of nested loops from area ranks and
  containment, the uses of staged split edges, staged face splitting with
  rollback and identity bookkeeping (`src/face_splits.rs`), and the plan for
  installing a trim-ready intersection curve (`src/face_install.rs`); the
  measured quantities come in as flags and ranks.
- `src/cube_cylinder.rs` – the connectivity of the cube-minus-cylinder
  boolean, proved to build a closed half-edge mesh of genus one for every
  segment count from three on.
- `src/tessellation.rs` – the triangle indices of regular-grid surface
  tessellation.
- `src/text.rs`, `src/exchange.rs` – character-level text helpers and the
  faceted STEP and IGES writers and readers, each stated as a function on
  characters.
- `src/exchange_laws.rs`, `src/step_laws.rs`, `src/step_round_trip.rs` – the
  proofs that each reader gives back what its writer wrote.
- `src/features.rs` – the prompt parser of the feature layer.
- `src/errors.rs`, `src/hashing.rs`, `src/api.rs` – diagnostics, FNV hashing
  (with the stable mesh hash) and the version facade.

`app/` holds what works on floating-point coordinates (vector math,
analytic primitives, NURBS evaluation, interval predicates, edge and trim
curves, face support surfaces and their projections, curve and surface
intersections (with surface/surface refinement), trim-loop areas and
point-in-loop tests, solids with points, volumes, face surfaces, trim loops
and staged splits, vertex placement of the
cube-minus-cylinder boolean, the distance and sliver measurements of boolean
mesh healing, feature execution with polygon triangulation by
`earcutr`, number formatting for the exchange formats); it calls the library
for the topological and textual decisions. `tests/` runs the library on concrete
values.

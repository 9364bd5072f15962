# fluxel

An adaptive hierarchical grid (an octree forest on a Morton space-filling curve) for CFD meshing,
with the integer side of an immersed-boundary pipeline, verified with Verus.

- `src/` — the verified library: Morton coding (`morton`), packed cell keys (`key`), the forest
  and its leaf list (`forest`), point location (`query`), refinement and coarsening (`refine`),
  face neighbours (`neighbour`), 2:1 balance (`balance`), fluid/solid flood fill (`flood`), the
  immersed-boundary decisions (`ibm`), the exported face topology (`export`) and the patches
  and connectivity of OBJ surfaces (`obj`).
- `tests/` — executable tests of the library.
- `app/` — floating-point geometry, surface meshes and ray casts (parry3d), mesh export and the
  Python bindings (PyO3/NumPy), built on the library.

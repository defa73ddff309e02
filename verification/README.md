# cadrum

The verified core of cadrum, a CAD library built on OpenCASCADE.

`src/` is the library, proved with Verus:

- `common::boolean` — boolean expressions over solids as a flat DNF (union, intersection,
  difference, and building through a backend);
- `common::sketch` — 2D sketches as a DNF of generalised disks (union, intersection,
  complement, difference) and the chaining of boundary pieces into loops (every piece
  used once);
- `occt::io` — the BRep colour trailer (decode, encode, round trip), the STEP colour lists
  (both directions, round trip) and mesh colours;
- `occt::shape` — boolean results and how face colours follow them; `occt::stream`, the
  reader and writer ends handed to the backend;
- `sdf` — marching-squares topology, outside components of a cell grid and their traced
  boundaries;
- `clang` — the command line of the clang.wasm runner;
- `error`, `common::error` — the error types and their messages.

`app/` holds what cannot be verified: the C ABI of the OpenCASCADE wrapper and the STEP/BRep
reading, writing and meshing around it, floating-point geometry, PNG previews and the wasmtime runner. `tests/` exercises the library.

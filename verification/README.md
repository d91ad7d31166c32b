# cadrum (STEP import bookkeeping, verified)

The verified library under `src/`:

- `binding` — STEP entity bindings: decoding the bound reader's columns,
  sorting decomposed bodies into exact solids, recovered and unbound
  display-only bodies, and locating occurrence definitions.
- `trailer` — the colour trailer after a BRep payload: reading, writing,
  and resolving trailer indices to kernel ids.
- `color_columns` — colours as id/channel columns exchanged with the STEP reader and writer.
- `mesh_colors` — which colour each meshed face is drawn with.
- `edges` — which discretized edges a mesh draws.
- `visual` — display-only bodies and faces, tessellation presets and their output budgets.
- `index`, `error` — shared helpers and the error type.

Colours are held as the bit patterns of their `f32` channels, and
tessellation tolerances in integer micrometres and milliradians.

`app/` holds the kernel-facing glue: the floating-point types (colours,
tolerances, placement matrices and mesh coordinates through `glam`) and the
read/write/mesh entry points, written against a `Kernel` trait that stands
for the geometry kernel's bindings.

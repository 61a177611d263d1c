# cubes_lib

The world model of a voxel game, verified with Verus: octrees of blocks,
256³ chunks built on them, their binary file format, greedy meshing, Morton
codes and the per-dimension chunk storage.

A branch keeps its eight sub octrees in slots counted from the high
corner: slot 0 holds the high corner along x, y and z, slot 7 the low
corner, and slot `i` the octant that `OctantId` numbers `7 - i`. Building
(`gen_subtree`, splitting a flat node) and iteration use the slot order;
the parts that go by `OctantId` order (the byte format, `Octree::octants`,
Morton-ordered building, the parts of a chunk's mesh) visit the slots from
7 down to 0.

## Layout

- `src/point.rs` – points with three coordinates.
- `src/octree/` – octrees with a runtime height over cubes of `u16` cells:
  lookup, insertion, deletion, compression (with the canonical-form lemma),
  breadth-first iteration, building from a Morton-ordered array, and the laws
  relating insertion and deletion (`laws.rs`).
- `src/chunk/` – chunks and their construction (`builder.rs`), the node/block
  byte format with its round-trip law (`file_format.rs`, `format_laws.rs`,
  `format_check.rs`), greedy meshing (`mesher.rs`, `quad_order.rs`) and the
  split of a chunk into mesh parts (`mesh_parts.rs`).
- `src/morton_code.rs` – Morton codes of `i32` points, with decoding proved to
  undo encoding.
- `src/dimension/` – chunks kept sorted by Morton code, with binary search,
  and the choice of chunk positions to generate.
- `src/collision.rs` – the chunks taking part in collision detection and the
  handles of their collision objects.
- `app/` – the program around the library: files, compression, serde records
  and floating-point vertex data.
- `tests/` – tests run against the compiled library.

# scanimprover

The combinatorial core of a tool that repairs triangle meshes from 3D scans,
written in Verus: every function under `src/` carries a `requires` /
`ensures` contract that Verus proves, except a handful of trusted
wrappers around outside code, whose contracts are taken on trust:
`rayon`'s parallel sorts (`src/sorting.rs`, `src/geom/retopo/post.rs`) and
parallel facet decoding (`src/io/stl.rs`), and `std::str::from_utf8` and
`String::push` (`src/text.rs`).

## Layout

- `src/io/` — OBJ, STL and PLY (ASCII and binary) reading and writing, with
  proofs that writing and reading back gives the same mesh.
- `src/geom/` — mesh topology and repair:
  - `topology.rs`, `boundary.rs`, `hole_detect.rs` — edge adjacency,
    boundary edges and hole loops;
  - `repair.rs`, `cleanup.rs`, `shells.rs`, `orient.rs` — the health report,
    non-manifold checks, shells, consistent winding;
  - `segment.rs` — merging regions that are too small into a neighbour;
  - `retopo/` — splitting pinched faces, pruning dangling edges, colouring
    the vertex graph into independent phases, and counting irregular
    vertices of a quad mesh;
  - `guided_fill/` — rim labels and their runs, where the creases of a
    fill run, the rim topology and the topology check of a rebuilt patch;
  - `bridge.rs` — the selection clusters to bridge, their boundary chains,
    and the triangles of the bridge's vertex grid;
  - `hole_fill.rs`, `alignment.rs` — the options of hole filling and
    alignment;
  - `solid/` — the B-Rep topology read off a closed mesh and its face groups
    (`topo.rs`), and its check by the Euler–Poincaré formula (`mod.rs`).
- `src/graph.rs`, `src/sorting.rs`, `src/text.rs`, `src/numbering.rs` —
  shared graph, sorting and text helpers.
- `app/` — the floating-point parts over the library: file reading and
  writing by path; the repair steps whose floating-point part is a measure
  (triangle areas, shell volumes, dihedral angles) that decides what the
  library is asked to do; the datum alignment (rotations and positions,
  with the axis order from the library); the bounding volume hierarchy for
  closest-point, ray and sphere queries; and the orientation of a solid
  before its topology is built. Surface fitting, hole-fill fairing, bridge
  and patch shaping and remeshing are not part of this crate.
- `tests/` — tests of the library on concrete meshes.

Sorting goes through `rayon`'s parallel sorts; `app/` uses `glam` for
vectors.

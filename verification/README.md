# grch_procedural_gen

A 3D procedural dungeon generator: binary space partitioning, room placement, orthogonal
corridor routing and OBJ export, with the generation logic proved correct in Verus.

Layout:

- `src/types.rs`: points, axes, rooms, tiles, partition nodes, and the split of a tile.
- `src/random.rs`: the calls into `rand`.
- `src/lib.rs`: splitting a space into a partition, placing rooms in its leaves, and the proofs
  that leaf tiles (and rooms inside them) never collide and that every leaf has its own number.
- `src/edges.rs`: joining rooms across splits, routing the joins as orthogonal paths through the
  tiles, and widening the paths into corridors.
- `src/routing.rs`: the router's state machine, and the proof that every path it lays is an
  unbroken chain of axis-aligned segments from the start of an edge to its end.
- `src/joins.rs`: the proof that the edges between rooms form a spanning tree of the rooms.
- `src/map.rs`: the tile map, with a stable sort proved sorted and content-preserving.
- `src/obj.rs`: writing boxes as OBJ text, decimal numbers included, with vertices numbered on
  from box to box so that each face names only its own box's vertices.
- `src/generate.rs`: the whole pipeline from a split partition to the OBJ text.
- `app/lib.rs`: seeding, the floating-point room measurements, and writing `grch_export.obj`.

# pgecore

The core of a small game engine, written in Verus. Every function in `src/`
carries a contract; Verus proves all of them except three small trusted
wrappers around outside calls (`Vec::capacity` twice, and `==` on
`thunderdome` handles), whose contracts rest on what their documentation
promises.

- `arena` — a slot arena with a free list; handles, iteration, and the laws
  of insert, get and remove.
- `buffer`, `hardware`, `buffers` — byte buffers staged for the GPU, render
  passes that record their bindings per draw, and a buffer of items kept by
  group and id that reports its changed ranges as write commands.
- `node_manager` — the slot layout of node records on the GPU.
- `mesh_draws` — which mesh primitives are drawn, the buffer ranges their
  bytes take, and one draw call per scene for the instances in it.
- `spatial_grid` — the cells of a uniform grid and the nodes listed in them.
- `utility`, `scene_graph` — ordering a scene graph parents first, the
  order and structure of a deep copy of a node and the inserts that make
  it, and the scene a node belongs to.
- `types`, `gui`, `camera`, `debug`, `draw_queue`, `input`, `internal_types`,
  `experiment`, `math` — the plain data types and small helpers around them.

`app/` holds what stays outside the proofs: types with floating-point
geometry, the float side of the spatial grid, `bytemuck` byte layouts, and
process-wide state. `tests/` runs the library on concrete values.

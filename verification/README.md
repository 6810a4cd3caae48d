# psx_converter

Converts `.obj` meshes and `.png` texture pages into the binary files read by a
PlayStation 1 engine:

- `.msh`: visual meshes (triangles and quads with colours, texture
  coordinates, texture ids and normals), optionally split into regions of
  about 80 polygons;
- `.txc`: texture collections (4-bit 64x64 cells faded over 16 levels, or
  8-bit pages of up to 256x256);
- `.col`: collision meshes with a bounding volume hierarchy and a navigation
  graph.

The library in `src/` is written in Verus and verified:

- `psx_structs`, `bytes`: the file formats, each file's bytes given by a spec
  function, with laws on the layout (alignment, offsets, mesh descriptors);
- `visual`, `grid_counts`, `grouping`, `materials`: assembling polygons
  from faces, merging meshes of the same name (in name order), splitting
  meshes along the grid of their bounding box (no polygon lost or
  duplicated), texture ids of materials, and texture cells;
- `quantize`, `texture_page`: colour quantization (through `exoquant`) and
  palette conversion, with transparent colours kept first;
- `collision`: the bounding volume hierarchy, built exactly as specified by
  `built_hierarchy`, and the navigation nodes;
- `helpers`: checking write results.

`app/` is the command line program around it: argument parsing, loading
`.obj` files and images, the floating point conversions (positions, colours,
normals, neighbour search), the alternative splitting strategies, and file
output.

# jumpy_map

The tile map of a 2D platformer, written in Verus.

- `src/` is the verified library: grid points and rectangles (`geometry`),
  object kinds and objects (`object`), tiles, layer kinds and layers
  (`layer`), the row-by-row walk over a rectangle of a layer's cells
  (`walk`), tilesets (`tileset`) and the map with its layer lookup, collision
  tests and drawing order (`map`). It is generic over the type of a world
  position and of a property value, which it stores but never inspects.
- `tests/` exercises the library on concrete maps.
- `app/` holds what works in floats or talks to the outside world: world
  positions and rectangles, drawing with macroquad, and reading and writing
  map files with serde.

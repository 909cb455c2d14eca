//! The tile map of a 2D platformer: layers of tiles and objects laid out on a
//! rectangular grid, tilesets, and the grid arithmetic that the game uses to
//! find tiles, walk a rectangle of cells and detect solid tiles.
//!
//! The library is generic over `V`, the type of a point in world space (a
//! vector of two floats in the game), and `P`, the type of a custom property
//! value. The library stores such values and hands them back; it never looks
//! inside them.

pub mod geometry;
pub mod object;
pub mod layer;
pub mod walk;
pub mod tileset;
pub mod map;

pub use geometry::{Size, URect, UVec2, uvec2};
pub use layer::{MapLayer, MapLayerKind, MapTile};
pub use map::{PLATFORM_TILE_ATTRIBUTE, TileMap};
pub use object::{MapObject, MapObjectKind};
pub use tileset::MapTileset;
pub use walk::MapTileIterator;


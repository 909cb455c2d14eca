//! Tilesets: textures cut into a grid of equal tiles.
use std::collections::HashMap;
use vstd::prelude::*;
use vstd::arithmetic::div_mod::{lemma_fundamental_div_mod, lemma_mod_pos_bound};

use crate::geometry::{Size, UVec2};

verus! {

/// A texture cut into a grid of tiles of equal size. Tile `first_tile_id + k`
/// of a map shows the `k`-th tile of the grid, row by row. Each tile is further
/// cut into `tile_subdivisions` sub-tiles, each with a flag of the autotile
/// mask.
#[derive(Debug, Clone)]
pub struct MapTileset<V, P> {
    pub id: String,
    pub texture_id: String,
    pub texture_size: Size<u32>,
    pub tile_size: V,
    pub grid_size: Size<u32>,
    pub first_tile_id: u32,
    pub tile_cnt: u32,
    pub tile_subdivisions: UVec2,
    pub autotile_mask: Vec<bool>,
    pub tile_attributes: HashMap<u32, Vec<String>>,
    pub properties: HashMap<String, P>,
}

/// The number of whole tiles of `tile` pixels that fit in `texture` pixels,
/// across and down.
pub open spec fn tileset_grid(texture: Size<u32>, tile: Size<u32>) -> Size<u32>
    recommends
        tile.width > 0,
        tile.height > 0,
{
    Size { width: texture.width / tile.width, height: texture.height / tile.height }
}

impl<V, P> MapTileset<V, P> {
    /// The tileset `id` over the texture `texture_id` of `texture_size`
    /// pixels, cut into tiles of `tile_size` (in world units), which is
    /// `tile_size_px` in whole pixels; its first tile gets the id
    /// `first_tile_id`. Every sub-tile's autotile flag is off, and no tile has
    /// attributes.
    pub fn new(
        id: &str,
        texture_id: &str,
        texture_size: Size<u32>,
        tile_size: V,
        tile_size_px: Size<u32>,
        first_tile_id: u32,
    ) -> (r: MapTileset<V, P>)
        requires
            tile_size_px.width > 0,
            tile_size_px.height > 0,
            tileset_grid(texture_size, tile_size_px).width * 3 <= u32::MAX,
            tileset_grid(texture_size, tile_size_px).height * 3 <= u32::MAX,
            (tileset_grid(texture_size, tile_size_px).width * 3) * (tileset_grid(
                texture_size,
                tile_size_px,
            ).height * 3) <= u32::MAX,
        ensures
            r.id@ == id@,
            r.texture_id@ == texture_id@,
            r.texture_size == texture_size,
            r.tile_size == tile_size,
            r.grid_size == tileset_grid(texture_size, tile_size_px),
            r.first_tile_id == first_tile_id,
            r.tile_cnt == r.grid_size.width * r.grid_size.height,
            r.tile_subdivisions == (UVec2 { x: 3, y: 3 }),
            r.autotile_mask@.len() == (r.grid_size.width * 3) * (r.grid_size.height * 3),
            forall|i: int| 0 <= i < r.autotile_mask@.len() ==> !r.autotile_mask@[i],
            r.tile_attributes@ == Map::<u32, Vec<String>>::empty(),
            r.properties@ == Map::<String, P>::empty(),
    {
        let grid_size = Size {
            width: texture_size.width / tile_size_px.width,
            height: texture_size.height / tile_size_px.height,
        };
        let tile_subdivisions = MapTileset::<V, P>::default_tile_subdivisions();
        let subtile_grid_size = Size {
            width: grid_size.width * tile_subdivisions.x,
            height: grid_size.height * tile_subdivisions.y,
        };
        let subtile_cnt = subtile_grid_size.width * subtile_grid_size.height;
        proof {
            assert(grid_size.width * grid_size.height <= subtile_cnt) by (nonlinear_arith)
                requires
                    subtile_cnt == (grid_size.width * 3) * (grid_size.height * 3),
            ;
        }
        let mut autotile_mask: Vec<bool> = Vec::new();
        let mut i: u32 = 0;
        while i < subtile_cnt
            invariant
                i <= subtile_cnt,
                autotile_mask@.len() == i,
                forall|j: int| 0 <= j < i ==> !autotile_mask@[j],
            decreases subtile_cnt - i,
        {
            autotile_mask.push(false);
            i = i + 1;
        }
        MapTileset {
            id: id.to_owned(),
            texture_id: texture_id.to_owned(),
            texture_size,
            tile_size,
            grid_size,
            first_tile_id,
            tile_cnt: grid_size.width * grid_size.height,
            tile_subdivisions,
            autotile_mask,
            tile_attributes: HashMap::new(),
            properties: HashMap::new(),
        }
    }

    /// The cell of the tileset's grid that holds the picture of `tile_id`:
    /// its column and its row, counting `tile_id` row by row.
    pub fn get_texture_cell(&self, tile_id: u32) -> (r: UVec2)
        requires
            self.grid_size.width > 0,
        ensures
            r.x == tile_id % self.grid_size.width,
            r.y == tile_id / self.grid_size.width,
    {
        UVec2 { x: tile_id % self.grid_size.width, y: tile_id / self.grid_size.width }
    }

    /// Each tile is cut into three by three sub-tiles.
    pub fn default_tile_subdivisions() -> (r: UVec2)
        ensures
            r == (UVec2 { x: 3, y: 3 }),
    {
        UVec2 { x: 3, y: 3 }
    }
}

/// The cell that holds a tile's picture gives the tile back, counted row by
/// row; a tile below the tileset's number of tiles has its picture within the
/// grid.
pub proof fn law_texture_cell(grid_size: Size<u32>, tile_id: u32)
    requires
        grid_size.width > 0,
    ensures
        (tile_id / grid_size.width) * grid_size.width + tile_id % grid_size.width == tile_id,
        tile_id % grid_size.width < grid_size.width,
        tile_id < grid_size.width * grid_size.height ==> tile_id / grid_size.width
            < grid_size.height,
{
    let w = grid_size.width as int;
    let h = grid_size.height as int;
    let t = tile_id as int;
    lemma_fundamental_div_mod(t, w);
    lemma_mod_pos_bound(t, w);
    let q = t / w;
    let r = t % w;
    assert(q * w == w * q) by (nonlinear_arith);
    if t < w * h {
        assert(q < h) by (nonlinear_arith)
            requires
                t == w * q + r,
                0 <= r < w,
                t < w * h,
                w > 0,
        ;
    }
}

} // verus!

//! The map: a grid of cells with its layers, tilesets, drawing order and
//! spawn points, and what the game asks of it: which tile a cell holds, which
//! cells of a rectangle stop movement, which tiles to draw.
use std::collections::HashMap;
use vstd::prelude::*;

use crate::geometry::{Size, URect, UVec2};
use crate::layer::{MapLayer, MapLayerKind, MapTile, tile_has_attribute};
use crate::tileset::MapTileset;
use crate::walk::{MapTileIterator, walk_count, walk_fits, walk_tiles};

verus! {

/// The attribute of tiles that are platforms: solid from above, but a body
/// may choose to pass through them.
pub const PLATFORM_TILE_ATTRIBUTE: &'static str = "jumpthrough";

/// A map of `grid_size` cells of `tile_size` world units each, placed at
/// `world_offset` in the world. `layers` holds the layers, each with its own
/// `id`, and `draw_order` lists layer ids from the top layer down.
#[derive(Debug, Clone)]
pub struct TileMap<V, P> {
    pub world_offset: V,
    pub grid_size: Size<u32>,
    pub tile_size: V,
    pub layers: Vec<MapLayer<V, P>>,
    pub tilesets: HashMap<String, MapTileset<V, P>>,
    pub draw_order: Vec<String>,
    pub properties: HashMap<String, P>,
    pub spawn_points: Vec<V>,
}

/// Layer `i` is the first of `layers` whose id is `id`.
pub open spec fn is_first_layer_with_id<V, P>(
    layers: Seq<MapLayer<V, P>>,
    id: Seq<char>,
    i: int,
) -> bool {
    &&& 0 <= i < layers.len()
    &&& layers[i].id@ == id
    &&& forall|j: int| 0 <= j < i ==> #[trigger] layers[j].id@ != id
}

/// Some layer of `layers` has the id `id`.
pub open spec fn has_layer<V, P>(layers: Seq<MapLayer<V, P>>, id: Seq<char>) -> bool {
    exists|i: int| 0 <= i < layers.len() && #[trigger] layers[i].id@ == id
}

/// The position of the layer with id `id`: the first one, where ids repeat.
pub open spec fn layer_with_id<V, P>(layers: Seq<MapLayer<V, P>>, id: Seq<char>) -> int {
    choose|i: int| is_first_layer_with_id(layers, id, i)
}

/// There is only one first layer with a given id.
pub proof fn lemma_layer_with_id<V, P>(layers: Seq<MapLayer<V, P>>, id: Seq<char>, i: int)
    requires
        is_first_layer_with_id(layers, id, i),
    ensures
        layer_with_id(layers, id) == i,
        has_layer(layers, id),
{
    let k = layer_with_id(layers, id);
    assert(is_first_layer_with_id(layers, id, k));
    if k < i {
        assert(layers[k].id@ != id);
    } else if k > i {
        assert(layers[i].id@ != id);
    }
}

/// No two of `layers` have the same id: the layers then form a map from ids
/// to layers, as the map files describe them.
pub open spec fn layer_ids_distinct<V, P>(layers: Seq<MapLayer<V, P>>) -> bool {
    forall|i: int, j: int|
        0 <= i < layers.len() && 0 <= j < layers.len() && i != j ==> #[trigger] layers[i].id@
            != #[trigger] layers[j].id@
}

/// Where layer ids are distinct, each layer is the one found by its id: the
/// lookups of `find_layer`, `get_tile`, `get_tiles` and `get_layer_kind` with
/// `layers[i].id` all reach layer `i`, and with an id that no layer has,
/// `find_layer` finds nothing.
pub proof fn law_distinct_ids_lookup<V, P>(layers: Seq<MapLayer<V, P>>, i: int)
    requires
        layer_ids_distinct(layers),
        0 <= i < layers.len(),
    ensures
        is_first_layer_with_id(layers, layers[i].id@, i),
        layer_with_id(layers, layers[i].id@) == i,
        has_layer(layers, layers[i].id@),
        forall|j: int| 0 <= j < layers.len() && j != i ==> layers[j].id@ != layers[i].id@,
{
    assert forall|j: int| 0 <= j < i implies #[trigger] layers[j].id@ != layers[i].id@ by {
        assert(layers[j].id@ != layers[i].id@);
    }
    lemma_layer_with_id(layers, layers[i].id@, i);
}

/// Where some layer has the id `id`, a first one has it, and `layer_with_id`
/// is its position.
pub proof fn lemma_has_layer<V, P>(layers: Seq<MapLayer<V, P>>, id: Seq<char>)
    requires
        has_layer(layers, id),
    ensures
        is_first_layer_with_id(layers, id, layer_with_id(layers, id)),
{
    let i = choose|i: int| 0 <= i < layers.len() && #[trigger] layers[i].id@ == id;
    lemma_first_with_id(layers, id, i);
}

/// Some layer at or below position `i` is the first with id `id`, when layer
/// `i` has that id.
proof fn lemma_first_with_id<V, P>(layers: Seq<MapLayer<V, P>>, id: Seq<char>, i: int)
    requires
        0 <= i < layers.len(),
        layers[i].id@ == id,
    ensures
        is_first_layer_with_id(layers, id, layer_with_id(layers, id)),
    decreases i,
{
    if exists|j: int| 0 <= j < i && #[trigger] layers[j].id@ == id {
        let j = choose|j: int| 0 <= j < i && #[trigger] layers[j].id@ == id;
        lemma_first_with_id(layers, id, j);
    } else {
        assert(is_first_layer_with_id(layers, id, i));
    }
}

/// Where the slot of grid cell `coords` lies in the tiles of a layer of a map
/// whose rows are `width` cells long.
pub open spec fn grid_index(width: u32, coords: UVec2) -> int {
    coords.y * width + coords.x
}

/// Layer `layer` stops movement at slot `index`: it is visible, has collision
/// and holds a tile there.
pub open spec fn solid_at<V, P>(layer: MapLayer<V, P>, index: int) -> bool {
    &&& layer.is_visible
    &&& layer.has_collision
    &&& 0 <= index < layer.tiles@.len()
    &&& layer.tiles@[index] is Some
}

/// A tile that counts as an obstacle: any tile, except a platform when
/// platforms are ignored.
pub open spec fn blocks<V>(tile: MapTile<V>, ignore_platforms: bool) -> bool {
    !(ignore_platforms && tile_has_attribute(tile, PLATFORM_TILE_ATTRIBUTE@))
}

/// There is a collision at slot `index`: the first of `layers` that stops
/// movement there holds a tile that counts as an obstacle.
pub open spec fn collides<V, P>(layers: Seq<MapLayer<V, P>>, index: int, ignore_platforms: bool) -> bool {
    exists|li: int|
        0 <= li < layers.len() && #[trigger] solid_at(layers[li], index) && (forall|j: int|
            0 <= j < li ==> !solid_at(layers[j], index)) && blocks(
            layers[li].tiles@[index].unwrap(),
            ignore_platforms,
        )
}

/// The cell of a tile taken from a walk.
pub open spec fn tile_cell<V>(t: (u32, u32, &MapTile<V>)) -> UVec2 {
    UVec2 { x: t.0, y: t.1 }
}

/// The tiles (with their cells) of `rect` in the first `n` of `layers` that
/// can stop movement: layer by layer, only the layers that are visible and
/// have collision, each layer's tiles in the order of a walk over `rect`.
pub open spec fn collision_tiles<'a, V, P>(layers: Seq<MapLayer<V, P>>, rect: URect, n: int) -> Seq<
    (u32, u32, &'a MapTile<V>),
>
    decreases n,
{
    if n <= 0 {
        Seq::empty()
    } else {
        let prev = collision_tiles(layers, rect, n - 1);
        let layer = &layers[n - 1];
        if layer.is_visible && layer.has_collision {
            prev + walk_tiles(layer, rect, walk_count(*layer, rect))
        } else {
            prev
        }
    }
}

/// The cells of `tiles` whose tile counts as an obstacle, in order.
pub open spec fn obstacle_cells<V>(tiles: Seq<(u32, u32, &MapTile<V>)>, ignore_platforms: bool) -> Seq<
    UVec2,
> {
    tiles.filter(|t: (u32, u32, &MapTile<V>)| blocks(*t.2, ignore_platforms)).map_values(
        |t: (u32, u32, &MapTile<V>)| tile_cell(t),
    )
}

/// The cells of `rect` where the first `n` of `layers` hold obstacles: the
/// cells of their collision tiles whose tile counts as an obstacle, in order.
pub open spec fn layers_obstacle_cells<V, P>(
    layers: Seq<MapLayer<V, P>>,
    rect: URect,
    ignore_platforms: bool,
    n: int,
) -> Seq<UVec2> {
    obstacle_cells(collision_tiles(layers, rect, n), ignore_platforms)
}

/// The rectangle that drawing covers: `rect`, or the whole grid.
pub open spec fn draw_rect<V, P>(map: TileMap<V, P>, rect: Option<URect>) -> URect {
    match rect {
        Some(rect) => rect,
        None => URect { x: 0, y: 0, w: map.grid_size.width, h: map.grid_size.height },
    }
}

/// The layer with id `id` exists and is drawn: it is visible and holds tiles.
pub open spec fn is_drawn<V, P>(map: TileMap<V, P>, id: Seq<char>) -> bool {
    &&& has_layer(map.layers@, id)
    &&& map.layers@[layer_with_id(map.layers@, id)].is_visible
    &&& map.layers@[layer_with_id(map.layers@, id)].kind == MapLayerKind::TileLayer
}

/// The id of the `k`-th layer to draw: `draw_order` is read from its end, so
/// that the layer listed first is drawn last, on top.
pub open spec fn draw_id<V, P>(map: TileMap<V, P>, k: int) -> Seq<char> {
    map.draw_order@[map.draw_order@.len() - 1 - k]@
}

/// The tiles (with their cells) that drawing `rect` shows for the first `n`
/// ids of the drawing order: layer by layer, each drawn layer's tiles in the
/// order of a walk over `rect`.
pub open spec fn drawn_tiles<'a, V, P>(map: &'a TileMap<V, P>, rect: URect, n: int) -> Seq<
    (u32, u32, &'a MapTile<V>),
>
    decreases n,
{
    if n <= 0 {
        Seq::empty()
    } else {
        let prev = drawn_tiles(map, rect, n - 1);
        let id = draw_id(*map, n - 1);
        if is_drawn(*map, id) {
            let layer = &map.layers@[layer_with_id(map.layers@, id)];
            prev + walk_tiles(layer, rect, walk_count(*layer, rect))
        } else {
            prev
        }
    }
}

/// A position in `0..len`, drawn at random by `quad_rand::gen_range(0, len)`.
/// That function scales a random `u32` by `len` in `f64` arithmetic and
/// truncates; for `len` up to 2^53 (where `f64` holds `len` exactly) the result
/// lies below `len`. Which position comes out is left unsaid: it depends on the
/// generator's state.
#[verifier::external_body]
fn random_index(len: usize) -> (r: usize)
    ensures
        0 < len <= 0x20_0000_0000_0000 ==> r < len,
{
    quad_rand::gen_range(0, len)
}

impl<V, P> TileMap<V, P> {
    /// A map of `grid_size` cells of `tile_size` each, at the origin of the
    /// world (`world_offset` is what `V::default()` returns, the zero vector for
    /// the game's vectors), with no layers, tilesets, properties or spawn
    /// points.
    pub fn new(tile_size: V, grid_size: UVec2) -> (r: TileMap<V, P>)
        where
            V: Default,
        ensures
            call_ensures(V::default, (), r.world_offset),
            r.grid_size == (Size { width: grid_size.x, height: grid_size.y }),
            r.tile_size == tile_size,
            r.layers@.len() == 0,
            r.tilesets@ == Map::<String, MapTileset<V, P>>::empty(),
            r.draw_order@.len() == 0,
            r.properties@ == Map::<String, P>::empty(),
            r.spawn_points@.len() == 0,
    {
        TileMap {
            world_offset: V::default(),
            grid_size: Size::from_uvec2(grid_size),
            tile_size,
            layers: Vec::new(),
            tilesets: HashMap::new(),
            draw_order: Vec::new(),
            properties: HashMap::new(),
            spawn_points: Vec::new(),
        }
    }

    /// The grid cell `cell` moved onto the grid: each coordinate beyond the
    /// last column or row becomes the last one. (`cell` is a position of the
    /// world counted in whole tiles from the map's offset.)
    pub fn clamp_coords(&self, cell: UVec2) -> (r: UVec2)
        requires
            self.grid_size.width >= 1,
            self.grid_size.height >= 1,
        ensures
            r.x == if cell.x < self.grid_size.width {
                cell.x as int
            } else {
                self.grid_size.width - 1
            },
            r.y == if cell.y < self.grid_size.height {
                cell.y as int
            } else {
                self.grid_size.height - 1
            },
            r.x < self.grid_size.width,
            r.y < self.grid_size.height,
    {
        let max_x = self.grid_size.width - 1;
        let max_y = self.grid_size.height - 1;
        let x = if cell.x > max_x {
            max_x
        } else {
            cell.x
        };
        let y = if cell.y > max_y {
            max_y
        } else {
            cell.y
        };
        UVec2 { x, y }
    }

    /// The rectangle of grid cells that a rectangle of the world covers:
    /// `cells.x` and `cells.y` are the cell of its top left corner and
    /// `cells.w` and `cells.h` its size, counted in whole tiles. The corner is
    /// moved onto the grid as by `clamp_coords`; the width is cut to at most
    /// the number of columns right of the corner, less one, and the height
    /// likewise.
    pub fn clamp_grid(&self, cells: URect) -> (r: URect)
        requires
            self.grid_size.width >= 1,
            self.grid_size.height >= 1,
        ensures
            ({
                let p = if cells.x < self.grid_size.width {
                    cells.x as int
                } else {
                    self.grid_size.width - 1
                };
                let q = if cells.y < self.grid_size.height {
                    cells.y as int
                } else {
                    self.grid_size.height - 1
                };
                let max_w = self.grid_size.width - p - 1;
                let max_h = self.grid_size.height - q - 1;
                &&& r.x == p
                &&& r.y == q
                &&& r.w == if cells.w <= max_w {
                    cells.w as int
                } else {
                    max_w
                }
                &&& r.h == if cells.h <= max_h {
                    cells.h as int
                } else {
                    max_h
                }
            }),
    {
        let p = self.clamp_coords(UVec2 { x: cells.x, y: cells.y });
        let max_w = self.grid_size.width - p.x - 1;
        let max_h = self.grid_size.height - p.y - 1;
        let w = if cells.w > max_w {
            max_w
        } else {
            cells.w
        };
        let h = if cells.h > max_h {
            max_h
        } else {
            cells.h
        };
        URect { x: p.x, y: p.y, w, h }
    }

    /// Where the slot of grid cell `coords` lies in a layer's tiles: row by
    /// row, `grid_size.width` cells to a row.
    pub fn to_index(&self, coords: UVec2) -> (r: usize)
        requires
            grid_index(self.grid_size.width, coords) <= u32::MAX,
        ensures
            r == grid_index(self.grid_size.width, coords),
    {
        ((coords.y * self.grid_size.width) + coords.x) as usize
    }

    /// The position in `layers` of the layer with id `layer_id` (the first
    /// one, where ids repeat), or `None` when no layer has that id.
    pub fn find_layer(&self, layer_id: &str) -> (r: Option<usize>)
        ensures
            match r {
                Some(i) => is_first_layer_with_id(self.layers@, layer_id@, i as int),
                None => !has_layer(self.layers@, layer_id@),
            },
    {
        let key = layer_id.to_owned();
        let mut i: usize = 0;
        while i < self.layers.len()
            invariant
                key@ == layer_id@,
                i <= self.layers@.len(),
                forall|j: int| 0 <= j < i ==> #[trigger] self.layers@[j].id@ != layer_id@,
            decreases self.layers@.len() - i,
        {
            if self.layers[i].id == key {
                return Some(i);
            }
            i = i + 1;
        }
        None
    }

    /// The kind of the layer with id `layer_id`, or `None` when no layer has
    /// that id.
    pub fn get_layer_kind(&self, layer_id: &str) -> (r: Option<MapLayerKind>)
        ensures
            r == if has_layer(self.layers@, layer_id@) {
                Some(self.layers@[layer_with_id(self.layers@, layer_id@)].kind)
            } else {
                None
            },
    {
        match self.find_layer(layer_id) {
            Some(i) => {
                proof {
                    lemma_layer_with_id(self.layers@, layer_id@, i as int);
                }
                Some(self.layers[i].kind)
            },
            None => None,
        }
    }

    /// The tile slot of cell `(x, y)` of the layer with id `layer_id`; an empty
    /// slot for a cell off the grid.
    pub fn get_tile(&self, layer_id: &str, x: u32, y: u32) -> (r: &Option<MapTile<V>>)
        requires
            has_layer(self.layers@, layer_id@),
            x < self.grid_size.width && y < self.grid_size.height ==> {
                &&& y * self.grid_size.width + x <= u32::MAX
                &&& y * self.grid_size.width + x < self.layers@[layer_with_id(
                    self.layers@,
                    layer_id@,
                )].tiles@.len()
            },
        ensures
            *r == if x >= self.grid_size.width || y >= self.grid_size.height {
                None
            } else {
                self.layers@[layer_with_id(self.layers@, layer_id@)].tiles@[y
                    * self.grid_size.width + x]
            },
    {
        let li = match self.find_layer(layer_id) {
            Some(li) => li,
            None => 0,
        };
        proof {
            lemma_layer_with_id(self.layers@, layer_id@, li as int);
        }
        let layer = &self.layers[li];
        if x >= self.grid_size.width || y >= self.grid_size.height {
            return &None;
        }
        let i = (y * self.grid_size.width + x) as usize;
        &layer.tiles[i]
    }

    /// The walk over `rect` (the whole grid when `None`) of the layer with id
    /// `layer_id`, at its first cell.
    pub fn get_tiles(&self, layer_id: &str, rect: Option<URect>) -> (r: MapTileIterator<'_, V, P>)
        requires
            has_layer(self.layers@, layer_id@),
        ensures
            r.rect == match rect {
                Some(rect) => rect,
                None => URect { x: 0, y: 0, w: self.grid_size.width, h: self.grid_size.height },
            },
            r.current == (r.rect.x, r.rect.y),
            *r.layer == self.layers@[layer_with_id(self.layers@, layer_id@)],
    {
        let rect = match rect {
            Some(rect) => rect,
            None => URect::new(0, 0, self.grid_size.width, self.grid_size.height),
        };
        let li = match self.find_layer(layer_id) {
            Some(li) => li,
            None => 0,
        };
        proof {
            lemma_layer_with_id(self.layers@, layer_id@, li as int);
        }
        MapTileIterator::new(&self.layers[li], rect)
    }

    /// Whether grid cell `coords` stops movement: the first layer that is
    /// visible, has collision and holds a tile at `coords` decides; its tile
    /// counts unless it is a platform and `should_ignore_platforms` holds.
    /// Without such a layer there is no collision.
    pub fn is_collision_at(&self, coords: UVec2, should_ignore_platforms: bool) -> (r: bool)
        requires
            grid_index(self.grid_size.width, coords) <= u32::MAX,
        ensures
            r == collides(
                self.layers@,
                grid_index(self.grid_size.width, coords),
                should_ignore_platforms,
            ),
    {
        let index = self.to_index(coords);
        let mut i: usize = 0;
        while i < self.layers.len()
            invariant
                index == grid_index(self.grid_size.width, coords),
                i <= self.layers@.len(),
                forall|j: int| 0 <= j < i ==> !#[trigger] solid_at(self.layers@[j], index as int),
            decreases self.layers@.len() - i,
        {
            let layer = &self.layers[i];
            if layer.is_visible && layer.has_collision && index < layer.tiles.len() {
                match &layer.tiles[index] {
                    Some(tile) => {
                        let platform = tile.has_attribute(PLATFORM_TILE_ATTRIBUTE);
                        let r = !(should_ignore_platforms && platform);
                        proof {
                            assert(solid_at(self.layers@[i as int], index as int));
                            if !r {
                                assert forall|li: int|
                                    0 <= li < self.layers@.len() && #[trigger] solid_at(
                                        self.layers@[li],
                                        index as int,
                                    ) && (forall|j: int|
                                        0 <= j < li ==> !solid_at(self.layers@[j], index as int))
                                    implies !blocks(
                                    self.layers@[li].tiles@[index as int].unwrap(),
                                    should_ignore_platforms,
                                ) by {
                                    if li > i {
                                        assert(!solid_at(self.layers@[i as int], index as int));
                                    }
                                }
                            }
                        }
                        return r;
                    },
                    None => {},
                }
            }
            i = i + 1;
        }
        false
    }

    /// The cells of `grid` where a layer holds a tile that stops movement
    /// (layer by layer, for each visible layer with collision, in the order of
    /// a walk over `grid`); platforms are left out when
    /// `should_ignore_platforms` holds. A cell appears once for each layer that
    /// blocks it.
    pub fn collision_cells(&self, grid: URect, should_ignore_platforms: bool) -> (r: Vec<UVec2>)
        requires
            forall|i: int|
                0 <= i < self.layers@.len() && #[trigger] self.layers@[i].is_visible
                    && self.layers@[i].has_collision ==> walk_fits(self.layers@[i], grid),
        ensures
            r@ == layers_obstacle_cells(
                self.layers@,
                grid,
                should_ignore_platforms,
                self.layers@.len() as int,
            ),
    {
        let mut out: Vec<UVec2> = Vec::new();
        let ghost pred = |t: (u32, u32, &MapTile<V>)| blocks(*t.2, should_ignore_platforms);
        let ghost cell = |t: (u32, u32, &MapTile<V>)| tile_cell(t);
        let mut i: usize = 0;
        while i < self.layers.len()
            invariant
                i <= self.layers@.len(),
                pred == (|t: (u32, u32, &MapTile<V>)| blocks(*t.2, should_ignore_platforms)),
                cell == (|t: (u32, u32, &MapTile<V>)| tile_cell(t)),
                forall|k: int|
                    0 <= k < self.layers@.len() && #[trigger] self.layers@[k].is_visible
                        && self.layers@[k].has_collision ==> walk_fits(self.layers@[k], grid),
                out@ == collision_tiles(self.layers@, grid, i as int).filter(pred).map_values(cell),
            decreases self.layers@.len() - i,
        {
            let layer = &self.layers[i];
            let ghost prev = collision_tiles(self.layers@, grid, i as int);
            if layer.is_visible && layer.has_collision {
                let tiles = layer.tiles_in(grid);
                let ghost before = out@;
                let mut k: usize = 0;
                while k < tiles.len()
                    invariant
                        k <= tiles@.len(),
                        pred == (|t: (u32, u32, &MapTile<V>)| blocks(*t.2, should_ignore_platforms)),
                        cell == (|t: (u32, u32, &MapTile<V>)| tile_cell(t)),
                        out@ == before + tiles@.take(k as int).filter(pred).map_values(cell),
                    decreases tiles@.len() - k,
                {
                    let (x, y, tile) = tiles[k];
                    let ghost old_out = out@;
                    if !(should_ignore_platforms && tile.has_attribute(PLATFORM_TILE_ATTRIBUTE)) {
                        out.push(UVec2 { x, y });
                    }
                    proof {
                        let s = tiles@.take(k as int);
                        let s1 = tiles@.take(k + 1);
                        assert(s1.drop_last() =~= s);
                        assert(s1.last() == tiles@[k as int]);
                        reveal_with_fuel(Seq::filter, 1);
                        if pred(tiles@[k as int]) {
                            assert(s1.filter(pred) == s.filter(pred).push(tiles@[k as int]));
                            assert(s1.filter(pred).map_values(cell) =~= s.filter(pred).map_values(
                                cell,
                            ).push(UVec2 { x, y }));
                        } else {
                            assert(s1.filter(pred) == s.filter(pred));
                        }
                        assert(out@ =~= before + s1.filter(pred).map_values(cell));
                    }
                    k = k + 1;
                }
                proof {
                    assert(tiles@.take(tiles@.len() as int) =~= tiles@);
                    let w = walk_tiles(layer, grid, walk_count(*layer, grid));
                    assert(collision_tiles(self.layers@, grid, i + 1) == prev + w);
                    Seq::filter_distributes_over_add(prev, w, pred);
                    assert((prev + w).filter(pred).map_values(cell) =~= prev.filter(
                        pred,
                    ).map_values(cell) + w.filter(pred).map_values(cell));
                }
            } else {
                assert(collision_tiles(self.layers@, grid, i + 1) == prev);
            }
            i = i + 1;
        }
        out
    }

    /// Puts `layer` into the map under its id: it takes the place of the layer
    /// with that id, which is returned, or joins the layers at the end when no
    /// layer has that id. Ids that were distinct stay distinct.
    pub fn insert_layer(&mut self, layer: MapLayer<V, P>) -> (r: Option<MapLayer<V, P>>)
        ensures
            if has_layer(old(self).layers@, layer.id@) {
                let i = layer_with_id(old(self).layers@, layer.id@);
                &&& r == Some(old(self).layers@[i])
                &&& final(self).layers@ == old(self).layers@.update(i, layer)
            } else {
                &&& r is None
                &&& final(self).layers@ == old(self).layers@.push(layer)
            },
            layer_ids_distinct(old(self).layers@) ==> layer_ids_distinct(final(self).layers@),
            final(self).world_offset == old(self).world_offset,
            final(self).grid_size == old(self).grid_size,
            final(self).tile_size == old(self).tile_size,
            final(self).tilesets == old(self).tilesets,
            final(self).draw_order == old(self).draw_order,
            final(self).properties == old(self).properties,
            final(self).spawn_points == old(self).spawn_points,
    {
        let ghost id = layer.id@;
        match self.find_layer(layer.id.as_str()) {
            Some(i) => {
                proof {
                    lemma_layer_with_id(self.layers@, id, i as int);
                }
                let previous = self.layers.remove(i);
                self.layers.insert(i, layer);
                proof {
                    assert(self.layers@ =~= old(self).layers@.update(i as int, layer));
                }
                Some(previous)
            },
            None => {
                self.layers.push(layer);
                None
            },
        }
    }

    /// Whether no two layers of the map have the same id.
    pub fn has_distinct_layer_ids(&self) -> (r: bool)
        ensures
            r == layer_ids_distinct(self.layers@),
    {
        let n = self.layers.len();
        let mut i: usize = 0;
        while i < n
            invariant
                n == self.layers@.len(),
                i <= n,
                forall|a: int, b: int|
                    0 <= a < i && 0 <= b < n && a != b ==> #[trigger] self.layers@[a].id@
                        != #[trigger] self.layers@[b].id@,
            decreases n - i,
        {
            let mut j: usize = 0;
            while j < n
                invariant
                    n == self.layers@.len(),
                    i < n,
                    j <= n,
                    forall|a: int, b: int|
                        0 <= a < i && 0 <= b < n && a != b ==> #[trigger] self.layers@[a].id@
                            != #[trigger] self.layers@[b].id@,
                    forall|b: int|
                        0 <= b < j && b != i ==> self.layers@[i as int].id@
                            != #[trigger] self.layers@[b].id@,
                decreases n - j,
            {
                if j != i && self.layers[i].id == self.layers[j].id {
                    proof {
                        assert(self.layers@[i as int].id@ == self.layers@[j as int].id@);
                    }
                    return false;
                }
                j = j + 1;
            }
            i = i + 1;
        }
        true
    }

    /// The tiles to draw over `rect` (the whole grid when `None`), with their
    /// cells, bottom layer first: for each id of `draw_order`, from the last to
    /// the first, the tiles of the layer with that id in `rect` if it is visible
    /// and a tile layer, in the order of a walk over `rect`. Ids of no layer
    /// are passed over.
    pub fn drawable_tiles(&self, rect: Option<URect>) -> (r: Vec<(u32, u32, &MapTile<V>)>)
        requires
            forall|k: int|
                0 <= k < self.draw_order@.len() && #[trigger] is_drawn(*self, draw_id(*self, k))
                    ==> walk_fits(
                    self.layers@[layer_with_id(self.layers@, draw_id(*self, k))],
                    draw_rect(*self, rect),
                ),
        ensures
            r@ == drawn_tiles(self, draw_rect(*self, rect), self.draw_order@.len() as int),
    {
        let area = match rect {
            Some(rect) => rect,
            None => URect::new(0, 0, self.grid_size.width, self.grid_size.height),
        };
        let n = self.draw_order.len();
        let mut out: Vec<(u32, u32, &MapTile<V>)> = Vec::new();
        let mut k: usize = 0;
        while k < n
            invariant
                n == self.draw_order@.len(),
                k <= n,
                area == draw_rect(*self, rect),
                forall|j: int|
                    0 <= j < self.draw_order@.len() && #[trigger] is_drawn(*self, draw_id(*self, j))
                        ==> walk_fits(
                        self.layers@[layer_with_id(self.layers@, draw_id(*self, j))],
                        area,
                    ),
                out@ == drawn_tiles(self, area, k as int),
            decreases n - k,
        {
            let id = &self.draw_order[n - 1 - k];
            match self.find_layer(id.as_str()) {
                Some(li) => {
                    proof {
                        lemma_layer_with_id(self.layers@, id@, li as int);
                    }
                    let layer = &self.layers[li];
                    let drawn = layer.is_visible && match layer.kind {
                        MapLayerKind::TileLayer => true,
                        MapLayerKind::ObjectLayer => false,
                    };
                    if drawn {
                        assert(is_drawn(*self, draw_id(*self, k as int)));
                        let mut tiles = layer.tiles_in(area);
                        out.append(&mut tiles);
                    }
                },
                None => {},
            }
            k = k + 1;
        }
        out
    }

    /// One of the spawn points, drawn at random.
    pub fn get_random_spawn_point(&self) -> (r: V)
        where
            V: Copy,
        requires
            0 < self.spawn_points@.len() <= 0x20_0000_0000_0000,
        ensures
            exists|i: int| 0 <= i < self.spawn_points@.len() && r == self.spawn_points@[i],
    {
        let i = random_index(self.spawn_points.len());
        self.spawn_point_at(i)
    }

    /// The spawn point at position `i`.
    pub fn spawn_point_at(&self, i: usize) -> (r: V)
        where
            V: Copy,
        requires
            i < self.spawn_points@.len(),
        ensures
            r == self.spawn_points@[i as int],
    {
        self.spawn_points[i]
    }
}


/// Distinct cells of a grid of `width` by `height` cells have distinct slots,
/// and every slot lies below `width * height`.
pub proof fn law_grid_index_unique(width: u32, height: u32, a: UVec2, b: UVec2)
    requires
        a.x < width && a.y < height,
        b.x < width && b.y < height,
    ensures
        0 <= grid_index(width, a) < width * height,
        grid_index(width, a) == grid_index(width, b) ==> a == b,
{
    assert(0 <= a.y * width + a.x < width * height) by (nonlinear_arith)
        requires
            a.x < width,
            a.y < height,
    ;
    if grid_index(width, a) == grid_index(width, b) {
        assert(a.y == b.y && a.x == b.x) by (nonlinear_arith)
            requires
                a.y * width + a.x == b.y * width + b.x,
                a.x < width,
                b.x < width,
        ;
    }
}

/// Ignoring platforms only takes collisions away: where there is a collision
/// with platforms ignored, there is one with platforms counted.
pub proof fn law_ignoring_platforms_only_removes<V, P>(layers: Seq<MapLayer<V, P>>, index: int)
    ensures
        collides(layers, index, true) ==> collides(layers, index, false),
{
    if collides(layers, index, true) {
        let li = choose|li: int|
            0 <= li < layers.len() && #[trigger] solid_at(layers[li], index) && (forall|j: int|
                0 <= j < li ==> !solid_at(layers[j], index)) && blocks(
                layers[li].tiles@[index].unwrap(),
                true,
            );
        assert(solid_at(layers[li], index));
    }
}

/// Some layer at or below position `i` is the first of `layers` that stops
/// movement at slot `index`, when layer `i` does.
proof fn lemma_first_solid<V, P>(layers: Seq<MapLayer<V, P>>, index: int, i: int)
    requires
        0 <= i < layers.len(),
        solid_at(layers[i], index),
    ensures
        exists|li: int|
            0 <= li <= i && #[trigger] solid_at(layers[li], index) && (forall|j: int|
                0 <= j < li ==> !solid_at(layers[j], index)),
    decreases i,
{
    if exists|j: int| 0 <= j < i && #[trigger] solid_at(layers[j], index) {
        let j = choose|j: int| 0 <= j < i && #[trigger] solid_at(layers[j], index);
        lemma_first_solid(layers, index, j);
    } else {
        assert(solid_at(layers[i], index));
    }
}

/// With platforms counted, there is a collision at slot `index` exactly when
/// some layer is visible, has collision and holds a tile there, whatever that
/// tile is.
pub proof fn law_collision_counting_platforms<V, P>(layers: Seq<MapLayer<V, P>>, index: int)
    ensures
        collides(layers, index, false) <==> exists|li: int|
            0 <= li < layers.len() && #[trigger] solid_at(layers[li], index),
        collides(layers, index, false) <==> exists|li: int|
            0 <= li < layers.len() && layers[li].is_visible && layers[li].has_collision && 0 <= index
                < layers[li].tiles@.len() && (#[trigger] layers[li].tiles@[index]) is Some,
{
    if exists|li: int|
        0 <= li < layers.len() && layers[li].is_visible && layers[li].has_collision && 0 <= index
            < layers[li].tiles@.len() && (#[trigger] layers[li].tiles@[index]) is Some {
        let i = choose|li: int|
            0 <= li < layers.len() && layers[li].is_visible && layers[li].has_collision && 0 <= index
                < layers[li].tiles@.len() && (#[trigger] layers[li].tiles@[index]) is Some;
        assert(solid_at(layers[i], index));
    }
    if collides(layers, index, false) {
        let li = choose|li: int|
            0 <= li < layers.len() && #[trigger] solid_at(layers[li], index) && (forall|j: int|
                0 <= j < li ==> !solid_at(layers[j], index)) && blocks(
                layers[li].tiles@[index].unwrap(),
                false,
            );
        assert(layers[li].tiles@[index] is Some);
    }
    if exists|li: int| 0 <= li < layers.len() && #[trigger] solid_at(layers[li], index) {
        let i = choose|li: int| 0 <= li < layers.len() && #[trigger] solid_at(layers[li], index);
        lemma_first_solid(layers, index, i);
        let li = choose|li: int|
            0 <= li <= i && #[trigger] solid_at(layers[li], index) && (forall|j: int|
                0 <= j < li ==> !solid_at(layers[j], index));
        assert(blocks(layers[li].tiles@[index].unwrap(), false));
    }
}

/// With platforms ignored, there is a collision at slot `index` exactly when
/// the first layer that is visible, has collision and holds a tile there holds
/// one that is not a platform.
pub proof fn law_collision_ignoring_platforms<V, P>(layers: Seq<MapLayer<V, P>>, index: int)
    ensures
        collides(layers, index, true) <==> exists|li: int|
            0 <= li < layers.len() && layers[li].is_visible && layers[li].has_collision && 0 <= index
                < layers[li].tiles@.len() && (#[trigger] layers[li].tiles@[index]) is Some && (forall|
                j: int,
            |
                0 <= j < li ==> !(layers[j].is_visible && layers[j].has_collision && 0 <= index
                    < layers[j].tiles@.len() && layers[j].tiles@[index] is Some)) && !tile_has_attribute(
                layers[li].tiles@[index].unwrap(),
                PLATFORM_TILE_ATTRIBUTE@,
            ),
{
    if collides(layers, index, true) {
        let li = choose|li: int|
            0 <= li < layers.len() && #[trigger] solid_at(layers[li], index) && (forall|j: int|
                0 <= j < li ==> !solid_at(layers[j], index)) && blocks(
                layers[li].tiles@[index].unwrap(),
                true,
            );
        assert(layers[li].tiles@[index] is Some);
        assert forall|j: int| 0 <= j < li implies !(layers[j].is_visible && layers[j].has_collision
            && 0 <= index < layers[j].tiles@.len() && layers[j].tiles@[index] is Some) by {
            assert(!solid_at(layers[j], index));
        }
    }
    if exists|li: int|
        0 <= li < layers.len() && layers[li].is_visible && layers[li].has_collision && 0 <= index
            < layers[li].tiles@.len() && (#[trigger] layers[li].tiles@[index]) is Some && (forall|
            j: int,
        |
            0 <= j < li ==> !(layers[j].is_visible && layers[j].has_collision && 0 <= index
                < layers[j].tiles@.len() && layers[j].tiles@[index] is Some)) && !tile_has_attribute(
            layers[li].tiles@[index].unwrap(),
            PLATFORM_TILE_ATTRIBUTE@,
        ) {
        let li = choose|li: int|
            0 <= li < layers.len() && layers[li].is_visible && layers[li].has_collision && 0 <= index
                < layers[li].tiles@.len() && (#[trigger] layers[li].tiles@[index]) is Some && (forall|
                j: int,
            |
                0 <= j < li ==> !(layers[j].is_visible && layers[j].has_collision && 0 <= index
                    < layers[j].tiles@.len() && layers[j].tiles@[index] is Some))
                && !tile_has_attribute(layers[li].tiles@[index].unwrap(), PLATFORM_TILE_ATTRIBUTE@);
        assert(solid_at(layers[li], index));
        assert forall|j: int| 0 <= j < li implies !solid_at(layers[j], index) by {
            assert(!(layers[j].is_visible && layers[j].has_collision && 0 <= index
                < layers[j].tiles@.len() && layers[j].tiles@[index] is Some));
        }
        assert(blocks(layers[li].tiles@[index].unwrap(), true));
    }
}

/// A filter that keeps every element keeps the whole sequence.
proof fn lemma_filter_keeps_all<A>(s: Seq<A>, pred: spec_fn(A) -> bool)
    requires
        forall|i: int| 0 <= i < s.len() ==> pred(#[trigger] s[i]),
    ensures
        s.filter(pred) == s,
    decreases s.len(),
{
    reveal_with_fuel(Seq::filter, 1);
    if s.len() > 0 {
        lemma_filter_keeps_all(s.drop_last(), pred);
        assert(s.drop_last().push(s.last()) =~= s);
    }
}

/// Ignoring platforms only takes cells away, keeping the order: with
/// platforms counted, the blocking cells of `rect` are the cells of all
/// collision tiles; with platforms ignored, they are the cells of the same
/// tiles with the platform tiles removed, in the same order.
pub proof fn law_ignoring_platforms_removes_cells<V, P>(
    layers: Seq<MapLayer<V, P>>,
    rect: URect,
    n: int,
)
    ensures
        layers_obstacle_cells(layers, rect, false, n) == collision_tiles(layers, rect, n).map_values(
            |t: (u32, u32, &MapTile<V>)| tile_cell(t),
        ),
        layers_obstacle_cells(layers, rect, true, n) == collision_tiles(layers, rect, n).filter(
            |t: (u32, u32, &MapTile<V>)| !tile_has_attribute(*t.2, PLATFORM_TILE_ATTRIBUTE@),
        ).map_values(|t: (u32, u32, &MapTile<V>)| tile_cell(t)),
{
    let tiles = collision_tiles::<V, P>(layers, rect, n);
    let keep_all = |t: (u32, u32, &MapTile<V>)| blocks(*t.2, false);
    lemma_filter_keeps_all(tiles, keep_all);
    let no_platform = |t: (u32, u32, &MapTile<V>)| blocks(*t.2, true);
    let no_platform2 = |t: (u32, u32, &MapTile<V>)|
        !tile_has_attribute(*t.2, PLATFORM_TILE_ATTRIBUTE@);
    assert(no_platform =~= no_platform2);
}

/// The cells of a walk over `rect` of `layer` that hold a tile, in the order
/// of the walk, when the layer is visible and has collision; none otherwise.
pub open spec fn walk_collision_cells<V, P>(layer: MapLayer<V, P>, rect: URect) -> Seq<UVec2> {
    if layer.is_visible && layer.has_collision {
        walk_tiles(&layer, rect, walk_count(layer, rect)).map_values(
            |t: (u32, u32, &MapTile<V>)| UVec2 { x: t.0, y: t.1 },
        )
    } else {
        Seq::empty()
    }
}

/// The collision tiles of the first `n` layers, taken to their cells, are the
/// cells that each of those layers gives, one layer after the other.
proof fn lemma_collision_cells_prefix<V, P>(layers: Seq<MapLayer<V, P>>, rect: URect, n: int)
    requires
        0 <= n <= layers.len(),
    ensures
        collision_tiles(layers, rect, n).map_values(|t: (u32, u32, &MapTile<V>)| tile_cell(t))
            == Seq::new(n as nat, |i: int| walk_collision_cells(layers[i], rect)).flatten(),
    decreases n,
{
    let cell = |t: (u32, u32, &MapTile<V>)| tile_cell(t);
    let f = |i: int| walk_collision_cells(layers[i], rect);
    if n == 0 {
        assert(Seq::new(0, f) =~= Seq::<Seq<UVec2>>::empty());
        assert(Seq::<Seq<UVec2>>::empty().flatten() =~= Seq::<UVec2>::empty());
        assert(collision_tiles(layers, rect, n).map_values(cell) =~= Seq::<UVec2>::empty());
    } else {
        lemma_collision_cells_prefix(layers, rect, n - 1);
        let s = Seq::new((n - 1) as nat, f);
        assert(Seq::new(n as nat, f) =~= s.push(f(n - 1)));
        s.lemma_flatten_push(f(n - 1));
        let prev = collision_tiles::<V, P>(layers, rect, n - 1);
        let layer = layers[n - 1];
        if layer.is_visible && layer.has_collision {
            let w = walk_tiles(&layer, rect, walk_count(layer, rect));
            assert(collision_tiles(layers, rect, n) == prev + w);
            assert((prev + w).map_values(cell) =~= prev.map_values(cell) + w.map_values(cell));
            assert(w.map_values(cell) =~= f(n - 1));
        } else {
            assert(collision_tiles(layers, rect, n) == prev);
            assert(s.flatten() + f(n - 1) =~= s.flatten());
        }
    }
}

/// With platforms counted, the blocking cells of `rect` are, layer by layer in
/// the order of the layers, the cells of a walk over `rect` that hold a tile,
/// whatever the tile, in each layer that is visible and has collision; a
/// hidden layer, or one without collision, adds none. With platforms ignored,
/// they are the same cells, in the same order, less those whose tile is a
/// platform.
pub proof fn law_collision_cells_layer_by_layer<V, P>(layers: Seq<MapLayer<V, P>>, rect: URect)
    ensures
        layers_obstacle_cells(layers, rect, false, layers.len() as int) == Seq::new(
            layers.len(),
            |i: int| walk_collision_cells(layers[i], rect),
        ).flatten(),
        layers_obstacle_cells(layers, rect, true, layers.len() as int) == collision_tiles(
            layers,
            rect,
            layers.len() as int,
        ).filter(
            |t: (u32, u32, &MapTile<V>)| !tile_has_attribute(*t.2, PLATFORM_TILE_ATTRIBUTE@),
        ).map_values(|t: (u32, u32, &MapTile<V>)| tile_cell(t)),
{
    law_ignoring_platforms_removes_cells(layers, rect, layers.len() as int);
    lemma_collision_cells_prefix(layers, rect, layers.len() as int);
}

/// The tiles that drawing shows over `rect` for the layer named `id`: those of
/// a walk over `rect` of the layer with that id when it is visible and a tile
/// layer; none when it is hidden, an object layer, or no layer has that id.
pub open spec fn layer_drawn_tiles<'a, V, P>(map: &'a TileMap<V, P>, id: Seq<char>, rect: URect) -> Seq<
    (u32, u32, &'a MapTile<V>),
> {
    if has_layer(map.layers@, id) {
        let layer = &map.layers@[layer_with_id(map.layers@, id)];
        if layer.is_visible && layer.kind == MapLayerKind::TileLayer {
            walk_tiles(layer, rect, walk_count(*layer, rect))
        } else {
            Seq::empty()
        }
    } else {
        Seq::empty()
    }
}

/// The tiles drawn for the first `n` ids read from the end of the drawing
/// order are those of each id in turn, from the last id of the order back.
proof fn lemma_drawn_tiles_prefix<V, P>(map: &TileMap<V, P>, rect: URect, n: int)
    requires
        0 <= n <= map.draw_order@.len(),
    ensures
        drawn_tiles(map, rect, n) == Seq::new(
            n as nat,
            |k: int| layer_drawn_tiles(map, map.draw_order@[map.draw_order@.len() - 1 - k]@, rect),
        ).flatten(),
    decreases n,
{
    let len = map.draw_order@.len();
    let f = |k: int| layer_drawn_tiles(map, map.draw_order@[len - 1 - k]@, rect);
    if n == 0 {
        assert(Seq::new(0, f) =~= Seq::<Seq<(u32, u32, &MapTile<V>)>>::empty());
        assert(Seq::<Seq<(u32, u32, &MapTile<V>)>>::empty().flatten() =~= Seq::<
            (u32, u32, &MapTile<V>),
        >::empty());
    } else {
        lemma_drawn_tiles_prefix(map, rect, n - 1);
        let s = Seq::new((n - 1) as nat, f);
        assert(Seq::new(n as nat, f) =~= s.push(f(n - 1)));
        s.lemma_flatten_push(f(n - 1));
        let id = map.draw_order@[len - 1 - (n - 1)]@;
        assert(draw_id(*map, n - 1) == id);
        if is_drawn(*map, id) {
        } else {
            assert(s.flatten() + f(n - 1) =~= s.flatten());
        }
    }
}

/// Layers are drawn in the reverse of the drawing order, so that the layer
/// named first ends on top: the tiles drawn over `rect` are, for `k` from the
/// first to the last, the tiles of the layer named at position
/// `len - 1 - k` of `draw_order`, each in the order of a walk over `rect`.
/// Hence every tile of a layer named later in the order comes before every
/// tile of a layer named earlier.
pub proof fn law_draw_order<V, P>(map: &TileMap<V, P>, rect: URect)
    ensures
        drawn_tiles(map, rect, map.draw_order@.len() as int) == Seq::new(
            map.draw_order@.len(),
            |k: int| layer_drawn_tiles(map, map.draw_order@[map.draw_order@.len() - 1 - k]@, rect),
        ).flatten(),
{
    lemma_drawn_tiles_prefix(map, rect, map.draw_order@.len() as int);
}

} // verus!

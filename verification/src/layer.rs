//! Tiles, layers of tiles and objects, and the walk over a rectangle of a
//! layer's cells.
use std::collections::HashMap;
use vstd::prelude::*;

use crate::geometry::Size;
use crate::object::MapObject;

verus! {

/// One tile of a tile layer: which tile of which tileset it shows, where its
/// picture lies in the tileset's texture, and the attributes that the game
/// reads (such as the attribute of platforms that can be jumped through).
#[derive(Debug, Clone)]
pub struct MapTile<V> {
    pub tile_id: u32,
    pub tileset_id: String,
    pub texture_id: String,
    pub texture_coords: V,
    pub attributes: Vec<String>,
}

/// `tile` carries the attribute `attr`.
pub open spec fn tile_has_attribute<V>(tile: MapTile<V>, attr: Seq<char>) -> bool {
    exists|i: int| 0 <= i < tile.attributes@.len() && #[trigger] tile.attributes@[i]@ == attr
}

impl<V> MapTile<V> {
    /// Whether this tile carries the attribute `attr`.
    pub fn has_attribute(&self, attr: &str) -> (r: bool)
        ensures
            r == tile_has_attribute(*self, attr@),
    {
        let key = attr.to_owned();
        let mut i: usize = 0;
        while i < self.attributes.len()
            invariant
                key@ == attr@,
                i <= self.attributes@.len(),
                forall|j: int| 0 <= j < i ==> #[trigger] self.attributes@[j]@ != attr@,
            decreases self.attributes@.len() - i,
        {
            if self.attributes[i] == key {
                return true;
            }
            i = i + 1;
        }
        false
    }
}

/// What a layer holds: tiles on the grid, or objects placed freely.
#[derive(Debug, Clone, Copy, PartialEq, Eq, Structural)]
pub enum MapLayerKind {
    TileLayer,
    ObjectLayer,
}

/// The position of a layer kind in the list of options of a selection box.
pub open spec fn layer_kind_index(kind: MapLayerKind) -> nat {
    match kind {
        MapLayerKind::TileLayer => 0,
        MapLayerKind::ObjectLayer => 1,
    }
}

/// The layer kind at a position of the list of options of a selection box.
pub open spec fn layer_kind_at(index: nat) -> MapLayerKind
    recommends
        index < 2,
{
    if index == 0 {
        MapLayerKind::TileLayer
    } else {
        MapLayerKind::ObjectLayer
    }
}

impl MapLayerKind {
    /// The labels of the layer kinds in a selection box, in the order of `get_index`.
    pub fn options() -> (r: &'static [&'static str])
        ensures
            r@.len() == 2,
            r@[0]@ == "Tiles"@,
            r@[1]@ == "Objects"@,
    {
        &["Tiles", "Objects"]
    }

    /// The position of this kind in `options()`.
    pub fn get_index(&self) -> (r: usize)
        ensures
            r == layer_kind_index(*self),
    {
        match self {
            MapLayerKind::TileLayer => 0,
            MapLayerKind::ObjectLayer => 1,
        }
    }

    /// Makes this the kind at position `index` of `options()`.
    pub fn set_index(&mut self, index: usize)
        requires
            index < 2,
        ensures
            *final(self) == layer_kind_at(index as nat),
    {
        *self = if index == 0 {
            MapLayerKind::TileLayer
        } else {
            MapLayerKind::ObjectLayer
        };
    }

    /// The labels of `options()` as owned strings.
    pub fn get_options(&self) -> (r: Vec<String>)
        ensures
            r@.len() == 2,
            r@[0]@ == "Tiles"@,
            r@[1]@ == "Objects"@,
    {
        let options = MapLayerKind::options();
        let mut r: Vec<String> = Vec::new();
        let mut i: usize = 0;
        while i < options.len()
            invariant
                options@.len() == 2,
                options@[0]@ == "Tiles"@,
                options@[1]@ == "Objects"@,
                i <= options@.len(),
                r@.len() == i,
                forall|j: int| 0 <= j < i ==> r@[j]@ == options@[j]@,
            decreases options@.len() - i,
        {
            r.push(options[i].to_owned());
            i = i + 1;
        }
        r
    }
}

/// Every layer kind has a position among the options, and the kind at that
/// position is the kind itself.
pub proof fn law_layer_kind_index_round_trip(kind: MapLayerKind)
    ensures
        layer_kind_index(kind) < 2,
        layer_kind_at(layer_kind_index(kind)) == kind,
{
}

/// Each position among the options holds a layer kind whose position it is.
pub proof fn law_layer_kind_at_round_trip(index: nat)
    requires
        index < 2,
    ensures
        layer_kind_index(layer_kind_at(index)) == index,
{
}

impl Default for MapLayerKind {
    /// A layer holds tiles unless said otherwise.
    fn default() -> (r: MapLayerKind)
        ensures
            r == MapLayerKind::TileLayer,
    {
        MapLayerKind::TileLayer
    }
}

/// A layer of the map: a grid of optional tiles (row by row, `grid_size.width`
/// cells to a row) or a list of objects, with the flags that say whether it is
/// drawn and whether its tiles stop movement.
#[derive(Debug, Clone)]
pub struct MapLayer<V, P> {
    pub id: String,
    pub kind: MapLayerKind,
    pub has_collision: bool,
    pub grid_size: Size<u32>,
    pub tiles: Vec<Option<MapTile<V>>>,
    pub objects: Vec<MapObject<V, P>>,
    pub is_visible: bool,
    pub properties: HashMap<String, P>,
}

impl<V, P> MapLayer<V, P> {
    /// An empty layer `id` of the given kind over a grid of `grid_size` cells:
    /// every cell without a tile, no objects, visible, no properties. Only a
    /// tile layer can have collision; an object layer never has.
    pub fn new(id: &str, kind: MapLayerKind, has_collision: bool, grid_size: Size<u32>) -> (r:
        MapLayer<V, P>)
        requires
            grid_size.width * grid_size.height <= u32::MAX,
        ensures
            r.id@ == id@,
            r.kind == kind,
            r.has_collision == (kind == MapLayerKind::TileLayer && has_collision),
            r.grid_size == grid_size,
            r.tiles@.len() == grid_size.width * grid_size.height,
            forall|i: int| 0 <= i < r.tiles@.len() ==> (r.tiles@[i] is None),
            r.objects@.len() == 0,
            r.is_visible,
            r.properties@ == Map::<String, P>::empty(),
    {
        let has_collision = match kind {
            MapLayerKind::TileLayer => has_collision,
            MapLayerKind::ObjectLayer => false,
        };
        let count = grid_size.width * grid_size.height;
        let mut tiles: Vec<Option<MapTile<V>>> = Vec::new();
        let mut i: u32 = 0;
        while i < count
            invariant
                i <= count,
                tiles@.len() == i,
                forall|j: int| 0 <= j < i ==> (tiles@[j] is None),
            decreases count - i,
        {
            tiles.push(None);
            i = i + 1;
        }
        MapLayer {
            id: id.to_owned(),
            kind,
            has_collision,
            grid_size,
            tiles,
            objects: Vec::new(),
            is_visible: true,
            properties: HashMap::new(),
        }
    }
}

impl<V, P> Default for MapLayer<V, P> {
    /// A visible, empty tile layer with an empty id and a grid of no cells.
    fn default() -> (r: MapLayer<V, P>)
        ensures
            r.id@ == Seq::<char>::empty(),
            !r.has_collision,
            r.kind == MapLayerKind::TileLayer,
            r.grid_size == (Size::<u32> { width: 0, height: 0 }),
            r.tiles@.len() == 0,
            r.objects@.len() == 0,
            r.is_visible,
            r.properties@ == Map::<String, P>::empty(),
    {
        MapLayer {
            id: String::new(),
            has_collision: false,
            kind: MapLayerKind::TileLayer,
            grid_size: Size { width: 0, height: 0 },
            tiles: Vec::new(),
            objects: Vec::new(),
            is_visible: true,
            properties: HashMap::new(),
        }
    }
}

} // verus!

use jumpy_map::{
    uvec2, MapLayer, MapLayerKind, MapTile, MapTileIterator, MapTileset, Size, URect,
    UVec2,
};

type Layer = MapLayer<(f32, f32), i32>;

fn tile(id: u32, attributes: &[&str]) -> MapTile<(f32, f32)> {
    MapTile {
        tile_id: id,
        tileset_id: "tiles".to_string(),
        texture_id: "tiles_tex".to_string(),
        texture_coords: (id as f32 * 16.0, 0.0),
        attributes: attributes.iter().map(|a| a.to_string()).collect(),
    }
}

#[test]
fn geometry_constructors() {
    assert_eq!(uvec2(3, 4), UVec2 { x: 3, y: 4 });
    assert_eq!(UVec2::new(1, 2), UVec2 { x: 1, y: 2 });
    assert_eq!(URect::new(1, 2, 3, 4), URect { x: 1, y: 2, w: 3, h: 4 });
    assert_eq!(Size::new(5u32, 6u32), Size { width: 5, height: 6 });
    assert_eq!(Size::from_uvec2(uvec2(7, 8)), Size { width: 7, height: 8 });
    assert_eq!(Size::zero(), Size { width: 0u32, height: 0u32 });
}

#[test]
fn tile_layer_new_is_empty_grid() {
    let layer: Layer = MapLayer::new("ground", MapLayerKind::TileLayer, true, Size::new(4, 3));
    assert_eq!(layer.id, "ground");
    assert_eq!(layer.kind, MapLayerKind::TileLayer);
    assert!(layer.has_collision);
    assert_eq!(layer.grid_size, Size::new(4, 3));
    assert_eq!(layer.tiles.len(), 12);
    assert!(layer.tiles.iter().all(|t| t.is_none()));
    assert!(layer.objects.is_empty());
    assert!(layer.is_visible);
    assert!(layer.properties.is_empty());
}

#[test]
fn object_layer_never_has_collision() {
    let layer: Layer = MapLayer::new("items", MapLayerKind::ObjectLayer, true, Size::new(2, 2));
    assert!(!layer.has_collision);
    let layer: Layer = MapLayer::new("ground", MapLayerKind::TileLayer, false, Size::new(2, 2));
    assert!(!layer.has_collision);
}

#[test]
fn layer_new_with_empty_grid() {
    let layer: Layer = MapLayer::new("none", MapLayerKind::TileLayer, true, Size::new(0, 7));
    assert!(layer.tiles.is_empty());
}

#[test]
fn layer_default() {
    let layer: Layer = MapLayer::default();
    assert_eq!(layer.id, "");
    assert!(!layer.has_collision);
    assert_eq!(layer.kind, MapLayerKind::TileLayer);
    assert_eq!(layer.grid_size, Size::zero());
    assert!(layer.tiles.is_empty());
    assert!(layer.objects.is_empty());
    assert!(layer.is_visible);
}

#[test]
fn tile_has_attribute() {
    let t = tile(1, &["jumpthrough", "ice"]);
    assert!(t.has_attribute("jumpthrough"));
    assert!(t.has_attribute("ice"));
    assert!(!t.has_attribute("jump"));
    assert!(!tile(2, &[]).has_attribute("jumpthrough"));
}

#[test]
fn walk_goes_row_by_row() {
    let layer: Layer = MapLayer::new("a", MapLayerKind::TileLayer, true, Size::new(4, 3));
    let mut it = MapTileIterator::new(&layer, URect::new(1, 1, 2, 2));
    let mut cells = Vec::new();
    while let Some((x, y, slot)) = it.next() {
        assert!(slot.is_none());
        cells.push((x, y));
    }
    assert_eq!(cells, vec![(1, 1), (2, 1), (1, 2), (2, 2)]);
    assert_eq!(it.current, (1, 3));
    assert!(it.next().is_none());
    assert_eq!(it.current, (1, 3));
}

#[test]
fn walk_yields_the_slot_of_each_cell() {
    let mut layer: Layer = MapLayer::new("a", MapLayerKind::TileLayer, true, Size::new(3, 2));
    layer.tiles[4] = Some(tile(9, &[]));
    let mut it = MapTileIterator::new(&layer, URect::new(0, 0, 3, 2));
    let mut found = Vec::new();
    while let Some((x, y, slot)) = it.next() {
        if let Some(t) = slot {
            found.push((x, y, t.tile_id));
        }
    }
    assert_eq!(found, vec![(1, 1, 9)]);
}

#[test]
fn walk_of_zero_width_visits_first_column() {
    let layer: Layer = MapLayer::new("a", MapLayerKind::TileLayer, true, Size::new(3, 3));
    let mut it = MapTileIterator::new(&layer, URect::new(2, 0, 0, 3));
    let mut cells = Vec::new();
    while let Some((x, y, _)) = it.next() {
        cells.push((x, y));
    }
    assert_eq!(cells, vec![(2, 0), (2, 1), (2, 2)]);
}

#[test]
fn walk_stops_beyond_the_tiles() {
    let layer: Layer = MapLayer::new("a", MapLayerKind::TileLayer, true, Size::new(2, 2));
    let mut it = MapTileIterator::new(&layer, URect::new(0, 1, 2, 5));
    let mut cells = Vec::new();
    while let Some((x, y, _)) = it.next() {
        cells.push((x, y));
    }
    assert_eq!(cells, vec![(0, 1), (1, 1)]);
    assert_eq!(it.current, (0, 2));
}

#[test]
fn walk_wider_than_grid_wraps_into_next_row_slot() {
    let mut layer: Layer = MapLayer::new("a", MapLayerKind::TileLayer, true, Size::new(2, 2));
    layer.tiles[2] = Some(tile(5, &[]));
    let mut it = MapTileIterator::new(&layer, URect::new(0, 0, 3, 1));
    let mut found = Vec::new();
    while let Some((x, y, slot)) = it.next() {
        found.push((x, y, slot.as_ref().map(|t| t.tile_id)));
    }
    assert_eq!(found, vec![(0, 0, None), (1, 0, None), (2, 0, Some(5))]);
}

#[test]
fn tiles_in_leaves_out_empty_cells() {
    let mut layer: Layer = MapLayer::new("a", MapLayerKind::TileLayer, true, Size::new(3, 3));
    layer.tiles[0] = Some(tile(1, &[]));
    layer.tiles[5] = Some(tile(2, &[]));
    layer.tiles[7] = Some(tile(3, &[]));
    let found: Vec<(u32, u32, u32)> =
        layer.tiles_in(URect::new(1, 1, 2, 2)).iter().map(|(x, y, t)| (*x, *y, t.tile_id)).collect();
    assert_eq!(found, vec![(2, 1, 2), (1, 2, 3)]);
}

#[test]
fn walk_covers_rect_within_grid() {
    let layer: Layer = MapLayer::new("a", MapLayerKind::TileLayer, true, Size::new(5, 4));
    let mut it = MapTileIterator::new(&layer, URect::new(1, 1, 3, 2));
    let mut count = 0;
    while it.next().is_some() {
        count += 1;
    }
    assert_eq!(count, 6);
}

#[test]
fn can_walk_follows_the_steps_taken() {
    let layer: Layer = MapLayer::new("a", MapLayerKind::TileLayer, true, Size::new(10, 10));
    assert!(layer.can_walk(URect::new(0, 0, 10, 10)));
    assert!(layer.can_walk(URect::new(0, 0, 0, 0)));
    assert!(!layer.can_walk(URect::new(u32::MAX, 0, 1, 1)));
    assert!(!layer.can_walk(URect::new(0, u32::MAX, 1, 1)));
    let wide: Layer = MapLayer::new("w", MapLayerKind::TileLayer, true, Size::new(70_000, 0));
    assert!(wide.can_walk(URect::new(0, 0, 2, 70_000)));
}

#[test]
fn can_walk_tall_rect_stops_past_the_tiles() {
    let layer: Layer = MapLayer::new("a", MapLayerKind::TileLayer, true, Size::new(2, 1));
    let rect = URect::new(0, 0, 2, u32::MAX);
    assert!(layer.can_walk(rect));
    let mut it = MapTileIterator::new(&layer, rect);
    let mut count = 0;
    while it.next().is_some() {
        count += 1;
    }
    assert_eq!(count, 2);
}

#[test]
fn can_walk_refuses_overflowing_index() {
    let mut layer: Layer = MapLayer::new("a", MapLayerKind::TileLayer, true, Size::new(0, 0));
    layer.grid_size = Size::new(70_000, 70_000);
    layer.tiles = vec![None; 1];
    assert!(layer.can_walk(URect::new(0, 0, 1, 1)));
    assert!(!layer.can_walk(URect::new(0, 65_536, 1, 1)));
}

#[test]
fn tileset_new_cuts_texture_into_grid() {
    let tileset: MapTileset<(f32, f32), i32> =
        MapTileset::new("tiles", "tiles_tex", Size::new(100, 50), (32.0, 16.0), Size::new(32, 16), 7);
    assert_eq!(tileset.id, "tiles");
    assert_eq!(tileset.texture_id, "tiles_tex");
    assert_eq!(tileset.texture_size, Size::new(100, 50));
    assert_eq!(tileset.tile_size, (32.0, 16.0));
    assert_eq!(tileset.grid_size, Size::new(3, 3));
    assert_eq!(tileset.first_tile_id, 7);
    assert_eq!(tileset.tile_cnt, 9);
    assert_eq!(tileset.tile_subdivisions, uvec2(3, 3));
    assert_eq!(tileset.autotile_mask.len(), 81);
    assert!(tileset.autotile_mask.iter().all(|b| !b));
    assert!(tileset.tile_attributes.is_empty());
    assert!(tileset.properties.is_empty());
}

#[test]
fn tileset_texture_cell_counts_row_by_row() {
    let tileset: MapTileset<(f32, f32), i32> =
        MapTileset::new("t", "tex", Size::new(64, 48), (16.0, 16.0), Size::new(16, 16), 1);
    assert_eq!(tileset.grid_size, Size::new(4, 3));
    assert_eq!(tileset.get_texture_cell(0), uvec2(0, 0));
    assert_eq!(tileset.get_texture_cell(3), uvec2(3, 0));
    assert_eq!(tileset.get_texture_cell(6), uvec2(2, 1));
    assert_eq!(tileset.get_texture_cell(11), uvec2(3, 2));
    let cell = tileset.get_texture_cell(10);
    assert_eq!(cell.y * tileset.grid_size.width + cell.x, 10);
}

#[test]
fn tileset_default_subdivisions() {
    assert_eq!(MapTileset::<(f32, f32), i32>::default_tile_subdivisions(), uvec2(3, 3));
}

#[test]
fn tileset_texture_smaller_than_a_tile() {
    let tileset: MapTileset<(f32, f32), i32> =
        MapTileset::new("t", "tex", Size::new(10, 10), (16.0, 16.0), Size::new(16, 16), 1);
    assert_eq!(tileset.grid_size, Size::new(0, 0));
    assert_eq!(tileset.tile_cnt, 0);
    assert!(tileset.autotile_mask.is_empty());
}

#[test]
fn whole_walk_in_grid_yields_each_slot_once() {
    let mut layer: Layer = MapLayer::new("a", MapLayerKind::TileLayer, true, Size::new(5, 4));
    for i in 0..20 {
        layer.tiles[i] = Some(tile(i as u32, &[]));
    }
    let rect = URect::new(1, 1, 3, 2);
    let mut it = MapTileIterator::new(&layer, rect);
    let mut seen = Vec::new();
    while let Some((x, y, slot)) = it.next() {
        seen.push((x, y, slot.as_ref().unwrap().tile_id));
    }
    let mut expected = Vec::new();
    for y in 1..3 {
        for x in 1..4 {
            expected.push((x, y, y * 5 + x));
        }
    }
    assert_eq!(seen, expected);
    assert!(it.next().is_none());
}

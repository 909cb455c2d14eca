use jumpy_map::{
    uvec2, MapLayer, MapLayerKind, MapTile, Size, TileMap, URect, UVec2, PLATFORM_TILE_ATTRIBUTE,
};

type GameMap = TileMap<(f32, f32), i32>;

fn tile(id: u32, attributes: &[&str]) -> MapTile<(f32, f32)> {
    MapTile {
        tile_id: id,
        tileset_id: "tiles".to_string(),
        texture_id: "tiles_tex".to_string(),
        texture_coords: (0.0, 0.0),
        attributes: attributes.iter().map(|a| a.to_string()).collect(),
    }
}

fn layer(id: &str, kind: MapLayerKind, collision: bool) -> MapLayer<(f32, f32), i32> {
    MapLayer::new(id, kind, collision, Size::new(4, 3))
}

/// A 4 by 3 map: "ground" (solid) with a tile at (1, 2) and a platform at
/// (2, 1); "deco" (no collision) with a tile at (1, 2) and (3, 0); an object
/// layer; and an invisible solid layer with a tile at (0, 0).
fn sample() -> GameMap {
    let mut map: GameMap = TileMap::new((16.0, 16.0), uvec2(4, 3));
    let mut ground = layer("ground", MapLayerKind::TileLayer, true);
    ground.tiles[2 * 4 + 1] = Some(tile(1, &[]));
    ground.tiles[1 * 4 + 2] = Some(tile(2, &[PLATFORM_TILE_ATTRIBUTE]));
    let mut deco = layer("deco", MapLayerKind::TileLayer, false);
    deco.tiles[2 * 4 + 1] = Some(tile(3, &[]));
    deco.tiles[3] = Some(tile(4, &[]));
    let objects = layer("objects", MapLayerKind::ObjectLayer, true);
    let mut hidden = layer("hidden", MapLayerKind::TileLayer, true);
    hidden.tiles[0] = Some(tile(5, &[]));
    hidden.is_visible = false;
    map.layers = vec![ground, deco, objects, hidden];
    map.draw_order =
        vec!["deco".to_string(), "missing".to_string(), "ground".to_string(), "hidden".to_string()];
    map
}

#[test]
fn new_map_is_empty() {
    let map: GameMap = TileMap::new((32.0, 24.0), uvec2(10, 5));
    assert_eq!(map.grid_size, Size::new(10, 5));
    assert_eq!(map.tile_size, (32.0, 24.0));
    assert_eq!(map.world_offset, (0.0, 0.0));
    assert!(map.layers.is_empty());
    assert!(map.tilesets.is_empty());
    assert!(map.draw_order.is_empty());
    assert!(map.properties.is_empty());
    assert!(map.spawn_points.is_empty());
}

#[test]
fn platform_attribute_name() {
    assert_eq!(PLATFORM_TILE_ATTRIBUTE, "jumpthrough");
}

#[test]
fn to_index_counts_row_by_row() {
    let map = sample();
    assert_eq!(map.to_index(uvec2(0, 0)), 0);
    assert_eq!(map.to_index(uvec2(3, 0)), 3);
    assert_eq!(map.to_index(uvec2(0, 1)), 4);
    assert_eq!(map.to_index(uvec2(2, 2)), 10);
}

#[test]
fn grid_index_is_unique_on_the_grid() {
    let map = sample();
    let mut seen = Vec::new();
    for y in 0..3 {
        for x in 0..4 {
            let i = map.to_index(uvec2(x, y));
            assert!(i < 12);
            assert!(!seen.contains(&i));
            seen.push(i);
        }
    }
}

#[test]
fn clamp_coords_moves_cells_onto_grid() {
    let map = sample();
    assert_eq!(map.clamp_coords(uvec2(2, 1)), uvec2(2, 1));
    assert_eq!(map.clamp_coords(uvec2(9, 1)), uvec2(3, 1));
    assert_eq!(map.clamp_coords(uvec2(1, 3)), uvec2(1, 2));
    assert_eq!(map.clamp_coords(uvec2(u32::MAX, u32::MAX)), uvec2(3, 2));
}

#[test]
fn clamp_grid_cuts_rect() {
    let map = sample();
    assert_eq!(map.clamp_grid(URect::new(0, 0, 2, 1)), URect::new(0, 0, 2, 1));
    assert_eq!(map.clamp_grid(URect::new(1, 1, 10, 10)), URect::new(1, 1, 2, 1));
    assert_eq!(map.clamp_grid(URect::new(7, 7, 1, 1)), URect::new(3, 2, 0, 0));
    assert_eq!(map.clamp_grid(URect::new(0, 0, 4, 3)), URect::new(0, 0, 3, 2));
}

#[test]
fn find_layer_and_kind() {
    let map = sample();
    assert_eq!(map.find_layer("ground"), Some(0));
    assert_eq!(map.find_layer("objects"), Some(2));
    assert_eq!(map.find_layer("nothing"), None);
    assert_eq!(map.get_layer_kind("objects"), Some(MapLayerKind::ObjectLayer));
    assert_eq!(map.get_layer_kind("deco"), Some(MapLayerKind::TileLayer));
    assert_eq!(map.get_layer_kind("nothing"), None);
}

#[test]
fn find_layer_takes_first_of_repeated_ids() {
    let mut map = sample();
    map.layers.push(layer("ground", MapLayerKind::ObjectLayer, false));
    assert_eq!(map.find_layer("ground"), Some(0));
    assert_eq!(map.get_layer_kind("ground"), Some(MapLayerKind::TileLayer));
}

#[test]
fn get_tile_reads_slot() {
    let map = sample();
    assert_eq!(map.get_tile("ground", 1, 2).as_ref().map(|t| t.tile_id), Some(1));
    assert!(map.get_tile("ground", 0, 0).is_none());
    assert_eq!(map.get_tile("deco", 3, 0).as_ref().map(|t| t.tile_id), Some(4));
}

#[test]
fn get_tile_off_grid_is_empty() {
    let map = sample();
    assert!(map.get_tile("ground", 4, 0).is_none());
    assert!(map.get_tile("ground", 0, 3).is_none());
    assert!(map.get_tile("ground", u32::MAX, u32::MAX).is_none());
}

#[test]
fn get_tiles_defaults_to_whole_grid() {
    let map = sample();
    let it = map.get_tiles("deco", None);
    assert_eq!(it.rect, URect::new(0, 0, 4, 3));
    assert_eq!(it.current, (0, 0));
    assert_eq!(it.layer.id, "deco");
    let mut it = map.get_tiles("ground", Some(URect::new(1, 1, 2, 2)));
    assert_eq!(it.current, (1, 1));
    let mut found = Vec::new();
    while let Some((x, y, slot)) = it.next() {
        if let Some(t) = slot {
            found.push((x, y, t.tile_id));
        }
    }
    assert_eq!(found, vec![(2, 1, 2), (1, 2, 1)]);
}

#[test]
fn collision_at_solid_tile() {
    let map = sample();
    assert!(map.is_collision_at(uvec2(1, 2), false));
    assert!(map.is_collision_at(uvec2(1, 2), true));
}

#[test]
fn collision_at_platform_depends_on_ignoring() {
    let map = sample();
    assert!(map.is_collision_at(uvec2(2, 1), false));
    assert!(!map.is_collision_at(uvec2(2, 1), true));
}

#[test]
fn no_collision_on_decoration_or_hidden_layers() {
    let map = sample();
    assert!(!map.is_collision_at(uvec2(3, 0), false));
    assert!(!map.is_collision_at(uvec2(0, 0), false));
    assert!(!map.is_collision_at(uvec2(0, 1), false));
}

#[test]
fn first_solid_layer_decides_collision() {
    let mut map = sample();
    let mut above = layer("above", MapLayerKind::TileLayer, true);
    above.tiles[2 * 4 + 1] = Some(tile(6, &[PLATFORM_TILE_ATTRIBUTE]));
    map.layers.insert(0, above);
    assert!(!map.is_collision_at(uvec2(1, 2), true));
    assert!(map.is_collision_at(uvec2(1, 2), false));
}

#[test]
fn collision_beyond_short_layer_is_none() {
    let mut map = sample();
    map.layers[0].tiles.truncate(5);
    assert!(!map.is_collision_at(uvec2(1, 2), false));
}

#[test]
fn ignoring_platforms_only_removes_collisions() {
    let map = sample();
    for y in 0..3 {
        for x in 0..4 {
            if map.is_collision_at(uvec2(x, y), true) {
                assert!(map.is_collision_at(uvec2(x, y), false));
            }
        }
    }
}

#[test]
fn collision_cells_of_whole_grid() {
    let map = sample();
    let cells = map.collision_cells(URect::new(0, 0, 4, 3), false);
    assert_eq!(cells, vec![uvec2(2, 1), uvec2(1, 2)]);
    let cells = map.collision_cells(URect::new(0, 0, 4, 3), true);
    assert_eq!(cells, vec![uvec2(1, 2)]);
}

#[test]
fn collision_cells_repeat_for_each_blocking_layer() {
    let mut map = sample();
    let mut second = layer("second", MapLayerKind::TileLayer, true);
    second.tiles[2 * 4 + 1] = Some(tile(7, &[]));
    map.layers.push(second);
    let cells = map.collision_cells(URect::new(1, 2, 1, 1), false);
    assert_eq!(cells, vec![uvec2(1, 2), uvec2(1, 2)]);
}

#[test]
fn collision_cells_of_small_rect() {
    let map = sample();
    let cells: Vec<UVec2> = map.collision_cells(URect::new(2, 0, 1, 2), false);
    assert_eq!(cells, vec![uvec2(2, 1)]);
    assert!(map.collision_cells(URect::new(3, 0, 1, 1), false).is_empty());
}

#[test]
fn drawable_tiles_bottom_layer_first() {
    let map = sample();
    let tiles: Vec<(u32, u32, u32)> =
        map.drawable_tiles(None).iter().map(|(x, y, t)| (*x, *y, t.tile_id)).collect();
    assert_eq!(tiles, vec![(2, 1, 2), (1, 2, 1), (3, 0, 4), (1, 2, 3)]);
}

#[test]
fn drawable_tiles_in_rect() {
    let map = sample();
    let tiles: Vec<(u32, u32, u32)> = map
        .drawable_tiles(Some(URect::new(1, 2, 3, 1)))
        .iter()
        .map(|(x, y, t)| (*x, *y, t.tile_id))
        .collect();
    assert_eq!(tiles, vec![(1, 2, 1), (1, 2, 3)]);
}

#[test]
fn drawable_tiles_skip_object_layers() {
    let mut map = sample();
    map.draw_order = vec!["objects".to_string()];
    assert!(map.drawable_tiles(None).is_empty());
}

#[test]
fn random_spawn_point_is_a_spawn_point() {
    let mut map = sample();
    map.spawn_points = vec![(1.0, 2.0), (3.0, 4.0), (5.0, 6.0)];
    for _ in 0..50 {
        let p = map.get_random_spawn_point();
        assert!(map.spawn_points.contains(&p));
    }
    map.spawn_points = vec![(7.0, 8.0)];
    assert_eq!(map.get_random_spawn_point(), (7.0, 8.0));
}

#[test]
fn spawn_point_at_reads_position() {
    let mut map = sample();
    map.spawn_points = vec![(1.0, 2.0), (3.0, 4.0)];
    assert_eq!(map.spawn_point_at(0), (1.0, 2.0));
    assert_eq!(map.spawn_point_at(1), (3.0, 4.0));
}

#[test]
fn collision_cells_ignoring_platforms_keep_order() {
    let mut map = sample();
    let mut extra = layer("extra", MapLayerKind::TileLayer, true);
    extra.tiles[0] = Some(tile(8, &[PLATFORM_TILE_ATTRIBUTE]));
    extra.tiles[11] = Some(tile(9, &[]));
    map.layers.push(extra);
    let all = map.collision_cells(URect::new(0, 0, 4, 3), false);
    assert_eq!(all, vec![uvec2(2, 1), uvec2(1, 2), uvec2(0, 0), uvec2(3, 2)]);
    let solid = map.collision_cells(URect::new(0, 0, 4, 3), true);
    assert_eq!(solid, vec![uvec2(1, 2), uvec2(3, 2)]);
}

#[test]
fn drawable_tiles_in_tall_rect() {
    let mut map: GameMap = TileMap::new((16.0, 16.0), uvec2(2, 1));
    let mut ground = MapLayer::new("ground", MapLayerKind::TileLayer, true, Size::new(2, 1));
    ground.tiles[1] = Some(tile(1, &[]));
    map.layers.push(ground);
    map.draw_order = vec!["ground".to_string()];
    let rect = URect::new(0, 0, 2, u32::MAX);
    assert!(map.layers[0].can_walk(rect));
    let tiles: Vec<(u32, u32, u32)> =
        map.drawable_tiles(Some(rect)).iter().map(|(x, y, t)| (*x, *y, t.tile_id)).collect();
    assert_eq!(tiles, vec![(1, 0, 1)]);
    assert_eq!(map.collision_cells(rect, false), vec![uvec2(1, 0)]);
}

#[test]
fn insert_layer_replaces_same_id() {
    let mut map = sample();
    let old = map.insert_layer(layer("deco", MapLayerKind::ObjectLayer, false));
    assert_eq!(old.map(|l| l.kind), Some(MapLayerKind::TileLayer));
    assert_eq!(map.layers.len(), 4);
    assert_eq!(map.layers[1].kind, MapLayerKind::ObjectLayer);
    assert!(map.has_distinct_layer_ids());
}

#[test]
fn insert_layer_appends_new_id() {
    let mut map = sample();
    assert!(map.insert_layer(layer("top", MapLayerKind::TileLayer, false)).is_none());
    assert_eq!(map.layers.len(), 5);
    assert_eq!(map.layers[4].id, "top");
    assert!(map.has_distinct_layer_ids());
}

#[test]
fn distinct_layer_ids_detects_repeats() {
    let mut map = sample();
    assert!(map.has_distinct_layer_ids());
    map.layers.push(layer("ground", MapLayerKind::TileLayer, false));
    assert!(!map.has_distinct_layer_ids());
    let empty: GameMap = TileMap::new((1.0, 1.0), uvec2(1, 1));
    assert!(empty.has_distinct_layer_ids());
}

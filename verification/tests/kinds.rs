use jumpy_map::{MapLayerKind, MapObject, MapObjectKind};

#[test]
fn layer_kind_options_are_tiles_then_objects() {
    assert_eq!(MapLayerKind::options(), &["Tiles", "Objects"]);
}

#[test]
fn layer_kind_index_follows_options() {
    assert_eq!(MapLayerKind::TileLayer.get_index(), 0);
    assert_eq!(MapLayerKind::ObjectLayer.get_index(), 1);
}

#[test]
fn layer_kind_set_index_selects_option() {
    let mut kind = MapLayerKind::TileLayer;
    kind.set_index(1);
    assert_eq!(kind, MapLayerKind::ObjectLayer);
    kind.set_index(0);
    assert_eq!(kind, MapLayerKind::TileLayer);
}

#[test]
fn layer_kind_index_round_trip() {
    for kind in [MapLayerKind::TileLayer, MapLayerKind::ObjectLayer] {
        let mut other = MapLayerKind::TileLayer;
        other.set_index(kind.get_index());
        assert_eq!(other, kind);
    }
}

#[test]
fn layer_kind_get_options_owned() {
    let options = MapLayerKind::ObjectLayer.get_options();
    assert_eq!(options, vec!["Tiles".to_string(), "Objects".to_string()]);
}

#[test]
fn layer_kind_default_is_tile_layer() {
    assert_eq!(MapLayerKind::default(), MapLayerKind::TileLayer);
}

#[test]
fn object_kind_options() {
    assert_eq!(MapObjectKind::options(), &["Item", "Environment", "Decoration"]);
    assert_eq!(
        MapObjectKind::Decoration.get_options(),
        vec!["Item".to_string(), "Environment".to_string(), "Decoration".to_string()]
    );
}

#[test]
fn object_kind_index_and_set_index() {
    assert_eq!(MapObjectKind::Item.get_index(), 0);
    assert_eq!(MapObjectKind::Environment.get_index(), 1);
    assert_eq!(MapObjectKind::Decoration.get_index(), 2);
    let mut kind = MapObjectKind::Item;
    kind.set_index(2);
    assert_eq!(kind, MapObjectKind::Decoration);
    kind.set_index(1);
    assert_eq!(kind, MapObjectKind::Environment);
    kind.set_index(0);
    assert_eq!(kind, MapObjectKind::Item);
}

#[test]
fn object_kind_names() {
    assert_eq!(String::from(MapObjectKind::Item), "item");
    assert_eq!(String::from(MapObjectKind::Environment), "environment");
    assert_eq!(String::from(MapObjectKind::Decoration), "decoration");
}

#[test]
fn object_kind_from_name() {
    assert_eq!(MapObjectKind::from("item".to_string()), MapObjectKind::Item);
    assert_eq!(MapObjectKind::from("environment".to_string()), MapObjectKind::Environment);
    assert_eq!(MapObjectKind::from("decoration".to_string()), MapObjectKind::Decoration);
}

#[test]
fn object_kind_name_round_trip() {
    for kind in [MapObjectKind::Item, MapObjectKind::Environment, MapObjectKind::Decoration] {
        assert_eq!(MapObjectKind::from(String::from(kind)), kind);
    }
}

#[test]
fn object_kind_parse_rejects_other_names() {
    assert_eq!(MapObjectKind::parse(""), None);
    assert_eq!(MapObjectKind::parse("Item"), None);
    assert_eq!(MapObjectKind::parse("items"), None);
    assert_eq!(MapObjectKind::parse("environment"), Some(MapObjectKind::Environment));
}

#[test]
fn object_new_has_no_properties() {
    let object: MapObject<(f32, f32), i32> =
        MapObject::new("crate_1", MapObjectKind::Item, (12.5, -3.0));
    assert_eq!(object.id, "crate_1");
    assert_eq!(object.kind, MapObjectKind::Item);
    assert_eq!(object.position, (12.5, -3.0));
    assert!(object.properties.is_empty());
}

use world_editor::tileset::{
    Field, FieldValue, LocalTransform, SchemaError, Tile, TileRotation, TileSet, TilesetDocument, TilesetKey,
    TILESET_VERSION,
};

fn tile(id: usize, name: &str) -> Tile {
    Tile { id, name: name.to_string(), path: format!("assets/{}.glb", name), transform: LocalTransform::identity() }
}

fn field(key: &str, value: FieldValue) -> Field {
    Field { key: key.to_string(), value }
}

fn good_document(tiles: Vec<Tile>) -> TilesetDocument {
    TilesetDocument {
        fields: vec![
            field("version", FieldValue::Integer(TILESET_VERSION)),
            field("name", FieldValue::Text("forest".to_string())),
            field("tiles", FieldValue::Tiles(tiles)),
        ],
    }
}

#[test]
fn new_tileset_is_empty() {
    let ts = TileSet::new("forest");
    assert_eq!(ts.name, "forest");
    assert!(ts.tiles.is_empty());
    assert!(ts.tile_order.is_empty());
    assert_eq!(ts.tile_id_max, 0);
}

#[test]
fn add_title_names_tile_after_file_stem() {
    let mut ts = TileSet::new("forest");
    assert_eq!(ts.add_title("assets/models/tree.glb".to_string()), Some(0));
    assert_eq!(ts.add_title("rock.gltf".to_string()), Some(1));
    assert_eq!(ts.tile_order, vec![0, 1]);
    assert_eq!(ts.tiles[&0].name, "tree");
    assert_eq!(ts.tiles[&0].path, "assets/models/tree.glb");
    assert_eq!(ts.tiles[&1].name, "rock");
    assert_eq!(ts.tiles[&1].id, 1);
    assert_eq!(ts.tile_id_max, 2);
    let one = 0x3f80_0000u32;
    assert_eq!(ts.tiles[&0].transform.translation, [0, 0, 0]);
    assert_eq!(ts.tiles[&0].transform.rotation, [0, 0, 0, one]);
    assert_eq!(ts.tiles[&0].transform.scale, [one, one, one]);
}

#[test]
fn add_title_without_file_name_adds_nothing() {
    let mut ts = TileSet::new("forest");
    assert_eq!(ts.add_title("".to_string()), None);
    assert_eq!(ts.add_title("..".to_string()), None);
    assert!(ts.tiles.is_empty());
    assert!(ts.tile_order.is_empty());
    assert_eq!(ts.tile_id_max, 0);
}

#[test]
fn serialize_lists_tiles_in_presentation_order() {
    let mut ts = TileSet::new("forest");
    ts.add_title("a.glb".to_string());
    ts.add_title("b.glb".to_string());
    ts.add_title("c.glb".to_string());
    ts.tile_order = vec![2, 0, 1];
    let doc = ts.serialize();
    assert_eq!(doc.fields.len(), 3);
    assert_eq!(doc.fields[0].key, "version");
    assert!(matches!(doc.fields[0].value, FieldValue::Integer(1)));
    assert_eq!(doc.fields[1].key, "name");
    assert!(matches!(&doc.fields[1].value, FieldValue::Text(n) if n == "forest"));
    assert_eq!(doc.fields[2].key, "tiles");
    match &doc.fields[2].value {
        FieldValue::Tiles(tiles) => {
            let ids: Vec<usize> = tiles.iter().map(|t| t.id).collect();
            let names: Vec<&str> = tiles.iter().map(|t| t.name.as_str()).collect();
            assert_eq!(ids, vec![2, 0, 1]);
            assert_eq!(names, vec!["c", "a", "b"]);
        },
        _ => panic!("tiles entry holds no tiles"),
    }
}

#[test]
fn reordered_tileset_round_trips_in_new_order() {
    let mut ts = TileSet::new("forest");
    ts.add_title("A.glb".to_string());
    ts.add_title("B.glb".to_string());
    ts.add_title("C.glb".to_string());
    ts.tile_order = vec![2, 0, 1];
    let back = TileSet::deserialize(&ts.serialize()).unwrap();
    assert_eq!(back.tile_order, vec![2, 0, 1]);
    let names: Vec<&str> = back.tile_order.iter().map(|id| back.tiles[id].name.as_str()).collect();
    assert_eq!(names, vec!["C", "A", "B"]);
    assert_eq!(back.name, "forest");
}

#[test]
fn tile_order_survives_round_trip_for_many_tiles() {
    let mut ts = TileSet::new("big");
    for i in 0..40 {
        ts.add_title(format!("tiles/t{}.glb", i));
    }
    let order: Vec<usize> = (0..40).map(|i| (i * 17) % 40).collect();
    ts.tile_order = order.clone();
    let back = TileSet::deserialize(&ts.serialize()).unwrap();
    assert_eq!(back.tile_order, order);
    assert_eq!(back.tiles.len(), 40);
    for (id, t) in &ts.tiles {
        assert_eq!(back.tiles[id].name, t.name);
        assert_eq!(back.tiles[id].path, t.path);
        assert_eq!(back.tiles[id].id, *id);
    }
}

#[test]
fn deserialized_tileset_continues_ids_after_largest() {
    let doc = good_document(vec![tile(4, "a"), tile(1, "b")]);
    let mut ts = TileSet::deserialize(&doc).unwrap();
    assert_eq!(ts.tile_order, vec![4, 1]);
    assert_eq!(ts.tile_id_max, 5);
    assert_eq!(ts.add_title("c.glb".to_string()), Some(5));
    assert_eq!(ts.tile_order, vec![4, 1, 5]);
}

#[test]
fn deserialize_keeps_last_definition_of_repeated_id() {
    let doc = good_document(vec![tile(0, "first"), tile(0, "second")]);
    let ts = TileSet::deserialize(&doc).unwrap();
    assert_eq!(ts.tile_order, vec![0, 0]);
    assert_eq!(ts.tiles.len(), 1);
    assert_eq!(ts.tiles[&0].name, "second");
}

#[test]
fn deserialize_rejects_missing_version_key() {
    let doc = TilesetDocument { fields: vec![] };
    assert_eq!(TileSet::deserialize(&doc).unwrap_err(), SchemaError::ExpectedKey(TilesetKey::Version));
    let doc = TilesetDocument {
        fields: vec![
            field("name", FieldValue::Text("forest".to_string())),
            field("version", FieldValue::Integer(1)),
            field("tiles", FieldValue::Tiles(vec![])),
        ],
    };
    assert_eq!(TileSet::deserialize(&doc).unwrap_err(), SchemaError::ExpectedKey(TilesetKey::Version));
}

#[test]
fn deserialize_rejects_other_version() {
    let mut doc = good_document(vec![]);
    doc.fields[0].value = FieldValue::Integer(2);
    assert_eq!(TileSet::deserialize(&doc).unwrap_err(), SchemaError::UnsupportedVersion(2));
    doc.fields[0].value = FieldValue::Integer(0);
    assert_eq!(TileSet::deserialize(&doc).unwrap_err(), SchemaError::UnsupportedVersion(0));
}

#[test]
fn deserialize_rejects_wrong_value_types() {
    let mut doc = good_document(vec![]);
    doc.fields[0].value = FieldValue::Text("1".to_string());
    assert_eq!(TileSet::deserialize(&doc).unwrap_err(), SchemaError::WrongType(TilesetKey::Version));
    let mut doc = good_document(vec![]);
    doc.fields[1].value = FieldValue::Integer(3);
    assert_eq!(TileSet::deserialize(&doc).unwrap_err(), SchemaError::WrongType(TilesetKey::Name));
    let mut doc = good_document(vec![]);
    doc.fields[2].value = FieldValue::Text("none".to_string());
    assert_eq!(TileSet::deserialize(&doc).unwrap_err(), SchemaError::WrongType(TilesetKey::Tiles));
}

#[test]
fn deserialize_rejects_reordered_or_missing_later_keys() {
    let doc = TilesetDocument {
        fields: vec![
            field("version", FieldValue::Integer(1)),
            field("tiles", FieldValue::Tiles(vec![])),
            field("name", FieldValue::Text("forest".to_string())),
        ],
    };
    assert_eq!(TileSet::deserialize(&doc).unwrap_err(), SchemaError::ExpectedKey(TilesetKey::Name));
    let doc = TilesetDocument {
        fields: vec![field("version", FieldValue::Integer(1)), field("name", FieldValue::Text("f".to_string()))],
    };
    assert_eq!(TileSet::deserialize(&doc).unwrap_err(), SchemaError::ExpectedKey(TilesetKey::Tiles));
}

#[test]
fn deserialize_rejects_unknown_trailing_key() {
    let mut doc = good_document(vec![]);
    doc.fields.push(field("author", FieldValue::Text("me".to_string())));
    assert_eq!(TileSet::deserialize(&doc).unwrap_err(), SchemaError::UnexpectedKey);
}

#[test]
fn deserialize_rejects_largest_tile_id() {
    let doc = good_document(vec![tile(0, "a"), tile(usize::MAX, "b")]);
    assert_eq!(TileSet::deserialize(&doc).unwrap_err(), SchemaError::TileIdOutOfRange);
}

#[test]
fn rotation_steps_clockwise_through_all_six() {
    let mut r = TileRotation::Unrotated;
    let expected = [
        TileRotation::Clockwise60,
        TileRotation::Clockwise120,
        TileRotation::Clockwise180,
        TileRotation::CounterClockwise120,
        TileRotation::CounterClockwise60,
        TileRotation::Unrotated,
    ];
    for e in expected {
        r = r.clockwise();
        assert_eq!(r, e);
    }
}

#[test]
fn counter_clockwise_undoes_clockwise() {
    let all = [
        TileRotation::Unrotated,
        TileRotation::Clockwise60,
        TileRotation::Clockwise120,
        TileRotation::Clockwise180,
        TileRotation::CounterClockwise120,
        TileRotation::CounterClockwise60,
    ];
    for r in all {
        assert_eq!(r.clockwise().counter_clockwise(), r);
        assert_eq!(r.counter_clockwise().clockwise(), r);
    }
    assert_eq!(TileRotation::Unrotated.counter_clockwise(), TileRotation::CounterClockwise60);
}

use world_editor::map::HexMap;
use world_editor::map_format::{MapFormat, MAP_FORMAT_VERSION};
use world_editor::tasks::{map_import_finished, tileset_import_finished, ImportFailure};
use world_editor::map_format::MapError;
use world_editor::tileset::TileSet;
use world_editor::world::{Kind, Object, World};

fn doc(version: u64) -> MapFormat {
    MapFormat { version, layout: hexx::HexLayout::default(), tilesets: vec![], layers: vec![] }
}

#[test]
fn finished_map_import_names_placeholder() {
    let mut world = World::new();
    let p = world.spawn(Object::new(None)).unwrap();
    let path = "maps/level_one.ron".to_string();
    assert_eq!(map_import_finished(&mut world, p, &path, Some(doc(MAP_FORMAT_VERSION))), Ok(()));
    let o = world.get(p).unwrap();
    assert_eq!(o.name.as_deref(), Some("map: level_one"));
    assert!(o.map.is_some());
}

#[test]
fn unreadable_map_import_removes_placeholder() {
    let mut world = World::new();
    let p = world.spawn(Object::new(None)).unwrap();
    let child = world.spawn(Object::new(Some(p))).unwrap();
    let path = "maps/x.ron".to_string();
    assert_eq!(map_import_finished(&mut world, p, &path, None), Err(ImportFailure::Unreadable));
    assert!(!world.is_alive(p));
    assert!(!world.is_alive(child));
}

#[test]
fn rejected_map_import_removes_placeholder() {
    let mut world = World::new();
    let keep = world.spawn(Object::new(None)).unwrap();
    assert!(world.insert_map(keep, HexMap::new()));
    let p = world.spawn(Object::new(None)).unwrap();
    let path = "maps/x.ron".to_string();
    assert_eq!(
        map_import_finished(&mut world, p, &path, Some(doc(9))),
        Err(ImportFailure::Rejected(MapError::UnsupportedVersion(9)))
    );
    assert!(!world.is_alive(p));
    assert!(world.is_alive(keep));
    assert_eq!(world.get_map(), Some(keep));
}

#[test]
fn finished_tileset_import_attaches_tileset() {
    let mut world = World::new();
    let p = world.spawn(Object::new(None)).unwrap();
    let path = "sets/forest.ron".to_string();
    assert!(tileset_import_finished(&mut world, p, &path, Some(TileSet::new("forest"))));
    let o = world.get(p).unwrap();
    assert_eq!(o.name.as_deref(), Some("tileset: forest"));
    assert_eq!(o.tileset.as_ref().unwrap().name, "forest");
}

#[test]
fn import_name_falls_back_to_whole_path() {
    let mut world = World::new();
    let p = world.spawn(Object::new(None)).unwrap();
    let path = "..".to_string();
    assert!(tileset_import_finished(&mut world, p, &path, Some(TileSet::new("t"))));
    assert_eq!(world.get(p).unwrap().name.as_deref(), Some("tileset: .."));
}

#[test]
fn failed_tileset_import_removes_placeholder() {
    let mut world = World::new();
    let root = world.spawn(Object::new(None)).unwrap();
    let p = world.spawn(Object::new(Some(root))).unwrap();
    let path = "sets/forest.ron".to_string();
    assert!(!tileset_import_finished(&mut world, p, &path, None));
    assert!(!world.is_alive(p));
    assert!(world.is_alive(root));
    assert!(world.children(root, Kind::Tileset).is_empty());
}

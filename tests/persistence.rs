use world_editor::map::{HexMap, Layer, Location};
use world_editor::map_format::{LayerRecord, MapError, MapFormat, TileRecord, TilesetRecord, MAP_FORMAT_VERSION};
use world_editor::persistence::{AssignError, SaveId};
use world_editor::tileset::{TileRef, TileRotation, TileSet, TileTransform};
use world_editor::world::{Entity, Kind, Object, World};

fn spawn_map(world: &mut World) -> Entity {
    let root = world.spawn(Object::new(None)).unwrap();
    assert!(world.insert_map(root, HexMap::new()));
    root
}

fn spawn_tileset(world: &mut World, root: Entity, name: &str, files: &[&str]) -> Entity {
    let mut ts = TileSet::new(name);
    for f in files {
        ts.add_title(f.to_string());
    }
    let mut o = Object::new(Some(root));
    o.tileset = Some(ts);
    world.spawn(o).unwrap()
}

fn spawn_layer(world: &mut World, root: Entity, name: &str) -> Entity {
    let mut o = Object::new(Some(root));
    o.layer = Some(Layer::new(name.to_string()));
    world.spawn(o).unwrap()
}

fn spawn_tile(world: &mut World, layer: Entity, tileset: Entity, tile: usize, x: i32, y: i32, r: TileRotation) -> Entity {
    let mut o = Object::new(Some(layer));
    o.location = Some(Location { x, y });
    o.tile_ref = Some(TileRef { tileset, tile });
    o.tile_transform = Some(TileTransform { rotation: r });
    world.spawn(o).unwrap()
}

fn save_id(world: &World, e: Entity) -> Option<SaveId> {
    world.get(e).unwrap().save_id
}

fn empty_doc() -> MapFormat {
    MapFormat { version: MAP_FORMAT_VERSION, layout: hexx::HexLayout::default(), tilesets: vec![], layers: vec![] }
}

#[test]
fn save_id_next_is_zero_then_one_past_largest() {
    let mut world = World::new();
    assert_eq!(world.save_id_next(), Some(SaveId(0)));
    let root = spawn_map(&mut world);
    let a = spawn_tileset(&mut world, root, "a", &[]);
    let b = spawn_tileset(&mut world, root, "b", &[]);
    let ids = world.assign_save_ids(&vec![a, b]).unwrap();
    assert_eq!(ids, vec![SaveId(0), SaveId(1)]);
    assert_eq!(world.save_id_next(), Some(SaveId(2)));
}

#[test]
fn assign_reuses_existing_ids_and_numbers_new_ones_in_order() {
    let mut world = World::new();
    let root = spawn_map(&mut world);
    let a = spawn_tileset(&mut world, root, "a", &[]);
    let b = spawn_tileset(&mut world, root, "b", &[]);
    let c = spawn_tileset(&mut world, root, "c", &[]);
    assert_eq!(world.assign_save_ids(&vec![b]).unwrap(), vec![SaveId(0)]);
    let ids = world.assign_save_ids(&vec![c, b, a, c]).unwrap();
    assert_eq!(ids, vec![SaveId(1), SaveId(0), SaveId(2), SaveId(1)]);
    assert_eq!(save_id(&world, a), Some(SaveId(2)));
}

#[test]
fn assign_twice_gives_same_ids() {
    let mut world = World::new();
    let root = spawn_map(&mut world);
    let a = spawn_tileset(&mut world, root, "a", &[]);
    let b = spawn_tileset(&mut world, root, "b", &[]);
    let first = world.assign_save_ids(&vec![a, b]).unwrap();
    let next = world.save_id_next();
    let second = world.assign_save_ids(&vec![a, b]).unwrap();
    assert_eq!(first, second);
    assert_eq!(world.save_id_next(), next);
}

#[test]
fn assign_after_removal_never_reuses_larger_ids() {
    let mut world = World::new();
    let root = spawn_map(&mut world);
    let a = spawn_tileset(&mut world, root, "a", &[]);
    let b = spawn_tileset(&mut world, root, "b", &[]);
    world.assign_save_ids(&vec![a, b]).unwrap();
    world.despawn(a);
    let c = spawn_tileset(&mut world, root, "c", &[]);
    assert_eq!(world.assign_save_ids(&vec![c]).unwrap(), vec![SaveId(2)]);
    assert_eq!(save_id(&world, b), Some(SaveId(1)));
}

#[test]
fn assign_fails_on_dead_entity_keeping_earlier_ids() {
    let mut world = World::new();
    let root = spawn_map(&mut world);
    let a = spawn_tileset(&mut world, root, "a", &[]);
    let dead = spawn_tileset(&mut world, root, "d", &[]);
    let c = spawn_tileset(&mut world, root, "c", &[]);
    world.despawn(dead);
    assert_eq!(world.assign_save_ids(&vec![a, dead, c]), Err(AssignError::UnknownEntity(dead)));
    assert_eq!(save_id(&world, a), Some(SaveId(0)));
    assert_eq!(save_id(&world, c), None);
}

#[test]
fn spawn_refuses_object_with_save_id() {
    let mut world = World::new();
    let mut o = Object::new(None);
    o.save_id = Some(SaveId(3));
    assert!(world.spawn(o).is_none());
}

#[test]
fn build_requires_map_root() {
    let mut world = World::new();
    let plain = world.spawn(Object::new(None)).unwrap();
    assert_eq!(MapFormat::try_new(&mut world, plain).unwrap_err(), MapError::NotAMap(plain));
    let gone = Entity { index: 9 };
    assert_eq!(MapFormat::try_new(&mut world, gone).unwrap_err(), MapError::NotAMap(gone));
}

#[test]
fn build_writes_tilesets_and_layers_in_order() {
    let mut world = World::new();
    let root = spawn_map(&mut world);
    let t1 = spawn_tileset(&mut world, root, "forest", &["tree.glb", "rock.glb"]);
    let t2 = spawn_tileset(&mut world, root, "water", &["lake.glb"]);
    let ground = spawn_layer(&mut world, root, "ground");
    let top = spawn_layer(&mut world, root, "top");
    spawn_tile(&mut world, ground, t2, 0, 1, 2, TileRotation::Clockwise60);
    spawn_tile(&mut world, top, t1, 1, -3, 4, TileRotation::Unrotated);
    spawn_tile(&mut world, ground, t1, 0, 0, 0, TileRotation::Clockwise180);
    // a child of a layer without a tile reference is not a tile instance
    let mut half = Object::new(Some(ground));
    half.location = Some(Location { x: 9, y: 9 });
    world.spawn(half).unwrap();

    let doc = MapFormat::try_new(&mut world, root).unwrap();
    assert_eq!(doc.version, 1);
    let ids: Vec<SaveId> = doc.tilesets.iter().map(|r| r.id).collect();
    assert_eq!(ids, vec![SaveId(0), SaveId(1)]);
    assert_eq!(doc.tilesets[0].tileset.name, "forest");
    assert_eq!(doc.tilesets[1].tileset.name, "water");
    assert_eq!(doc.layers.len(), 2);
    assert_eq!(doc.layers[0].name, "ground");
    assert_eq!(
        doc.layers[0].tiles,
        vec![
            TileRecord { location: Location { x: 1, y: 2 }, tileset: SaveId(1), tile_id: 0, rotation: TileRotation::Clockwise60 },
            TileRecord { location: Location { x: 0, y: 0 }, tileset: SaveId(0), tile_id: 0, rotation: TileRotation::Clockwise180 },
        ]
    );
    assert_eq!(doc.layers[1].name, "top");
    assert_eq!(
        doc.layers[1].tiles,
        vec![TileRecord { location: Location { x: -3, y: 4 }, tileset: SaveId(0), tile_id: 1, rotation: TileRotation::Unrotated }]
    );
    assert_eq!(save_id(&world, t1), Some(SaveId(0)));
    assert_eq!(save_id(&world, t2), Some(SaveId(1)));
}

#[test]
fn build_twice_keeps_identifiers() {
    let mut world = World::new();
    let root = spawn_map(&mut world);
    spawn_tileset(&mut world, root, "forest", &["tree.glb"]);
    spawn_tileset(&mut world, root, "water", &[]);
    let first = MapFormat::try_new(&mut world, root).unwrap();
    let second = MapFormat::try_new(&mut world, root).unwrap();
    let a: Vec<SaveId> = first.tilesets.iter().map(|r| r.id).collect();
    let b: Vec<SaveId> = second.tilesets.iter().map(|r| r.id).collect();
    assert_eq!(a, b);
}

#[test]
fn build_rejects_tile_of_foreign_tileset() {
    let mut world = World::new();
    let root = spawn_map(&mut world);
    let own = spawn_tileset(&mut world, root, "own", &["a.glb"]);
    let elsewhere = world.spawn(Object::new(None)).unwrap();
    let foreign = spawn_tileset(&mut world, elsewhere, "foreign", &["b.glb"]);
    let layer = spawn_layer(&mut world, root, "ground");
    spawn_tile(&mut world, layer, own, 0, 0, 0, TileRotation::Unrotated);
    let bad = spawn_tile(&mut world, layer, foreign, 0, 1, 0, TileRotation::Unrotated);
    assert_eq!(MapFormat::try_new(&mut world, root).unwrap_err(), MapError::DanglingTileset(bad));
    assert_eq!(save_id(&world, own), None);
}

#[test]
fn build_and_load_reconstructs_map() {
    let mut world = World::new();
    let root = spawn_map(&mut world);
    let t1 = spawn_tileset(&mut world, root, "forest", &["tree.glb", "rock.glb"]);
    let layer = spawn_layer(&mut world, root, "ground");
    spawn_tile(&mut world, layer, t1, 1, 2, 3, TileRotation::CounterClockwise60);
    let doc = MapFormat::try_new(&mut world, root).unwrap();

    let mut other = World::new();
    let target = other.spawn(Object::new(None)).unwrap();
    doc.try_spawn(&mut other, target).unwrap();
    assert_eq!(other.get_map(), Some(target));
    let tilesets = other.children(target, Kind::Tileset);
    assert_eq!(tilesets.len(), 1);
    let ts = other.get(tilesets[0]).unwrap().tileset.as_ref().unwrap();
    assert_eq!(ts.name, "forest");
    assert_eq!(ts.tile_order, vec![0, 1]);
    assert_eq!(ts.tiles[&1].name, "rock");
    assert_eq!(other.get(tilesets[0]).unwrap().name.as_deref(), Some("tileset"));
    let layers = other.children(target, Kind::Layer);
    assert_eq!(layers.len(), 1);
    assert_eq!(other.get(layers[0]).unwrap().layer.as_ref().unwrap().name, "ground");
    let tiles = other.children(layers[0], Kind::PlacedTile);
    assert_eq!(tiles.len(), 1);
    let t = other.get(tiles[0]).unwrap();
    assert_eq!(t.location, Some(Location { x: 2, y: 3 }));
    assert_eq!(t.tile_ref, Some(TileRef { tileset: tilesets[0], tile: 1 }));
    assert_eq!(t.tile_transform, Some(TileTransform { rotation: TileRotation::CounterClockwise60 }));
}

#[test]
fn empty_map_round_trips_to_empty_map() {
    let mut world = World::new();
    let root = spawn_map(&mut world);
    let doc = MapFormat::try_new(&mut world, root).unwrap();
    assert!(doc.tilesets.is_empty());
    assert!(doc.layers.is_empty());
    let mut other = World::new();
    let target = other.spawn(Object::new(None)).unwrap();
    doc.try_spawn(&mut other, target).unwrap();
    assert_eq!(other.len(), 1);
    assert!(other.get(target).unwrap().map.is_some());
    assert!(other.children(target, Kind::Tileset).is_empty());
    assert!(other.children(target, Kind::Layer).is_empty());
}

#[test]
fn two_tiles_of_one_tileset_keep_their_rotations() {
    let mut world = World::new();
    let root = spawn_map(&mut world);
    let ts = spawn_tileset(&mut world, root, "forest", &["a.glb", "b.glb"]);
    let layer = spawn_layer(&mut world, root, "ground");
    spawn_tile(&mut world, layer, ts, 0, 0, 0, TileRotation::Clockwise120);
    spawn_tile(&mut world, layer, ts, 1, 1, 0, TileRotation::CounterClockwise120);
    let doc = MapFormat::try_new(&mut world, root).unwrap();
    let mut other = World::new();
    let target = other.spawn(Object::new(None)).unwrap();
    doc.try_spawn(&mut other, target).unwrap();
    let layers = other.children(target, Kind::Layer);
    let tiles = other.children(layers[0], Kind::PlacedTile);
    assert_eq!(tiles.len(), 2);
    let a = other.get(tiles[0]).unwrap();
    let b = other.get(tiles[1]).unwrap();
    assert_eq!(a.tile_transform.unwrap().rotation, TileRotation::Clockwise120);
    assert_eq!(b.tile_transform.unwrap().rotation, TileRotation::CounterClockwise120);
    assert_eq!(a.tile_ref.unwrap().tile, 0);
    assert_eq!(b.tile_ref.unwrap().tile, 1);
    assert_eq!(a.tile_ref.unwrap().tileset, b.tile_ref.unwrap().tileset);
}

#[test]
fn load_rejects_other_version_without_change() {
    for v in [0u64, 2, 7] {
        let mut doc = empty_doc();
        doc.version = v;
        let mut world = World::new();
        let target = world.spawn(Object::new(None)).unwrap();
        assert_eq!(doc.try_spawn(&mut world, target), Err(MapError::UnsupportedVersion(v)));
        assert_eq!(world.len(), 1);
        assert!(world.get(target).unwrap().map.is_none());
    }
}

#[test]
fn load_rejects_dead_target() {
    let doc = empty_doc();
    let mut world = World::new();
    let target = Entity { index: 0 };
    assert_eq!(doc.try_spawn(&mut world, target), Err(MapError::UnknownEntity(target)));
}

#[test]
fn load_rejects_duplicate_and_unknown_tilesets() {
    let mut doc = empty_doc();
    doc.tilesets.push(TilesetRecord { id: SaveId(3), tileset: TileSet::new("a") });
    doc.tilesets.push(TilesetRecord { id: SaveId(3), tileset: TileSet::new("b") });
    let mut world = World::new();
    let target = world.spawn(Object::new(None)).unwrap();
    assert_eq!(doc.try_spawn(&mut world, target), Err(MapError::DuplicateTileset(SaveId(3))));
    assert_eq!(world.len(), 1);

    let mut doc = empty_doc();
    doc.tilesets.push(TilesetRecord { id: SaveId(3), tileset: TileSet::new("a") });
    doc.layers.push(LayerRecord {
        name: "ground".to_string(),
        tiles: vec![TileRecord { location: Location { x: 0, y: 0 }, tileset: SaveId(4), tile_id: 0, rotation: TileRotation::Unrotated }],
    });
    assert_eq!(doc.try_spawn(&mut world, target), Err(MapError::UnknownTileset(SaveId(4))));
    assert_eq!(world.len(), 1);
}

#[test]
fn layout_survives_build_and_load() {
    let mut world = World::new();
    let root = world.spawn(Object::new(None)).unwrap();
    let mut map = HexMap::new();
    map.layout.scale = hexx::Vec2::new(2.0, 3.0);
    map.layout.origin = hexx::Vec2::new(-1.5, 0.25);
    assert!(world.insert_map(root, map));
    let doc = MapFormat::try_new(&mut world, root).unwrap();
    assert_eq!(doc.layout.scale, hexx::Vec2::new(2.0, 3.0));
    let mut other = World::new();
    let target = other.spawn(Object::new(None)).unwrap();
    doc.try_spawn(&mut other, target).unwrap();
    let loaded = other.get(target).unwrap().map.as_ref().unwrap();
    assert_eq!(loaded.layout.scale, hexx::Vec2::new(2.0, 3.0));
    assert_eq!(loaded.layout.origin, hexx::Vec2::new(-1.5, 0.25));
}

#[test]
fn location_from_pair() {
    assert_eq!(Location::from_pair((3, -4)), Location { x: 3, y: -4 });
}

#[test]
fn tile_reference_resolves_only_to_defined_tile() {
    let mut world = World::new();
    let root = spawn_map(&mut world);
    let ts = spawn_tileset(&mut world, root, "forest", &["tree.glb"]);
    let layer = spawn_layer(&mut world, root, "ground");
    assert_eq!(world.resolve_tile(TileRef { tileset: ts, tile: 0 }).unwrap().name, "tree");
    assert!(world.resolve_tile(TileRef { tileset: ts, tile: 1 }).is_none());
    assert!(world.resolve_tile(TileRef { tileset: layer, tile: 0 }).is_none());
}

#[test]
fn unresolved_tile_instances_are_dropped() {
    let mut world = World::new();
    let root = spawn_map(&mut world);
    let ts = spawn_tileset(&mut world, root, "forest", &["tree.glb"]);
    let layer = spawn_layer(&mut world, root, "ground");
    let good = spawn_tile(&mut world, layer, ts, 0, 0, 0, TileRotation::Unrotated);
    let bad_tile = spawn_tile(&mut world, layer, ts, 5, 1, 0, TileRotation::Unrotated);
    assert!(!world.drop_unresolved_tile(good));
    assert!(world.drop_unresolved_tile(bad_tile));
    assert!(!world.is_alive(bad_tile));
    world.despawn(ts);
    assert!(world.drop_unresolved_tile(good));
    assert!(!world.is_alive(good));
    assert!(!world.drop_unresolved_tile(layer));
}

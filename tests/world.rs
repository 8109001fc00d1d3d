use world_editor::editor::{create_map, first_children};
use world_editor::map::HexMap;
use world_editor::world::{Entity, Kind, Object, World};

fn spawn(world: &mut World, parent: Option<Entity>) -> Entity {
    world.spawn(Object::new(parent)).unwrap()
}

#[test]
fn spawn_gives_fresh_handles_in_order() {
    let mut world = World::new();
    let a = spawn(&mut world, None);
    let b = spawn(&mut world, Some(a));
    assert_eq!(a, Entity { index: 0 });
    assert_eq!(b, Entity { index: 1 });
    assert_eq!(world.len(), 2);
    assert_eq!(world.get(b).unwrap().parent, Some(a));
}

#[test]
fn spawn_refuses_dead_parent() {
    let mut world = World::new();
    assert!(world.spawn(Object::new(Some(Entity { index: 3 }))).is_none());
    let a = spawn(&mut world, None);
    world.despawn(a);
    assert!(world.spawn(Object::new(Some(a))).is_none());
    assert_eq!(world.len(), 1);
}

#[test]
fn despawn_removes_whole_subtree_only() {
    let mut world = World::new();
    let root = spawn(&mut world, None);
    let other = spawn(&mut world, None);
    let child = spawn(&mut world, Some(root));
    let grandchild = spawn(&mut world, Some(child));
    let cousin = spawn(&mut world, Some(other));
    world.despawn(root);
    assert!(!world.is_alive(root));
    assert!(!world.is_alive(child));
    assert!(!world.is_alive(grandchild));
    assert!(world.is_alive(other));
    assert!(world.is_alive(cousin));
    let again = spawn(&mut world, None);
    assert_eq!(again.index, 5);
}

#[test]
fn children_lists_kind_in_spawn_order() {
    let mut world = World::new();
    let root = spawn(&mut world, None);
    let mut layer = Object::new(Some(root));
    layer.layer = Some(world_editor::map::Layer::new("ground".to_string()));
    let l1 = world.spawn(layer).unwrap();
    let _plain = spawn(&mut world, Some(root));
    let mut layer = Object::new(Some(root));
    layer.layer = Some(world_editor::map::Layer::new("top".to_string()));
    let l2 = world.spawn(layer).unwrap();
    assert_eq!(world.children(root, Kind::Layer), vec![l1, l2]);
    assert!(world.children(root, Kind::Tileset).is_empty());
}

#[test]
fn get_map_finds_the_single_map_root() {
    let mut world = World::new();
    assert_eq!(world.get_map(), None);
    let a = spawn(&mut world, None);
    assert!(world.insert_map(a, HexMap::new()));
    assert_eq!(world.get_map(), Some(a));
    let b = spawn(&mut world, None);
    assert!(world.insert_map(b, HexMap::new()));
    assert_eq!(world.get_map(), None);
    world.despawn(a);
    assert_eq!(world.get_map(), Some(b));
}

#[test]
fn setters_refuse_dead_objects() {
    let mut world = World::new();
    let a = spawn(&mut world, None);
    world.despawn(a);
    assert!(!world.insert_name(a, "x".to_string()));
    assert!(!world.insert_map(a, HexMap::new()));
}

#[test]
fn create_map_builds_root_layer_and_tileset() {
    let mut world = World::new();
    let m = create_map(&mut world).unwrap();
    assert_eq!(world.len(), 3);
    assert_eq!(world.get_map(), Some(m.map));
    assert_eq!(world.get(m.map).unwrap().name.as_deref(), Some("map"));
    assert_eq!(world.children(m.map, Kind::Layer), vec![m.layer]);
    assert_eq!(world.children(m.map, Kind::Tileset), vec![m.tileset]);
    assert_eq!(world.get(m.layer).unwrap().layer.as_ref().unwrap().name, "Background");
    let ts = world.get(m.tileset).unwrap().tileset.as_ref().unwrap();
    assert_eq!(ts.name, "Default Tileset");
    assert!(ts.tiles.is_empty());
    assert_eq!(first_children(&world, m.map), (Some(m.tileset), Some(m.layer)));
}

#[test]
fn first_children_of_empty_root_is_none() {
    let mut world = World::new();
    let a = spawn(&mut world, None);
    assert_eq!(first_children(&world, a), (None, None));
}

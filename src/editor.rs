//! Editor commands on the object graph.

use vstd::prelude::*;

use crate::map::{HexMap, Layer};
use crate::map_format::{graph_model, LayerModel, MapModel};
use crate::tileset::{TileSet, TileSetView, TileView};
use crate::world::{
    children_of, lemma_children_of_fresh, lemma_children_of_push, object, Entity, Kind, Object, World,
};

verus! {

/// The objects of a newly created map.
#[derive(Clone, Copy, Debug, PartialEq, Eq, Structural)]
pub struct NewMap {
    pub map: Entity,
    pub layer: Entity,
    pub tileset: Entity,
}

/// Creates an empty map: a root named `map` with the default layout, and
/// below it a layer `Background` with no tiles and an empty tileset
/// `Default Tileset`. `None`, with nothing changed, when too few handles are
/// left.
pub fn create_map(world: &mut World) -> (r: Option<NewMap>)
    requires
        old(world).wf(),
    ensures
        final(world).wf(),
        (r is Some) == (old(world)@.len() + 2 < usize::MAX),
        r is None ==> final(world)@ == old(world)@,
        r matches Some(m) ==> {
            &&& final(world)@.len() == old(world)@.len() + 3
            &&& forall|i: int| 0 <= i < old(world)@.len() ==> #[trigger] final(world)@[i] == old(world)@[i]
            &&& m.map.index == old(world)@.len()
            &&& m.layer.index == old(world)@.len() + 1
            &&& m.tileset.index == old(world)@.len() + 2
            &&& object(final(world)@, m.map).parent is None
            &&& object(final(world)@, m.map).map is Some
            &&& object(final(world)@, m.map).name matches Some(n) && n@ == "map"@
            &&& object(final(world)@, m.layer).name matches Some(n) && n@ == "layer"@
            &&& object(final(world)@, m.tileset).name matches Some(n) && n@ == "tileset"@
            &&& object(final(world)@, m.tileset).tileset matches Some(ts) && ts.wf()
            &&& graph_model(final(world)@, m.map) == (MapModel {
                layout: object(final(world)@, m.map).map->Some_0.layout,
                tilesets: seq![
                    TileSetView {
                        name: "Default Tileset"@,
                        tiles: Map::<usize, TileView>::empty(),
                        order: Seq::<usize>::empty(),
                    },
                ],
                layers: seq![LayerModel { name: "Background"@, tiles: Seq::empty() }],
            })
        },
{
    if world.len() >= usize::MAX - 2 {
        return None;
    }
    let ghost w0 = world@;
    let mut root = Object::new(None);
    root.name = Some("map".to_owned());
    root.map = Some(HexMap::new());
    let map = match world.spawn(root) {
        Some(e) => e,
        None => {
            return None;
        },
    };
    let ghost w1 = world@;
    let mut layer = Object::new(Some(map));
    layer.name = Some("layer".to_owned());
    layer.layer = Some(Layer::new("Background".to_owned()));
    proof {
        lemma_children_of_fresh(w0, map, Kind::Tileset);
        lemma_children_of_fresh(w0, map, Kind::Layer);
        lemma_children_of_push(w0, root, map, Kind::Tileset);
        lemma_children_of_push(w0, root, map, Kind::Layer);
        lemma_children_of_push(w1, layer, map, Kind::Tileset);
        lemma_children_of_push(w1, layer, map, Kind::Layer);
    }
    let l = match world.spawn(layer) {
        Some(e) => e,
        None => {
            assert(false);
            return None;
        },
    };
    let ghost w2 = world@;
    let mut tileset = Object::new(Some(map));
    tileset.name = Some("tileset".to_owned());
    tileset.tileset = Some(TileSet::new("Default Tileset"));
    proof {
        lemma_children_of_fresh(w1, l, Kind::PlacedTile);
        lemma_children_of_push(w1, layer, l, Kind::PlacedTile);
        lemma_children_of_push(w2, tileset, l, Kind::PlacedTile);
        lemma_children_of_push(w2, tileset, map, Kind::Tileset);
        lemma_children_of_push(w2, tileset, map, Kind::Layer);
    }
    let t = match world.spawn(tileset) {
        Some(e) => e,
        None => {
            assert(false);
            return None;
        },
    };
    proof {
        let w3 = world@;
        assert(children_of(w3, map, Kind::Tileset) =~= seq![t]);
        assert(children_of(w3, map, Kind::Layer) =~= seq![l]);
        assert(children_of(w3, l, Kind::PlacedTile) =~= Seq::<Entity>::empty());
        let g = graph_model(w3, map);
        assert(object(w3, t).tileset->Some_0@.tiles =~= Map::<usize, TileView>::empty());
        assert(g.tilesets =~= seq![
            TileSetView {
                name: "Default Tileset"@,
                tiles: Map::<usize, TileView>::empty(),
                order: Seq::<usize>::empty(),
            },
        ]);
        assert(g.layers[0].tiles =~= Seq::<crate::map_format::TileModel>::empty());
        assert(g.layers =~= seq![LayerModel { name: "Background"@, tiles: Seq::empty() }]);
    }
    Some(NewMap { map, layer: l, tileset: t })
}

/// The tileset and the layer that become active when a map is opened: the
/// first tileset child and the first layer child of its root, if any.
pub fn first_children(world: &World, map: Entity) -> (r: (Option<Entity>, Option<Entity>))
    ensures
        r.0 == (if children_of(world@, map, Kind::Tileset).len() > 0 {
            Some(children_of(world@, map, Kind::Tileset)[0])
        } else {
            None
        }),
        r.1 == (if children_of(world@, map, Kind::Layer).len() > 0 {
            Some(children_of(world@, map, Kind::Layer)[0])
        } else {
            None
        }),
{
    let tilesets = world.children(map, Kind::Tileset);
    let layers = world.children(map, Kind::Layer);
    let t = if tilesets.len() > 0 {
        Some(tilesets[0])
    } else {
        None
    };
    let l = if layers.len() > 0 {
        Some(layers[0])
    } else {
        None
    };
    (t, l)
}

} // verus!

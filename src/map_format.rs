use vstd::prelude::*;

use crate::map::{HexMap, Layer, Location};
use crate::persistence::{
    assigned, fresh_before, lemma_assigned_same_but_save_ids, lemma_fresh_before_monotone, needs_id,
    next_save_id, AssignError, SaveId,
};
use crate::tileset::{TileId, TileRef, TileRotation, TileSet, TileSetView, TileTransform};
use crate::world::{
    childless, children_of, is_child_of_kind, is_live, lemma_children_of, lemma_children_of_childless,
    lemma_children_of_fresh, lemma_children_of_push, lemma_children_of_same_but_save_ids, lemma_children_of_update,
    object, same_but_save_ids, world_wf, Entity, Kind, Object, World,
};

verus! {

/// The map document format version that is written and accepted.
pub const MAP_FORMAT_VERSION: u64 = 1;

/// A placed tile in a map document; its tileset is named by stable identifier.
#[derive(Clone, Copy, Debug, PartialEq, Eq, Structural)]
pub struct TileRecord {
    pub location: Location,
    pub tileset: SaveId,
    pub tile_id: TileId,
    pub rotation: TileRotation,
}

/// A layer in a map document: its name and its tiles in order.
#[derive(Debug)]
pub struct LayerRecord {
    pub name: String,
    pub tiles: Vec<TileRecord>,
}

/// A tileset embedded in a map document under its stable identifier.
#[derive(Debug)]
pub struct TilesetRecord {
    pub id: SaveId,
    pub tileset: TileSet,
}

/// A map document: format version, grid layout, the embedded tilesets and
/// the layers.
#[derive(Debug)]
pub struct MapFormat {
    pub version: u64,
    pub layout: hexx::HexLayout,
    pub tilesets: Vec<TilesetRecord>,
    pub layers: Vec<LayerRecord>,
}

/// Why a map document could not be built or loaded.
#[derive(Clone, Copy, Debug, PartialEq, Eq, Structural)]
pub enum MapError {
    /// The root is not a live object with a map component.
    NotAMap(Entity),
    /// This tile instance refers to a tileset that is not a child of the map root.
    DanglingTileset(Entity),
    /// No stable identifier is left for a tileset.
    IdsExhausted,
    /// The document's format version is not the supported one.
    UnsupportedVersion(u64),
    /// The object to load into is not live.
    UnknownEntity(Entity),
    /// Two embedded tilesets share this identifier.
    DuplicateTileset(SaveId),
    /// A tile refers to this identifier, which no embedded tileset has.
    UnknownTileset(SaveId),
}

/// A placed tile, with its tileset given by position among the map's tilesets
/// (`-1` when it is not among them).
pub struct TileModel {
    pub location: Location,
    pub tileset: int,
    pub tile_id: TileId,
    pub rotation: TileRotation,
}

pub struct LayerModel {
    pub name: Seq<char>,
    pub tiles: Seq<TileModel>,
}

/// What a map is, apart from the identity of its live objects.
pub struct MapModel {
    pub layout: hexx::HexLayout,
    pub tilesets: Seq<TileSetView>,
    pub layers: Seq<LayerModel>,
}

/// The first position of `x` in `s`, or `-1`.
pub open spec fn position_of<A>(s: Seq<A>, x: A) -> int
    decreases s.len(),
{
    if s.len() == 0 {
        -1
    } else {
        let p = position_of(s.drop_last(), x);
        if p >= 0 {
            p
        } else if s.last() == x {
            s.len() - 1
        } else {
            -1
        }
    }
}

pub proof fn lemma_position_of<A>(s: Seq<A>, x: A)
    ensures
        -1 <= position_of(s, x) < s.len(),
        position_of(s, x) >= 0 ==> s[position_of(s, x)] == x,
        forall|j: int| 0 <= j < s.len() && j < position_of(s, x) ==> s[j] != x,
        position_of(s, x) == -1 ==> forall|j: int| 0 <= j < s.len() ==> s[j] != x,
    decreases s.len(),
{
    if s.len() > 0 {
        lemma_position_of(s.drop_last(), x);
        assert forall|j: int| 0 <= j < s.len() - 1 implies s.drop_last()[j] == s[j] by {}
    }
}

/// In a sequence without repeats, each element's position is its index.
pub proof fn lemma_position_of_distinct<A>(s: Seq<A>, p: int)
    requires
        0 <= p < s.len(),
        forall|i: int, j: int| 0 <= i < s.len() && 0 <= j < s.len() && i != j ==> s[i] != s[j],
    ensures
        position_of(s, s[p]) == p,
{
    lemma_position_of(s, s[p]);
}

pub open spec fn is_map_root(objs: Seq<Option<Object>>, root: Entity) -> bool {
    is_live(objs, root) && object(objs, root).map is Some
}

pub open spec fn tile_model(objs: Seq<Option<Object>>, t: Entity, ts: Seq<Entity>) -> TileModel {
    let o = object(objs, t);
    TileModel {
        location: o.location->Some_0,
        tileset: position_of(ts, o.tile_ref->Some_0.tileset),
        tile_id: o.tile_ref->Some_0.tile,
        rotation: o.tile_transform->Some_0.rotation,
    }
}

pub open spec fn layer_model(objs: Seq<Option<Object>>, l: Entity, ts: Seq<Entity>) -> LayerModel {
    LayerModel {
        name: object(objs, l).layer->Some_0.name@,
        tiles: children_of(objs, l, Kind::PlacedTile).map_values(|t: Entity| tile_model(objs, t, ts)),
    }
}

/// The map under `root` in the object graph: its layout, its tileset
/// children and its layer children with their tile instances, in order.
pub open spec fn graph_model(objs: Seq<Option<Object>>, root: Entity) -> MapModel {
    let ts = children_of(objs, root, Kind::Tileset);
    MapModel {
        layout: object(objs, root).map->Some_0.layout,
        tilesets: ts.map_values(|e: Entity| object(objs, e).tileset->Some_0@),
        layers: children_of(objs, root, Kind::Layer).map_values(|l: Entity| layer_model(objs, l, ts)),
    }
}

/// Whether some tile instance refers to a tileset outside the map's tilesets.
pub open spec fn has_dangling(m: MapModel) -> bool {
    exists|i: int, j: int|
        0 <= i < m.layers.len() && 0 <= j < m.layers[i].tiles.len() && #[trigger] m.layers[i].tiles[j].tileset
            < 0
}

pub open spec fn record_model(t: TileRecord, ids: Seq<SaveId>) -> TileModel {
    TileModel {
        location: t.location,
        tileset: position_of(ids, t.tileset),
        tile_id: t.tile_id,
        rotation: t.rotation,
    }
}

pub open spec fn layer_record_model(l: LayerRecord, ids: Seq<SaveId>) -> LayerModel {
    LayerModel { name: l.name@, tiles: l.tiles@.map_values(|t: TileRecord| record_model(t, ids)) }
}

impl MapFormat {
    /// The identifiers of the embedded tilesets, in order.
    pub open spec fn ids(&self) -> Seq<SaveId> {
        self.tilesets@.map_values(|r: TilesetRecord| r.id)
    }

    /// The map that the document describes.
    pub open spec fn model(&self) -> MapModel {
        MapModel {
            layout: self.layout,
            tilesets: self.tilesets@.map_values(|r: TilesetRecord| r.tileset@),
            layers: self.layers@.map_values(|l: LayerRecord| layer_record_model(l, self.ids())),
        }
    }

    /// Every embedded tileset is well formed.
    pub open spec fn wf(&self) -> bool {
        forall|k: int| 0 <= k < self.tilesets@.len() ==> (#[trigger] self.tilesets@[k]).tileset.wf()
    }

    /// No two embedded tilesets share an identifier.
    pub open spec fn ids_distinct(&self) -> bool {
        forall|i: int, j: int|
            0 <= i < self.tilesets@.len() && 0 <= j < self.tilesets@.len() && i != j ==> self.ids()[i]
                != self.ids()[j]
    }
}

/// The position of `e` in `s`, if it occurs.
fn entity_position(s: &Vec<Entity>, e: Entity) -> (r: Option<usize>)
    ensures
        match r {
            Some(p) => position_of(s@, e) == p as int,
            None => position_of(s@, e) == -1,
        },
{
    proof {
        lemma_position_of(s@, e);
    }
    let mut i: usize = 0;
    while i < s.len()
        invariant
            i <= s@.len(),
            forall|j: int| 0 <= j < i ==> s@[j] != e,
            -1 <= position_of(s@, e) < s@.len(),
            position_of(s@, e) >= 0 ==> s@[position_of(s@, e)] == e,
            forall|j: int| 0 <= j < s@.len() && j < position_of(s@, e) ==> s@[j] != e,
            position_of(s@, e) == -1 ==> forall|j: int| 0 <= j < s@.len() ==> s@[j] != e,
        decreases s@.len() - i,
    {
        if s[i] == e {
            return Some(i);
        }
        i = i + 1;
    }
    None
}

/// The position of `id` in `s`, if it occurs.
fn save_id_position(s: &Vec<SaveId>, id: SaveId) -> (r: Option<usize>)
    ensures
        match r {
            Some(p) => position_of(s@, id) == p as int,
            None => position_of(s@, id) == -1,
        },
{
    proof {
        lemma_position_of(s@, id);
    }
    let mut i: usize = 0;
    while i < s.len()
        invariant
            i <= s@.len(),
            forall|j: int| 0 <= j < i ==> s@[j] != id,
            -1 <= position_of(s@, id) < s@.len(),
            position_of(s@, id) >= 0 ==> s@[position_of(s@, id)] == id,
            forall|j: int| 0 <= j < s@.len() && j < position_of(s@, id) ==> s@[j] != id,
            position_of(s@, id) == -1 ==> forall|j: int| 0 <= j < s@.len() ==> s@[j] != id,
        decreases s@.len() - i,
    {
        if s[i] == id {
            return Some(i);
        }
        i = i + 1;
    }
    None
}

/// Two tables that differ only in stable identifiers describe the same map.
pub proof fn lemma_graph_model_same_but_save_ids(a: Seq<Option<Object>>, b: Seq<Option<Object>>, root: Entity)
    requires
        same_but_save_ids(a, b),
        a.len() <= usize::MAX,
        is_live(a, root),
    ensures
        graph_model(a, root) == graph_model(b, root),
{
    let strip = |o: Object| Object { save_id: None, ..o };
    assert(strip(object(a, root)) == strip(object(b, root)));
    lemma_children_of_same_but_save_ids(a, b, root, Kind::Tileset);
    lemma_children_of_same_but_save_ids(a, b, root, Kind::Layer);
    let ts = children_of(a, root, Kind::Tileset);
    let ls = children_of(a, root, Kind::Layer);
    lemma_children_of(a, root, Kind::Tileset);
    lemma_children_of(a, root, Kind::Layer);
    assert forall|j: int| 0 <= j < ts.len() implies object(a, #[trigger] ts[j]).tileset == object(b, ts[j]).tileset by {
        assert(a[ts[j].index as int] is Some);
        assert(strip(object(a, ts[j])) == strip(object(b, ts[j])));
    }
    assert(ts.map_values(|e: Entity| object(a, e).tileset->Some_0@) =~= ts.map_values(
        |e: Entity| object(b, e).tileset->Some_0@,
    ));
    assert forall|j: int| 0 <= j < ls.len() implies layer_model(a, #[trigger] ls[j], ts) == layer_model(b, ls[j], ts) by {
        let l = ls[j];
        assert(a[l.index as int] is Some);
        assert(strip(object(a, l)) == strip(object(b, l)));
        lemma_children_of_same_but_save_ids(a, b, l, Kind::PlacedTile);
        let cs = children_of(a, l, Kind::PlacedTile);
        lemma_children_of(a, l, Kind::PlacedTile);
        assert forall|q: int| 0 <= q < cs.len() implies tile_model(a, #[trigger] cs[q], ts) == tile_model(b, cs[q], ts) by {
            assert(a[cs[q].index as int] is Some);
            assert(strip(object(a, cs[q])) == strip(object(b, cs[q])));
        }
        assert(cs.map_values(|t: Entity| tile_model(a, t, ts)) =~= cs.map_values(|t: Entity| tile_model(b, t, ts)));
    }
    assert(ls.map_values(|l: Entity| layer_model(a, l, ts)) =~= ls.map_values(|l: Entity| layer_model(b, l, ts)));
}

/// A tile instance under the map root whose tileset is not one of the
/// root's tileset children, if there is one.
fn find_dangling(world: &World, root: Entity, ts: &Vec<Entity>) -> (r: Option<Entity>)
    requires
        world.wf(),
        ts@ == children_of(world@, root, Kind::Tileset),
    ensures
        (r is Some) == has_dangling(graph_model(world@, root)),
{
    let ghost m = graph_model(world@, root);
    let layers = world.children(root, Kind::Layer);
    proof {
        lemma_children_of(world@, root, Kind::Layer);
    }
    let mut i: usize = 0;
    while i < layers.len()
        invariant
            world.wf(),
            ts@ == children_of(world@, root, Kind::Tileset),
            m == graph_model(world@, root),
            layers@ == children_of(world@, root, Kind::Layer),
            i <= layers@.len(),
            forall|a: int, b: int|
                0 <= a < i && 0 <= b < m.layers[a].tiles.len() ==> #[trigger] m.layers[a].tiles[b].tileset >= 0,
        decreases layers@.len() - i,
    {
        let layer = layers[i];
        let tiles = world.children(layer, Kind::PlacedTile);
        proof {
            lemma_children_of(world@, layer, Kind::PlacedTile);
            assert(m.layers[i as int] == layer_model(world@, layer, ts@));
        }
        let mut j: usize = 0;
        while j < tiles.len()
            invariant
                world.wf(),
                m == graph_model(world@, root),
                i < layers@.len(),
                layers@ == children_of(world@, root, Kind::Layer),
                tiles@ == children_of(world@, layer, Kind::PlacedTile),
                m.layers[i as int] == layer_model(world@, layer, ts@),
                j <= tiles@.len(),
                forall|b: int| 0 <= b < j ==> #[trigger] m.layers[i as int].tiles[b].tileset >= 0,
            decreases tiles@.len() - j,
        {
            let t = tiles[j];
            proof {
                lemma_children_of(world@, layer, Kind::PlacedTile);
                assert(is_child_of_kind(world@, t.index as int, layer, Kind::PlacedTile));
                assert(m.layers[i as int].tiles[j as int] == tile_model(world@, t, ts@));
            }
            let o = match world.get(t) {
                Some(o) => o,
                None => {
                    assert(false);
                    return None;
                },
            };
            match o.tile_ref {
                Some(tr) => {
                    if entity_position(ts, tr.tileset).is_none() {
                        assert(m.layers[i as int].tiles[j as int].tileset < 0);
                        return Some(t);
                    }
                },
                None => {
                    assert(false);
                },
            }
            j = j + 1;
        }
        i = i + 1;
    }
    None
}

impl MapFormat {
    /// Builds the document of the map under `root`: its layout, its tileset
    /// children under stable identifiers (attached as needed), and its layer
    /// children with their tile instances, whose tileset references become
    /// stable identifiers. Tile instances without a location, a tile reference
    /// and an orientation are left out. A tile instance whose tileset is not a
    /// child of `root` is an error, found before anything changes.
    pub fn try_new(world: &mut World, root: Entity) -> (r: Result<MapFormat, MapError>)
        requires
            old(world).wf(),
        ensures
            final(world).wf(),
            is_map_root(old(world)@, root) && has_dangling(graph_model(old(world)@, root)) ==> r is Err
                && r->Err_0 is DanglingTileset,
            match r {
                Ok(doc) => built(old(world)@, root, doc, final(world)@),
                Err(MapError::NotAMap(e)) => e == root && !is_map_root(old(world)@, root) && final(world)@
                    == old(world)@,
                Err(MapError::DanglingTileset(_)) => is_map_root(old(world)@, root) && has_dangling(
                    graph_model(old(world)@, root),
                ) && final(world)@ == old(world)@,
                Err(MapError::IdsExhausted) => {
                    let ts = children_of(old(world)@, root, Kind::Tileset);
                    &&& is_map_root(old(world)@, root)
                    &&& !has_dangling(graph_model(old(world)@, root))
                    &&& next_save_id(old(world)@) + fresh_before(old(world)@, ts, ts.len() as int) > u64::MAX + 1
                    &&& exists|n: int| #[trigger] assigned(old(world)@, ts, n, final(world)@)
                },
                Err(_) => false,
            },
    {
        let layout = match world.get(root) {
            Some(o) => match &o.map {
                Some(m) => m.layout.clone(),
                None => {
                    return Err(MapError::NotAMap(root));
                },
            },
            None => {
                return Err(MapError::NotAMap(root));
            },
        };
        let ghost before = world@;
        let tilesets = world.children(root, Kind::Tileset);
        if let Some(t) = find_dangling(world, root, &tilesets) {
            return Err(MapError::DanglingTileset(t));
        }
        proof {
            lemma_children_of(before, root, Kind::Tileset);
        }
        let ids = match world.assign_save_ids(&tilesets) {
            Ok(ids) => ids,
            Err(AssignError::IdsExhausted) => {
                proof {
                    let n = choose|n: int|
                        0 <= n < tilesets@.len() && is_live(before, tilesets@[n]) && needs_id(before, tilesets@, n)
                            && next_save_id(before) + fresh_before(before, tilesets@, n) > u64::MAX
                            && #[trigger] assigned(before, tilesets@, n, world@);
                    lemma_fresh_before_monotone(before, tilesets@, n + 1, tilesets@.len() as int);
                }
                return Err(MapError::IdsExhausted);
            },
            Err(AssignError::UnknownEntity(e)) => {
                proof {
                    let n = choose|n: int|
                        0 <= n < tilesets@.len() && tilesets@[n] == e && !is_live(before, e)
                            && #[trigger] assigned(before, tilesets@, n, world@);
                    assert(is_child_of_kind(before, tilesets@[n].index as int, root, Kind::Tileset));
                }
                return Err(MapError::NotAMap(root));
            },
        };
        proof {
            lemma_assigned_same_but_save_ids(before, tilesets@, tilesets@.len() as int, world@);
            lemma_graph_model_same_but_save_ids(before, world@, root);
            lemma_children_of_same_but_save_ids(before, world@, root, Kind::Tileset);
            lemma_ids_distinct(world@, tilesets@, ids@);
        }
        let mut doc = MapFormat { version: MAP_FORMAT_VERSION, layout, tilesets: Vec::new(), layers: Vec::new() };
        doc.add_tilesets(world, root, &tilesets, &ids);
        doc.add_layers(world, root, &tilesets, &ids);
        Ok(doc)
    }
}

impl MapFormat {
    /// Embeds the tileset children `ts` under their identifiers `ids`.
    fn add_tilesets(&mut self, world: &World, root: Entity, ts: &Vec<Entity>, ids: &Vec<SaveId>)
        requires
            world.wf(),
            ts@ == children_of(world@, root, Kind::Tileset),
            ids@.len() == ts@.len(),
            forall|k: int| 0 <= k < ts@.len() ==> object(world@, ts@[k]).save_id == Some(#[trigger] ids@[k]),
            old(self).tilesets@.len() == 0,
        ensures
            final(self).ids() == ids@,
            final(self).tilesets@.map_values(|r: TilesetRecord| r.tileset@) == ts@.map_values(
                |e: Entity| object(world@, e).tileset->Some_0@,
            ),
            final(self).wf(),
            final(self).version == old(self).version,
            final(self).layout == old(self).layout,
            final(self).layers@ == old(self).layers@,
    {
        proof {
            lemma_children_of(world@, root, Kind::Tileset);
        }
        let mut k: usize = 0;
        while k < ts.len()
            invariant
                world.wf(),
                ts@ == children_of(world@, root, Kind::Tileset),
                ids@.len() == ts@.len(),
                k <= ts@.len(),
                self.tilesets@.len() == k,
                forall|x: int| 0 <= x < k ==> (#[trigger] self.tilesets@[x]).id == ids@[x],
                forall|x: int| 0 <= x < k ==> (#[trigger] self.tilesets@[x]).tileset@ == object(world@, ts@[x]).tileset->Some_0@,
                self.wf(),
                self.version == old(self).version,
                self.layout == old(self).layout,
                self.layers@ == old(self).layers@,
            decreases ts@.len() - k,
        {
            let e = ts[k];
            proof {
                lemma_children_of(world@, root, Kind::Tileset);
                assert(is_child_of_kind(world@, e.index as int, root, Kind::Tileset));
                assert(crate::world::slot_wf(world@, e.index as int));
            }
            let o = match world.get(e) {
                Some(o) => o,
                None => {
                    assert(false);
                    return;
                },
            };
            let tileset = match &o.tileset {
                Some(t) => t.clone(),
                None => {
                    assert(false);
                    return;
                },
            };
            let ghost prev = self.tilesets@;
            self.tilesets.push(TilesetRecord { id: ids[k], tileset });
            proof {
                assert(self.tilesets@ == prev.push(self.tilesets@[k as int]));
                assert(self.tilesets@[k as int].tileset@ == object(world@, ts@[k as int]).tileset->Some_0@);
                assert forall|x: int| 0 <= x < k implies #[trigger] self.tilesets@[x] == prev[x] by {}
                assert forall|j: int| 0 <= j < self.tilesets@.len() implies (#[trigger] self.tilesets@[j]).tileset.wf() by {
                    if j < k {
                        assert(self.tilesets@[j] == prev[j]);
                    }
                }
            }
            k = k + 1;
        }
        proof {
            assert(self.ids() =~= ids@);
            assert(self.tilesets@.map_values(|r: TilesetRecord| r.tileset@) =~= ts@.map_values(
                |e: Entity| object(world@, e).tileset->Some_0@,
            ));
        }
    }

    /// Lists the layer children of `root` with their tile instances, each
    /// tileset reference given by the identifier of its tileset.
    fn add_layers(&mut self, world: &World, root: Entity, ts: &Vec<Entity>, ids: &Vec<SaveId>)
        requires
            world.wf(),
            ts@ == children_of(world@, root, Kind::Tileset),
            ids@.len() == ts@.len(),
            forall|i: int, j: int| 0 <= i < ids@.len() && 0 <= j < ids@.len() && i != j ==> ids@[i] != ids@[j],
            !has_dangling(graph_model(world@, root)),
            old(self).layers@.len() == 0,
        ensures
            final(self).layers@.map_values(|l: LayerRecord| layer_record_model(l, ids@)) == graph_model(
                world@,
                root,
            ).layers,
            final(self).version == old(self).version,
            final(self).layout == old(self).layout,
            final(self).tilesets@ == old(self).tilesets@,
    {
        let ghost m = graph_model(world@, root);
        let layers = world.children(root, Kind::Layer);
        proof {
            lemma_children_of(world@, root, Kind::Layer);
        }
        let mut i: usize = 0;
        while i < layers.len()
            invariant
                world.wf(),
                ts@ == children_of(world@, root, Kind::Tileset),
                ids@.len() == ts@.len(),
                forall|a: int, b: int| 0 <= a < ids@.len() && 0 <= b < ids@.len() && a != b ==> ids@[a] != ids@[b],
                m == graph_model(world@, root),
                !has_dangling(m),
                layers@ == children_of(world@, root, Kind::Layer),
                i <= layers@.len(),
                self.layers@.len() == i,
                forall|x: int| 0 <= x < i ==> layer_record_model(#[trigger] self.layers@[x], ids@) == m.layers[x],
                self.version == old(self).version,
                self.layout == old(self).layout,
                self.tilesets@ == old(self).tilesets@,
            decreases layers@.len() - i,
        {
            let layer = layers[i];
            proof {
                lemma_children_of(world@, root, Kind::Layer);
                assert(is_child_of_kind(world@, layer.index as int, root, Kind::Layer));
                assert(m.layers[i as int] == layer_model(world@, layer, ts@));
            }
            let lo = match world.get(layer) {
                Some(o) => o,
                None => {
                    assert(false);
                    return;
                },
            };
            let name = match &lo.layer {
                Some(l) => l.name.clone(),
                None => {
                    assert(false);
                    return;
                },
            };
            let tiles = world.children(layer, Kind::PlacedTile);
            proof {
                lemma_children_of(world@, layer, Kind::PlacedTile);
            }
            let mut records: Vec<TileRecord> = Vec::new();
            let mut j: usize = 0;
            while j < tiles.len()
                invariant
                    world.wf(),
                    ts@ == children_of(world@, root, Kind::Tileset),
                    ids@.len() == ts@.len(),
                    forall|a: int, b: int| 0 <= a < ids@.len() && 0 <= b < ids@.len() && a != b ==> ids@[a] != ids@[b],
                    m == graph_model(world@, root),
                    !has_dangling(m),
                    i < layers@.len(),
                    layers@ == children_of(world@, root, Kind::Layer),
                    m.layers[i as int] == layer_model(world@, layer, ts@),
                    tiles@ == children_of(world@, layer, Kind::PlacedTile),
                    j <= tiles@.len(),
                    records@.len() == j,
                    forall|x: int| 0 <= x < j ==> record_model(#[trigger] records@[x], ids@) == m.layers[i as int].tiles[x],
                decreases tiles@.len() - j,
            {
                let t = tiles[j];
                proof {
                    lemma_children_of(world@, layer, Kind::PlacedTile);
                    assert(is_child_of_kind(world@, t.index as int, layer, Kind::PlacedTile));
                    assert(m.layers[i as int].tiles[j as int] == tile_model(world@, t, ts@));
                }
                let o = match world.get(t) {
                    Some(o) => o,
                    None => {
                        assert(false);
                        return;
                    },
                };
                let (location, tile_ref, tile_transform) = match (o.location, o.tile_ref, o.tile_transform) {
                    (Some(l), Some(r), Some(tt)) => (l, r, tt),
                    _ => {
                        assert(false);
                        return;
                    },
                };
                let p = match entity_position(ts, tile_ref.tileset) {
                    Some(p) => p,
                    None => {
                        assert(m.layers[i as int].tiles[j as int].tileset < 0);
                        return;
                    },
                };
                proof {
                    lemma_position_of(ts@, tile_ref.tileset);
                    lemma_position_of_distinct(ids@, p as int);
                }
                let rec = TileRecord {
                    location,
                    tileset: ids[p],
                    tile_id: tile_ref.tile,
                    rotation: tile_transform.rotation,
                };
                let ghost prev = records@;
                records.push(rec);
                proof {
                    assert(record_model(rec, ids@) == m.layers[i as int].tiles[j as int]);
                    assert forall|x: int| 0 <= x < j implies #[trigger] records@[x] == prev[x] by {}
                }
                j = j + 1;
            }
            let ghost prev_layers = self.layers@;
            let rec = LayerRecord { name, tiles: records };
            proof {
                assert(records@.map_values(|t: TileRecord| record_model(t, ids@)) =~= m.layers[i as int].tiles);
                assert(layer_record_model(rec, ids@) == m.layers[i as int]);
            }
            self.layers.push(rec);
            proof {
                assert forall|x: int| 0 <= x < i implies #[trigger] self.layers@[x] == prev_layers[x] by {}
            }
            i = i + 1;
        }
        proof {
            assert(self.layers@.map_values(|l: LayerRecord| layer_record_model(l, ids@)) =~= m.layers);
        }
    }
}

/// The number of tile records in `layers`.
pub open spec fn tile_count(layers: Seq<LayerRecord>) -> int
    decreases layers.len(),
{
    if layers.len() == 0 {
        0
    } else {
        tile_count(layers.drop_last()) + layers.last().tiles@.len()
    }
}

proof fn lemma_tile_count_nonneg(layers: Seq<LayerRecord>)
    ensures
        tile_count(layers) >= 0,
    decreases layers.len(),
{
    if layers.len() > 0 {
        lemma_tile_count_nonneg(layers.drop_last());
    }
}

proof fn lemma_tile_count_prefix(layers: Seq<LayerRecord>, x: int)
    requires
        0 <= x < layers.len(),
    ensures
        tile_count(layers.take(x)) >= 0,
        tile_count(layers.take(x + 1)) == tile_count(layers.take(x)) + layers[x].tiles@.len(),
        tile_count(layers.take(x + 1)) <= tile_count(layers),
    decreases layers.len(),
{
    assert(layers.take(x + 1).drop_last() =~= layers.take(x));
    lemma_tile_count_nonneg(layers.take(x));
    if x + 1 < layers.len() {
        lemma_tile_count_prefix(layers.drop_last(), x);
        assert(layers.drop_last().take(x + 1) =~= layers.take(x + 1));
        assert(layers.drop_last().take(x) =~= layers.take(x));
    } else {
        assert(layers.take(x + 1) =~= layers);
    }
}

impl MapFormat {
    /// How many objects loading the document spawns.
    pub open spec fn spawn_count(&self) -> int {
        self.tilesets@.len() + self.layers@.len() + tile_count(self.layers@)
    }

    /// The identifiers of the embedded tilesets, in order.
    fn id_list(&self) -> (r: Vec<SaveId>)
        ensures
            r@ == self.ids(),
    {
        let mut r: Vec<SaveId> = Vec::new();
        let mut k: usize = 0;
        while k < self.tilesets.len()
            invariant
                k <= self.tilesets@.len(),
                r@ == self.ids().take(k as int),
            decreases self.tilesets@.len() - k,
        {
            r.push(self.tilesets[k].id);
            assert(r@ =~= self.ids().take(k + 1));
            k = k + 1;
        }
        assert(self.ids().take(k as int) =~= self.ids());
        r
    }

    /// An identifier that two embedded tilesets share, if any.
    fn duplicate_id(&self) -> (r: Option<SaveId>)
        ensures
            (r is None) == self.ids_distinct(),
    {
        let n = self.tilesets.len();
        let mut i: usize = 0;
        while i < n
            invariant
                n == self.tilesets@.len(),
                i <= n,
                forall|a: int, b: int| 0 <= a < i && 0 <= b < n && a != b ==> self.ids()[a] != self.ids()[b],
            decreases n - i,
        {
            let mut j: usize = 0;
            while j < n
                invariant
                    n == self.tilesets@.len(),
                    i < n,
                    j <= n,
                    forall|a: int, b: int| 0 <= a < i && 0 <= b < n && a != b ==> self.ids()[a] != self.ids()[b],
                    forall|b: int| 0 <= b < j && b != i ==> self.ids()[i as int] != self.ids()[b],
                decreases n - j,
            {
                if i != j && self.tilesets[i].id == self.tilesets[j].id {
                    assert(self.ids()[i as int] == self.ids()[j as int]);
                    return Some(self.tilesets[i].id);
                }
                j = j + 1;
            }
            i = i + 1;
        }
        None
    }

    /// An identifier that a tile refers to and no embedded tileset has, if any.
    fn unknown_reference(&self, ids: &Vec<SaveId>) -> (r: Option<SaveId>)
        requires
            ids@ == self.ids(),
        ensures
            (r is None) == !has_dangling(self.model()),
    {
        let ghost m = self.model();
        let mut x: usize = 0;
        while x < self.layers.len()
            invariant
                ids@ == self.ids(),
                m == self.model(),
                x <= self.layers@.len(),
                forall|a: int, b: int|
                    0 <= a < x && 0 <= b < m.layers[a].tiles.len() ==> #[trigger] m.layers[a].tiles[b].tileset >= 0,
            decreases self.layers@.len() - x,
        {
            let layer = &self.layers[x];
            let mut y: usize = 0;
            while y < layer.tiles.len()
                invariant
                    ids@ == self.ids(),
                    m == self.model(),
                    x < self.layers@.len(),
                    *layer == self.layers@[x as int],
                    y <= layer.tiles@.len(),
                    forall|b: int| 0 <= b < y ==> #[trigger] m.layers[x as int].tiles[b].tileset >= 0,
                decreases layer.tiles@.len() - y,
            {
                let id = layer.tiles[y].tileset;
                if save_id_position(ids, id).is_none() {
                    assert(m.layers[x as int].tiles[y as int].tileset < 0);
                    return Some(id);
                }
                y = y + 1;
            }
            x = x + 1;
        }
        None
    }

    /// Loads the document into the live object `root`: after checking the
    /// whole document (version, distinct tileset identifiers, every tile's
    /// tileset known), spawns a tileset child of `root` per embedded tileset,
    /// then a layer child per layer with a tile instance child per tile,
    /// whose tileset reference is the tileset spawned for its identifier,
    /// and last attaches the map with the document's layout to `root`. On an
    /// error nothing changes.
    pub fn try_spawn(&self, world: &mut World, root: Entity) -> (r: Result<(), MapError>)
        requires
            old(world).wf(),
            self.wf(),
            old(world)@.len() + self.spawn_count() < usize::MAX,
        ensures
            final(world).wf(),
            r is Err ==> final(world)@ == old(world)@,
            (r is Ok) == loadable(old(world)@, *self, root),
            self.version != MAP_FORMAT_VERSION ==> r == Err::<(), MapError>(MapError::UnsupportedVersion(self.version)),
            match r {
                Ok(()) => loaded(old(world)@, *self, root, final(world)@),
                Err(MapError::UnsupportedVersion(v)) => v == self.version && v != MAP_FORMAT_VERSION,
                Err(MapError::UnknownEntity(e)) => e == root && self.version == MAP_FORMAT_VERSION && !is_live(
                    old(world)@,
                    root,
                ),
                Err(MapError::DuplicateTileset(_)) => self.version == MAP_FORMAT_VERSION && is_live(old(world)@, root)
                    && !self.ids_distinct(),
                Err(MapError::UnknownTileset(_)) => self.version == MAP_FORMAT_VERSION && is_live(old(world)@, root)
                    && self.ids_distinct() && has_dangling(self.model()),
                Err(_) => false,
            },
    {
        if self.version != MAP_FORMAT_VERSION {
            return Err(MapError::UnsupportedVersion(self.version));
        }
        if !world.is_alive(root) {
            return Err(MapError::UnknownEntity(root));
        }
        if let Some(id) = self.duplicate_id() {
            return Err(MapError::DuplicateTileset(id));
        }
        let ids = self.id_list();
        if let Some(id) = self.unknown_reference(&ids) {
            return Err(MapError::UnknownTileset(id));
        }
        let ghost before = world@;
        let ghost ct0 = children_of(before, root, Kind::Tileset);
        let ghost cl0 = children_of(before, root, Kind::Layer);
        let ghost m = self.model();
        proof {
            lemma_tile_count_nonneg(self.layers@);
        }
        let mut ts_new: Vec<Entity> = Vec::new();
        let mut k: usize = 0;
        while k < self.tilesets.len()
            invariant
                world.wf(),
                self.wf(),
                before.len() + self.spawn_count() < usize::MAX,
                tile_count(self.layers@) >= 0,
                k <= self.tilesets@.len(),
                world@.len() == before.len() + k,
                forall|i: int| 0 <= i < before.len() ==> #[trigger] world@[i] == before[i],
                is_live(before, root),
                ts_new@.len() == k,
                forall|a: int| 0 <= a < k ==> (#[trigger] ts_new@[a]).index == before.len() + a,
                forall|a: int|
                    0 <= a < k ==> object(world@, #[trigger] ts_new@[a]).tileset->Some_0@ == self.tilesets@[a].tileset@,
                children_of(world@, root, Kind::Tileset) == ct0 + ts_new@,
                children_of(world@, root, Kind::Layer) == cl0,
            decreases self.tilesets@.len() - k,
        {
            let mut o = Object::new(Some(root));
            o.name = Some("tileset".to_owned());
            o.tileset = Some(self.tilesets[k].tileset.clone());
            let ghost cur = world@;
            proof {
                lemma_children_of_push(cur, o, root, Kind::Tileset);
                lemma_children_of_push(cur, o, root, Kind::Layer);
                assert(cur[root.index as int] == before[root.index as int]);
                assert(self.tilesets@[k as int].tileset.wf());
                assert(o.tileset->Some_0.wf());
            }
            let e = match world.spawn(o) {
                Some(e) => e,
                None => {
                    assert(false);
                    return Ok(());
                },
            };
            ts_new.push(e);
            proof {
                assert(ct0 + ts_new@ =~= (ct0 + ts_new@.drop_last()).push(e));
                assert forall|a: int| 0 <= a < k implies object(world@, #[trigger] ts_new@[a]).tileset->Some_0@
                    == self.tilesets@[a].tileset@ by {
                    assert(world@[ts_new@[a].index as int] == cur[ts_new@[a].index as int]);
                }
                assert forall|i: int| 0 <= i < before.len() implies #[trigger] world@[i] == before[i] by {
                    assert(world@[i] == cur[i]);
                }
            }
            k = k + 1;
        }
        proof {
            assert(self.layers@.take(0) =~= Seq::<LayerRecord>::empty());
        }
        let ghost mut ls_new: Seq<Entity> = Seq::empty();
        let ghost mut tiles_new: Seq<Seq<Entity>> = Seq::empty();
        let mut x: usize = 0;
        while x < self.layers.len()
            invariant
                world.wf(),
                self.ids_distinct(),
                ids@ == self.ids(),
                m == self.model(),
                !has_dangling(m),
                before.len() + self.spawn_count() < usize::MAX,
                x <= self.layers@.len(),
                world@.len() == before.len() + self.tilesets@.len() + x + tile_count(self.layers@.take(x as int)),
                tile_count(self.layers@.take(x as int)) >= 0,
                forall|i: int| 0 <= i < before.len() ==> #[trigger] world@[i] == before[i],
                is_live(before, root),
                ts_new@.len() == self.tilesets@.len(),
                forall|a: int| 0 <= a < ts_new@.len() ==> (#[trigger] ts_new@[a]).index == before.len() + a,
                forall|a: int|
                    0 <= a < ts_new@.len() ==> object(world@, #[trigger] ts_new@[a]).tileset->Some_0@
                        == self.tilesets@[a].tileset@,
                children_of(world@, root, Kind::Tileset) == ct0 + ts_new@,
                children_of(world@, root, Kind::Layer) == cl0 + ls_new,
                ls_new.len() == x,
                tiles_new.len() == x,
                forall|a: int| 0 <= a < x ==> (#[trigger] ls_new[a]).index < world@.len(),
                forall|a: int| 0 <= a < x ==> (#[trigger] ls_new[a]).index >= before.len(),
                forall|a: int, b: int| 0 <= a < b < x ==> (#[trigger] ls_new[a]).index < (#[trigger] ls_new[b]).index,
                forall|a: int|
                    0 <= a < x ==> object(world@, #[trigger] ls_new[a]).layer->Some_0.name@ == m.layers[a].name,
                forall|a: int| 0 <= a < x ==> children_of(world@, #[trigger] ls_new[a], Kind::PlacedTile) == tiles_new[a],
                forall|a: int| 0 <= a < x ==> (#[trigger] tiles_new[a]).len() == m.layers[a].tiles.len(),
                forall|a: int, b: int|
                    0 <= a < x && 0 <= b < tiles_new[a].len() ==> tile_model(
                        world@,
                        #[trigger] tiles_new[a][b],
                        ts_new@,
                    ) == m.layers[a].tiles[b],
                forall|a: int, b: int|
                    0 <= a < x && 0 <= b < tiles_new[a].len() ==> (#[trigger] tiles_new[a][b]).index < world@.len(),
                forall|a: int, b: int|
                    0 <= a < x && 0 <= b < tiles_new[a].len() ==> (#[trigger] tiles_new[a][b]).index >= before.len(),
            decreases self.layers@.len() - x,
        {
            let layer = &self.layers[x];
            proof {
                lemma_tile_count_prefix(self.layers@, x as int);
                assert(m.layers[x as int] == layer_record_model(*layer, ids@));
            }
            let mut lo = Object::new(Some(root));
            lo.name = Some("layer".to_owned());
            lo.layer = Some(Layer::new(layer.name.clone()));
            let ghost cur = world@;
            proof {
                assert(cur[root.index as int] == before[root.index as int]);
                lemma_children_of_push(cur, lo, root, Kind::Tileset);
                lemma_children_of_push(cur, lo, root, Kind::Layer);
                assert forall|a: int| 0 <= a < x implies children_of(cur.push(Some(lo)), #[trigger] ls_new[a], Kind::PlacedTile)
                    == children_of(cur, ls_new[a], Kind::PlacedTile) by {
                    lemma_children_of_push(cur, lo, ls_new[a], Kind::PlacedTile);
                }
            }
            let le = match world.spawn(lo) {
                Some(e) => e,
                None => {
                    assert(false);
                    return Ok(());
                },
            };
            proof {
                lemma_children_of_fresh(cur, le, Kind::PlacedTile);
                lemma_children_of_push(cur, lo, le, Kind::PlacedTile);
                assert forall|a: int| 0 <= a < ts_new@.len() implies object(world@, #[trigger] ts_new@[a]) == object(
                    cur,
                    ts_new@[a],
                ) by {
                    assert(world@[ts_new@[a].index as int] == cur[ts_new@[a].index as int]);
                }
                assert forall|i: int| 0 <= i < before.len() implies #[trigger] world@[i] == before[i] by {
                    assert(world@[i] == cur[i]);
                }
                assert forall|a: int| 0 <= a < x implies object(world@, #[trigger] ls_new[a]) == object(cur, ls_new[a]) by {
                    assert(world@[ls_new[a].index as int] == cur[ls_new[a].index as int]);
                }
                assert forall|a: int, b: int| 0 <= a < x && 0 <= b < tiles_new[a].len() implies object(
                    world@,
                    #[trigger] tiles_new[a][b],
                ) == object(cur, tiles_new[a][b]) by {
                    assert(world@[tiles_new[a][b].index as int] == cur[tiles_new[a][b].index as int]);
                }
                assert(cl0 + ls_new.push(le) =~= (cl0 + ls_new).push(le));
                ls_new = ls_new.push(le);
            }
            let ghost mut row: Seq<Entity> = Seq::empty();
            let mut y: usize = 0;
            while y < layer.tiles.len()
                invariant
                    world.wf(),
                    ids@ == self.ids(),
                    self.ids_distinct(),
                    m == self.model(),
                    !has_dangling(m),
                    *layer == self.layers@[x as int],
                    m.layers[x as int] == layer_record_model(*layer, ids@),
                    x < self.layers@.len(),
                    before.len() + self.spawn_count() < usize::MAX,
                    tile_count(self.layers@.take(x + 1)) == tile_count(self.layers@.take(x as int))
                        + layer.tiles@.len(),
                    tile_count(self.layers@.take(x + 1)) <= tile_count(self.layers@),
                    tile_count(self.layers@.take(x as int)) >= 0,
                    y <= layer.tiles@.len(),
                    world@.len() == before.len() + self.tilesets@.len() + x + 1 + tile_count(
                        self.layers@.take(x as int),
                    ) + y,
                    forall|i: int| 0 <= i < before.len() ==> #[trigger] world@[i] == before[i],
                    is_live(before, root),
                    is_live(world@, le),
                    le.index == ls_new[x as int].index,
                    ls_new[x as int] == le,
                    ts_new@.len() == self.tilesets@.len(),
                    forall|a: int| 0 <= a < ts_new@.len() ==> (#[trigger] ts_new@[a]).index == before.len() + a,
                    forall|a: int|
                        0 <= a < ts_new@.len() ==> object(world@, #[trigger] ts_new@[a]).tileset->Some_0@
                            == self.tilesets@[a].tileset@,
                    children_of(world@, root, Kind::Tileset) == ct0 + ts_new@,
                    children_of(world@, root, Kind::Layer) == cl0 + ls_new,
                    ls_new.len() == x + 1,
                    tiles_new.len() == x,
                    forall|a: int| 0 <= a <= x ==> (#[trigger] ls_new[a]).index < world@.len(),
                    forall|a: int| 0 <= a <= x ==> (#[trigger] ls_new[a]).index >= before.len(),
                    forall|a: int, b: int| 0 <= a < b <= x ==> (#[trigger] ls_new[a]).index < (#[trigger] ls_new[b]).index,
                    forall|a: int|
                        0 <= a <= x ==> object(world@, #[trigger] ls_new[a]).layer->Some_0.name@ == m.layers[a].name,
                    forall|a: int| 0 <= a < x ==> children_of(world@, #[trigger] ls_new[a], Kind::PlacedTile) == tiles_new[a],
                    forall|a: int| 0 <= a < x ==> (#[trigger] tiles_new[a]).len() == m.layers[a].tiles.len(),
                    forall|a: int, b: int|
                        0 <= a < x && 0 <= b < tiles_new[a].len() ==> tile_model(
                            world@,
                            #[trigger] tiles_new[a][b],
                            ts_new@,
                        ) == m.layers[a].tiles[b],
                    forall|a: int, b: int|
                        0 <= a < x && 0 <= b < tiles_new[a].len() ==> (#[trigger] tiles_new[a][b]).index < world@.len(),
                    forall|a: int, b: int|
                        0 <= a < x && 0 <= b < tiles_new[a].len() ==> (#[trigger] tiles_new[a][b]).index >= before.len(),
                    forall|b: int| 0 <= b < y ==> (#[trigger] row[b]).index >= before.len(),
                    children_of(world@, le, Kind::PlacedTile) == row,
                    row.len() == y,
                    forall|b: int| 0 <= b < y ==> tile_model(world@, #[trigger] row[b], ts_new@) == m.layers[x as int].tiles[b],
                    forall|b: int| 0 <= b < y ==> (#[trigger] row[b]).index < world@.len(),
                decreases layer.tiles@.len() - y,
            {
                let rec = layer.tiles[y];
                proof {
                    assert(m.layers[x as int].tiles[y as int] == record_model(rec, ids@));
                }
                let p = match save_id_position(&ids, rec.tileset) {
                    Some(p) => p,
                    None => {
                        assert(m.layers[x as int].tiles[y as int].tileset < 0);
                        return Ok(());
                    },
                };
                proof {
                    lemma_position_of(ids@, rec.tileset);
                }
                let mut to = Object::new(Some(le));
                to.location = Some(rec.location);
                to.tile_ref = Some(TileRef { tileset: ts_new[p], tile: rec.tile_id });
                to.tile_transform = Some(TileTransform { rotation: rec.rotation });
                let ghost cur2 = world@;
                proof {
                    lemma_children_of_push(cur2, to, root, Kind::Tileset);
                    lemma_children_of_push(cur2, to, root, Kind::Layer);
                    lemma_children_of_push(cur2, to, le, Kind::PlacedTile);
                    assert forall|a: int| 0 <= a < x implies children_of(
                        cur2.push(Some(to)),
                        #[trigger] ls_new[a],
                        Kind::PlacedTile,
                    ) == children_of(cur2, ls_new[a], Kind::PlacedTile) by {
                        lemma_children_of_push(cur2, to, ls_new[a], Kind::PlacedTile);
                    }
                    assert forall|i: int, j: int|
                        0 <= i < ts_new@.len() && 0 <= j < ts_new@.len() && i != j implies ts_new@[i] != ts_new@[j] by {
                        assert(ts_new@[i].index == before.len() + i);
                        assert(ts_new@[j].index == before.len() + j);
                    }
                    lemma_position_of_distinct(ts_new@, p as int);
                }
                let t = match world.spawn(to) {
                    Some(t) => t,
                    None => {
                        assert(false);
                        return Ok(());
                    },
                };
                proof {
                    assert(tile_model(world@, t, ts_new@) == m.layers[x as int].tiles[y as int]);
                    assert forall|a: int| 0 <= a < ts_new@.len() implies object(world@, #[trigger] ts_new@[a])
                        == object(cur2, ts_new@[a]) by {
                        assert(world@[ts_new@[a].index as int] == cur2[ts_new@[a].index as int]);
                    }
                    assert forall|i: int| 0 <= i < before.len() implies #[trigger] world@[i] == before[i] by {
                        assert(world@[i] == cur2[i]);
                    }
                    assert forall|a: int, b: int|
                        0 <= a < x && 0 <= b < tiles_new[a].len() implies tile_model(
                        world@,
                        #[trigger] tiles_new[a][b],
                        ts_new@,
                    ) == m.layers[a].tiles[b] by {
                        assert(world@[tiles_new[a][b].index as int] == cur2[tiles_new[a][b].index as int]);
                    }
                    assert forall|b: int| 0 <= b < y implies tile_model(world@, #[trigger] row[b], ts_new@)
                        == m.layers[x as int].tiles[b] by {
                        assert(world@[row[b].index as int] == cur2[row[b].index as int]);
                    }
                    assert forall|a: int| 0 <= a <= x implies object(world@, #[trigger] ls_new[a]).layer->Some_0.name@
                        == m.layers[a].name by {
                        assert(world@[ls_new[a].index as int] == cur2[ls_new[a].index as int]);
                    }
                    row = row.push(t);
                }
                y = y + 1;
            }
            proof {
                tiles_new = tiles_new.push(row);
                assert(layer.tiles@.len() == m.layers[x as int].tiles.len());
            }
            x = x + 1;
        }
        let ghost pre_map = world@;
        proof {
            assert(self.layers@.take(x as int) =~= self.layers@);
            assert(pre_map[root.index as int] == before[root.index as int]);
            assert(is_live(pre_map, root));
            assert forall|kk: Kind, pp: Entity| #![trigger children_of(pre_map, pp, kk)]
                children_of(pre_map.update(root.index as int, Some(Object { map: Some(HexMap { layout: self.layout }), ..object(pre_map, root) })), pp, kk)
                    == children_of(pre_map, pp, kk) by {
                lemma_children_of_update(
                    pre_map,
                    root.index as int,
                    Object { map: Some(HexMap { layout: self.layout }), ..object(pre_map, root) },
                    pp,
                    kk,
                );
            }
        }
        world.insert_map(root, HexMap { layout: self.layout.clone() });
        proof {
            let after = world@;
            assert forall|i: int| 0 <= i < after.len() && i != root.index implies #[trigger] after[i] == pre_map[i] by {}
            assert forall|a: int| 0 <= a < ts_new@.len() implies object(after, #[trigger] ts_new@[a]) == object(
                pre_map,
                ts_new@[a],
            ) by {
                assert(after[ts_new@[a].index as int] == pre_map[ts_new@[a].index as int]);
            }
            assert forall|a: int| 0 <= a < ls_new.len() implies object(after, #[trigger] ls_new[a]) == object(
                pre_map,
                ls_new[a],
            ) by {
                assert(after[ls_new[a].index as int] == pre_map[ls_new[a].index as int]);
            }
            assert forall|a: int, b: int| 0 <= a < ls_new.len() && 0 <= b < tiles_new[a].len() implies tile_model(
                after,
                #[trigger] tiles_new[a][b],
                ts_new@,
            ) == self.model().layers[a].tiles[b] by {
                assert(after[tiles_new[a][b].index as int] == pre_map[tiles_new[a][b].index as int]);
            }
            assert(children_of(after, root, Kind::Tileset) == children_of(pre_map, root, Kind::Tileset));
            assert(children_of(after, root, Kind::Layer) == children_of(pre_map, root, Kind::Layer));
            assert forall|a: int| 0 <= a < ls_new.len() implies children_of(after, #[trigger] ls_new[a], Kind::PlacedTile)
                == tiles_new[a] by {
                assert(children_of(after, ls_new[a], Kind::PlacedTile) == children_of(pre_map, ls_new[a], Kind::PlacedTile));
            }
            lemma_loaded_model(before, *self, root, after, ts_new@, ls_new, tiles_new);
        }
        Ok(())
    }
}

/// Whether `doc` passes the loader's checks against `root`: the supported
/// version, a live root, distinct tileset identifiers and every tile's
/// tileset known.
pub open spec fn loadable(objs: Seq<Option<Object>>, doc: MapFormat, root: Entity) -> bool {
    &&& doc.version == MAP_FORMAT_VERSION
    &&& is_live(objs, root)
    &&& doc.ids_distinct()
    &&& !has_dangling(doc.model())
}

/// The outcome of loading `doc` into `root`: the document passed its checks,
/// the objects already there are unchanged but for the map attached to
/// `root`, the new objects come after them, and when `root` had no children
/// the map under it is the one the document describes.
pub open spec fn loaded(before: Seq<Option<Object>>, doc: MapFormat, root: Entity, after: Seq<Option<Object>>) -> bool {
    &&& doc.version == MAP_FORMAT_VERSION
    &&& is_live(before, root)
    &&& doc.ids_distinct()
    &&& !has_dangling(doc.model())
    &&& after.len() == before.len() + doc.spawn_count()
    &&& after.len() >= before.len()
    &&& forall|i: int| 0 <= i < before.len() && i != root.index ==> #[trigger] after[i] == before[i]
    &&& after[root.index as int] == Some(Object { map: Some(HexMap { layout: doc.layout }), ..object(before, root) })
    &&& childless(before, root) ==> graph_model(after, root) == doc.model()
}

/// What the loader has spawned gives the document's map under a root that
/// had no children.
proof fn lemma_loaded_model(
    before: Seq<Option<Object>>,
    doc: MapFormat,
    root: Entity,
    after: Seq<Option<Object>>,
    ts_new: Seq<Entity>,
    ls_new: Seq<Entity>,
    tiles_new: Seq<Seq<Entity>>,
)
    requires
        is_live(before, root),
        after[root.index as int] == Some(Object { map: Some(HexMap { layout: doc.layout }), ..object(before, root) }),
        children_of(after, root, Kind::Tileset) == children_of(before, root, Kind::Tileset) + ts_new,
        children_of(after, root, Kind::Layer) == children_of(before, root, Kind::Layer) + ls_new,
        ts_new.len() == doc.tilesets@.len(),
        forall|a: int| 0 <= a < ts_new.len() ==> object(after, #[trigger] ts_new[a]).tileset->Some_0@
            == doc.tilesets@[a].tileset@,
        ls_new.len() == doc.layers@.len(),
        tiles_new.len() == doc.layers@.len(),
        forall|a: int| 0 <= a < ls_new.len() ==> object(after, #[trigger] ls_new[a]).layer->Some_0.name@
            == doc.model().layers[a].name,
        forall|a: int| 0 <= a < ls_new.len() ==> children_of(after, #[trigger] ls_new[a], Kind::PlacedTile)
            == tiles_new[a],
        forall|a: int| 0 <= a < ls_new.len() ==> (#[trigger] tiles_new[a]).len() == doc.model().layers[a].tiles.len(),
        forall|a: int, b: int|
            0 <= a < ls_new.len() && 0 <= b < tiles_new[a].len() ==> tile_model(after, #[trigger] tiles_new[a][b], ts_new)
                == doc.model().layers[a].tiles[b],
    ensures
        childless(before, root) ==> graph_model(after, root) == doc.model(),
{
    if childless(before, root) {
        lemma_children_of_childless(before, root, Kind::Tileset);
        lemma_children_of_childless(before, root, Kind::Layer);
        let m = doc.model();
        let g = graph_model(after, root);
        assert(children_of(after, root, Kind::Tileset) =~= ts_new);
        assert(children_of(after, root, Kind::Layer) =~= ls_new);
        assert(g.tilesets =~= m.tilesets);
        assert forall|a: int| 0 <= a < ls_new.len() implies #[trigger] g.layers[a] == m.layers[a] by {
            assert(g.layers[a] == layer_model(after, ls_new[a], ts_new));
            assert(layer_model(after, ls_new[a], ts_new).tiles =~= m.layers[a].tiles);
        }
        assert(g.layers =~= m.layers);
    }
}

/// Building a document from a map and loading it into an object without
/// children reconstructs the same map: the same layout, the same tilesets in
/// order, the same layers in order with the same tile instances (location,
/// tileset, tile and orientation), up to the identity of live objects. The
/// map that was saved is itself unchanged but for stable identifiers.
pub proof fn lemma_map_round_trip(
    w0: Seq<Option<Object>>,
    root: Entity,
    doc: MapFormat,
    w1: Seq<Option<Object>>,
    v0: Seq<Option<Object>>,
    target: Entity,
    v1: Seq<Option<Object>>,
)
    requires
        world_wf(w0),
        built(w0, root, doc, w1),
        loaded(v0, doc, target, v1),
        childless(v0, target),
    ensures
        graph_model(v1, target) == graph_model(w0, root),
        graph_model(w1, root) == graph_model(w0, root),
{
    let ts = children_of(w0, root, Kind::Tileset);
    lemma_assigned_same_but_save_ids(w0, ts, ts.len() as int, w1);
    lemma_graph_model_same_but_save_ids(w0, w1, root);
}

/// Identifiers held by distinct live objects differ.
proof fn lemma_ids_distinct(objs: Seq<Option<Object>>, ts: Seq<Entity>, ids: Seq<SaveId>)
    requires
        world_wf(objs),
        ids.len() == ts.len(),
        forall|k: int| 0 <= k < ts.len() ==> is_live(objs, #[trigger] ts[k]),
        forall|i: int, j: int| 0 <= i < j < ts.len() ==> (#[trigger] ts[i]).index < (#[trigger] ts[j]).index,
        forall|k: int| 0 <= k < ids.len() ==> object(objs, ts[k]).save_id == Some(#[trigger] ids[k]),
    ensures
        forall|i: int, j: int| 0 <= i < ids.len() && 0 <= j < ids.len() && i != j ==> ids[i] != ids[j],
{
    assert forall|i: int, j: int| 0 <= i < ids.len() && 0 <= j < ids.len() && i != j implies ids[i] != ids[j] by {
        assert(object(objs, ts[i]).save_id == Some(ids[i]));
        assert(object(objs, ts[j]).save_id == Some(ids[j]));
        if i < j {
            assert(ts[i].index < ts[j].index);
        } else {
            assert(ts[j].index < ts[i].index);
        }
        assert(objs[ts[i].index as int] is Some && objs[ts[j].index as int] is Some);
    }
}

/// The outcome of building a document from the map under `root`: the root is
/// a map without dangling tileset references, the tileset children carry
/// stable identifiers (attached as needed, nothing else changed), and the
/// document has the supported version and describes the same map.
pub open spec fn built(before: Seq<Option<Object>>, root: Entity, doc: MapFormat, after: Seq<Option<Object>>) -> bool {
    let ts = children_of(before, root, Kind::Tileset);
    &&& is_map_root(before, root)
    &&& !has_dangling(graph_model(before, root))
    &&& assigned(before, ts, ts.len() as int, after)
    &&& doc.version == MAP_FORMAT_VERSION
    &&& doc.wf()
    &&& doc.ids_distinct()
    &&& doc.ids().len() == ts.len()
    &&& forall|k: int| 0 <= k < ts.len() ==> object(after, ts[k]).save_id == Some(#[trigger] doc.ids()[k])
    &&& doc.model() == graph_model(before, root)
}

} // verus!

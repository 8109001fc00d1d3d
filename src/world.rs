use vstd::prelude::*;

use crate::map::{HexMap, Layer, Location};
use crate::persistence::SaveId;
use crate::tileset::{TileRef, TileSet, TileTransform};

verus! {

/// Handle of an object in a [`World`]. Handles are never reused: a despawned
/// object's slot stays empty.
#[derive(Clone, Copy, Debug, PartialEq, Eq, Structural, Hash)]
pub struct Entity {
    pub index: usize,
}

/// A live object: an optional parent and the components attached to it.
#[derive(Debug)]
pub struct Object {
    pub parent: Option<Entity>,
    pub name: Option<String>,
    pub map: Option<HexMap>,
    pub tileset: Option<TileSet>,
    pub layer: Option<Layer>,
    pub location: Option<Location>,
    pub tile_ref: Option<TileRef>,
    pub tile_transform: Option<TileTransform>,
    pub save_id: Option<SaveId>,
}

impl Object {
    /// An object with no components under `parent`.
    pub fn new(parent: Option<Entity>) -> (r: Object)
        ensures
            r.parent == parent,
            r.name is None,
            r.map is None,
            r.tileset is None,
            r.layer is None,
            r.location is None,
            r.tile_ref is None,
            r.tile_transform is None,
            r.save_id is None,
    {
        Object {
            parent,
            name: None,
            map: None,
            tileset: None,
            layer: None,
            location: None,
            tile_ref: None,
            tile_transform: None,
            save_id: None,
        }
    }
}

/// The object graph: a table of objects indexed by handle, each child
/// pointing at its parent.
#[derive(Debug)]
pub struct World {
    objects: Vec<Option<Object>>,
}

impl View for World {
    type V = Seq<Option<Object>>;

    closed spec fn view(&self) -> Seq<Option<Object>> {
        self.objects@
    }
}

pub open spec fn is_live(objs: Seq<Option<Object>>, e: Entity) -> bool {
    e.index < objs.len() && objs[e.index as int] is Some
}

pub open spec fn object(objs: Seq<Option<Object>>, e: Entity) -> Object {
    objs[e.index as int]->Some_0
}

/// A live object's parent is live and was spawned before it; tilesets are
/// well formed.
pub open spec fn slot_wf(objs: Seq<Option<Object>>, i: int) -> bool {
    objs[i] matches Some(o) ==> {
        &&& (o.parent matches Some(p) ==> p.index < i && objs[p.index as int] is Some)
        &&& (o.tileset matches Some(ts) ==> ts.wf())
    }
}

/// Whether a live object other than slot `except` holds `id`.
pub open spec fn save_id_taken(objs: Seq<Option<Object>>, id: SaveId, except: int) -> bool {
    exists|i: int|
        0 <= i < objs.len() && i != except && #[trigger] objs[i] is Some && objs[i]->Some_0.save_id == Some(id)
}

/// No two live objects hold the same stable identifier.
pub open spec fn save_ids_unique(objs: Seq<Option<Object>>) -> bool {
    forall|i: int, j: int|
        0 <= i < objs.len() && 0 <= j < objs.len() && i != j && #[trigger] objs[i] is Some
            && #[trigger] objs[j] is Some && objs[i]->Some_0.save_id is Some ==> objs[i]->Some_0.save_id
            != objs[j]->Some_0.save_id
}

pub open spec fn world_wf(objs: Seq<Option<Object>>) -> bool {
    &&& objs.len() <= usize::MAX
    &&& forall|i: int| 0 <= i < objs.len() ==> #[trigger] slot_wf(objs, i)
    &&& save_ids_unique(objs)
}


/// The kinds of child that the document builder collects.
#[derive(Clone, Copy, Debug, PartialEq, Eq, Structural)]
pub enum Kind {
    Tileset,
    Layer,
    /// A tile instance with a location, a tile reference and an orientation.
    PlacedTile,
}

pub open spec fn has_kind(o: Object, k: Kind) -> bool {
    match k {
        Kind::Tileset => o.tileset is Some,
        Kind::Layer => o.layer is Some,
        Kind::PlacedTile => o.location is Some && o.tile_ref is Some && o.tile_transform is Some,
    }
}

fn object_has_kind(o: &Object, k: Kind) -> (r: bool)
    ensures
        r == has_kind(*o, k),
{
    match k {
        Kind::Tileset => o.tileset.is_some(),
        Kind::Layer => o.layer.is_some(),
        Kind::PlacedTile => o.location.is_some() && o.tile_ref.is_some() && o.tile_transform.is_some(),
    }
}

pub open spec fn is_child_of_kind(objs: Seq<Option<Object>>, i: int, parent: Entity, k: Kind) -> bool {
    objs[i] matches Some(o) && o.parent == Some(parent) && has_kind(o, k)
}

/// The live children of `parent` of kind `k`, in table order.
pub open spec fn children_of(objs: Seq<Option<Object>>, parent: Entity, k: Kind) -> Seq<Entity>
    decreases objs.len(),
{
    if objs.len() == 0 {
        Seq::empty()
    } else {
        let prev = children_of(objs.drop_last(), parent, k);
        if is_child_of_kind(objs, objs.len() - 1, parent, k) {
            prev.push(Entity { index: (objs.len() - 1) as usize })
        } else {
            prev
        }
    }
}

/// Whether the object in slot `i` is `root` or lies below it.
pub open spec fn descends(objs: Seq<Option<Object>>, i: int, root: int) -> bool
    decreases i,
{
    if i == root {
        true
    } else if 0 <= i < objs.len() && objs[i] is Some && objs[i]->Some_0.parent is Some
        && objs[i]->Some_0.parent->Some_0.index < i {
        descends(objs, objs[i]->Some_0.parent->Some_0.index as int, root)
    } else {
        false
    }
}

/// A slot below `root` cannot lie below it.
proof fn lemma_descends_below(objs: Seq<Option<Object>>, i: int, root: int)
    ensures
        i < root ==> !descends(objs, i, root),
        root >= objs.len() && i != root ==> !descends(objs, i, root),
    decreases i,
{
    if i != root && 0 <= i < objs.len() && objs[i] is Some && objs[i]->Some_0.parent is Some
        && objs[i]->Some_0.parent->Some_0.index < i {
        lemma_descends_below(objs, objs[i]->Some_0.parent->Some_0.index as int, root);
    }
}

/// The children of a kind are live children of that kind, listed in
/// strictly increasing order of handle.
pub proof fn lemma_children_of(objs: Seq<Option<Object>>, parent: Entity, k: Kind)
    requires
        objs.len() <= usize::MAX,
    ensures
        forall|j: int|
            0 <= j < children_of(objs, parent, k).len() ==> {
                let e = #[trigger] children_of(objs, parent, k)[j];
                &&& e.index < objs.len()
                &&& is_child_of_kind(objs, e.index as int, parent, k)
            },
        forall|i: int, j: int|
            0 <= i < j < children_of(objs, parent, k).len() ==> (#[trigger] children_of(objs, parent, k)[i]).index
                < (#[trigger] children_of(objs, parent, k)[j]).index,
    decreases objs.len(),
{
    if objs.len() > 0 {
        let front = objs.drop_last();
        lemma_children_of(front, parent, k);
        let c = children_of(objs, parent, k);
        let cf = children_of(front, parent, k);
        assert forall|j: int| 0 <= j < cf.len() implies is_child_of_kind(objs, cf[j].index as int, parent, k)
            && cf[j].index < objs.len() by {
            assert(objs[cf[j].index as int] == front[cf[j].index as int]);
        }
        if is_child_of_kind(objs, objs.len() - 1, parent, k) {
            assert(c == cf.push(Entity { index: (objs.len() - 1) as usize }));
            assert forall|j: int| 0 <= j < c.len() implies ({
                let e = #[trigger] c[j];
                &&& e.index < objs.len()
                &&& is_child_of_kind(objs, e.index as int, parent, k)
            }) by {
                if j < cf.len() {
                    assert(c[j] == cf[j]);
                }
            }
            assert forall|i: int, j: int| 0 <= i < j < c.len() implies (#[trigger] c[i]).index < (
            #[trigger] c[j]).index by {
                assert(c[i] == cf[i]);
                if j < cf.len() {
                    assert(c[j] == cf[j]);
                }
            }
        } else {
            assert(c == cf);
        }
    }
}

/// Appending an object adds it to its parent's children of each kind it
/// has, and leaves every other list of children as it was.
pub proof fn lemma_children_of_push(objs: Seq<Option<Object>>, o: Object, parent: Entity, k: Kind)
    ensures
        children_of(objs.push(Some(o)), parent, k) == if o.parent == Some(parent) && has_kind(o, k) {
            children_of(objs, parent, k).push(Entity { index: objs.len() as usize })
        } else {
            children_of(objs, parent, k)
        },
{
    assert(objs.push(Some(o)).drop_last() =~= objs);
}

/// An object spawned after every object in the table has no children yet.
pub proof fn lemma_children_of_fresh(objs: Seq<Option<Object>>, parent: Entity, k: Kind)
    requires
        world_wf(objs),
        parent.index >= objs.len(),
    ensures
        children_of(objs, parent, k) == Seq::<Entity>::empty(),
    decreases objs.len(),
{
    if objs.len() > 0 {
        let front = objs.drop_last();
        assert forall|i: int| 0 <= i < front.len() implies #[trigger] slot_wf(front, i) by {
            assert(slot_wf(objs, i));
        }
        assert forall|i: int, j: int|
            0 <= i < front.len() && 0 <= j < front.len() && i != j && #[trigger] front[i] is Some
                && #[trigger] front[j] is Some && front[i]->Some_0.save_id is Some implies front[i]->Some_0.save_id
            != front[j]->Some_0.save_id by {
            assert(objs[i] == front[i] && objs[j] == front[j]);
        }
        lemma_children_of_fresh(front, parent, k);
        assert(slot_wf(objs, objs.len() - 1));
    }
}

/// A map root with no live children: where a document is loaded.
pub open spec fn childless(objs: Seq<Option<Object>>, root: Entity) -> bool {
    forall|i: int| 0 <= i < objs.len() && #[trigger] objs[i] is Some ==> objs[i]->Some_0.parent != Some(root)
}

/// An object without live children has no children of any kind.
pub proof fn lemma_children_of_childless(objs: Seq<Option<Object>>, parent: Entity, k: Kind)
    requires
        childless(objs, parent),
    ensures
        children_of(objs, parent, k) == Seq::<Entity>::empty(),
    decreases objs.len(),
{
    if objs.len() > 0 {
        let front = objs.drop_last();
        assert forall|i: int| 0 <= i < front.len() && #[trigger] front[i] is Some implies front[i]->Some_0.parent
            != Some(parent) by {
            assert(objs[i] == front[i]);
        }
        lemma_children_of_childless(front, parent, k);
        assert(objs[objs.len() - 1] is Some ==> objs[objs.len() - 1]->Some_0.parent != Some(parent));
    }
}

/// Replacing an object by one with the same parent and the same kinds keeps
/// every list of children.
pub proof fn lemma_children_of_update(objs: Seq<Option<Object>>, i: int, o: Object, parent: Entity, k: Kind)
    requires
        0 <= i < objs.len(),
        objs[i] is Some,
        o.parent == objs[i]->Some_0.parent,
        o.tileset is Some == objs[i]->Some_0.tileset is Some,
        o.layer is Some == objs[i]->Some_0.layer is Some,
        o.location == objs[i]->Some_0.location,
        o.tile_ref == objs[i]->Some_0.tile_ref,
        o.tile_transform == objs[i]->Some_0.tile_transform,
    ensures
        children_of(objs.update(i, Some(o)), parent, k) == children_of(objs, parent, k),
    decreases objs.len(),
{
    let u = objs.update(i, Some(o));
    if i < objs.len() - 1 {
        assert(u.drop_last() =~= objs.drop_last().update(i, Some(o)));
        lemma_children_of_update(objs.drop_last(), i, o, parent, k);
    } else {
        assert(u.drop_last() =~= objs.drop_last());
    }
}

/// Two tables that differ only in the stable identifiers attached.
pub open spec fn same_but_save_ids(a: Seq<Option<Object>>, b: Seq<Option<Object>>) -> bool {
    &&& a.len() == b.len()
    &&& forall|i: int|
        0 <= i < a.len() ==> (#[trigger] a[i] is Some) == (b[i] is Some) && (a[i] is Some ==> Object {
            save_id: None,
            ..a[i]->Some_0
        } == Object { save_id: None, ..b[i]->Some_0 })
}

/// Lists of children do not depend on stable identifiers.
pub proof fn lemma_children_of_same_but_save_ids(
    a: Seq<Option<Object>>,
    b: Seq<Option<Object>>,
    parent: Entity,
    k: Kind,
)
    requires
        same_but_save_ids(a, b),
    ensures
        children_of(a, parent, k) == children_of(b, parent, k),
    decreases a.len(),
{
    if a.len() > 0 {
        let i = a.len() - 1;
        assert(a[i] is Some == b[i] is Some);
        assert forall|j: int| 0 <= j < a.drop_last().len() implies (#[trigger] a.drop_last()[j] is Some) == (
        b.drop_last()[j] is Some) && (a.drop_last()[j] is Some ==> Object {
            save_id: None,
            ..a.drop_last()[j]->Some_0
        } == Object { save_id: None, ..b.drop_last()[j]->Some_0 }) by {
            assert(a[j] is Some == b[j] is Some);
        }
        lemma_children_of_same_but_save_ids(a.drop_last(), b.drop_last(), parent, k);
        if a[i] is Some {
            let sa = Object { save_id: None, ..a[i]->Some_0 };
            let sb = Object { save_id: None, ..b[i]->Some_0 };
            assert(sa.parent == sb.parent && sa.tileset == sb.tileset && sa.layer == sb.layer);
        }
    }
}

/// `after` is `before` without `root` and every object below it.
pub open spec fn despawned(before: Seq<Option<Object>>, root: Entity, after: Seq<Option<Object>>) -> bool {
    &&& after.len() == before.len()
    &&& forall|i: int|
        0 <= i < before.len() ==> #[trigger] after[i] == if descends(before, i, root.index as int) {
            None
        } else {
            before[i]
        }
}

/// The one live object with a map component, if there is exactly one.
pub open spec fn single_map(objs: Seq<Option<Object>>, e: Entity) -> bool {
    &&& is_live(objs, e)
    &&& object(objs, e).map is Some
    &&& forall|i: int| 0 <= i < objs.len() && i != e.index && #[trigger] objs[i] is Some ==> objs[i]->Some_0.map is None
}

impl World {
    pub open spec fn wf(&self) -> bool {
        world_wf(self@)
    }

    pub fn new() -> (r: World)
        ensures
            r.wf(),
            r@ == Seq::<Option<Object>>::empty(),
    {
        World { objects: Vec::new() }
    }

    /// Number of slots, live or not.
    pub fn len(&self) -> (r: usize)
        ensures
            r == self@.len(),
    {
        self.objects.len()
    }

    pub fn is_alive(&self, e: Entity) -> (r: bool)
        ensures
            r == is_live(self@, e),
    {
        e.index < self.objects.len() && self.objects[e.index].is_some()
    }

    pub fn get(&self, e: Entity) -> (r: Option<&Object>)
        ensures
            match r {
                Some(o) => is_live(self@, e) && *o == object(self@, e),
                None => !is_live(self@, e),
            },
    {
        if e.index < self.objects.len() {
            match &self.objects[e.index] {
                Some(o) => Some(o),
                None => None,
            }
        } else {
            None
        }
    }

    /// Adds `obj` as a new object with a fresh handle. Nothing is added
    /// when its parent is not live, when it already carries a stable
    /// identifier (those are attached only by assignment), or when every
    /// handle is taken.
    pub fn spawn(&mut self, obj: Object) -> (r: Option<Entity>)
        requires
            old(self).wf(),
            obj.tileset matches Some(ts) ==> ts.wf(),
        ensures
            final(self).wf(),
            (r is Some) == ((obj.parent matches Some(p) ==> is_live(old(self)@, p)) && obj.save_id is None
                && old(self)@.len() < usize::MAX),
            r matches Some(e) ==> e.index == old(self)@.len() && final(self)@ == old(self)@.push(Some(obj)),
            r is None ==> final(self)@ == old(self)@,
    {
        match obj.parent {
            Some(p) => {
                if !self.is_alive(p) {
                    return None;
                }
            },
            None => {},
        }
        if obj.save_id.is_some() || self.objects.len() == usize::MAX {
            return None;
        }
        let e = Entity { index: self.objects.len() };
        self.objects.push(Some(obj));
        assert forall|i: int| 0 <= i < self@.len() implies #[trigger] slot_wf(self@, i) by {
            if i < old(self)@.len() {
                assert(slot_wf(old(self)@, i));
            }
        }
        Some(e)
    }

    /// Takes the live object `e` out of its slot, leaving the slot empty for
    /// the moment; the caller puts an object back with `put_back`.
    fn take(&mut self, e: Entity) -> (r: Object)
        requires
            is_live(old(self)@, e),
        ensures
            r == object(old(self)@, e),
            final(self)@ == old(self)@.update(e.index as int, None),
    {
        let mut slot: Option<Object> = None;
        self.objects.set_and_swap(e.index, &mut slot);
        match slot {
            Some(o) => o,
            None => {
                assert(false);
                Object::new(None)
            },
        }
    }
    /// The map root: the one live object with a map component. `None` when
    /// there is none or more than one.
    pub fn get_map(&self) -> (r: Option<Entity>)
        ensures
            match r {
                Some(e) => single_map(self@, e),
                None => forall|e: Entity| !single_map(self@, e),
            },
    {
        let mut found: Option<Entity> = None;
        let mut i: usize = 0;
        while i < self.objects.len()
            invariant
                i <= self@.len(),
                match found {
                    Some(e) => e.index < i && is_live(self@, e) && object(self@, e).map is Some && forall|j: int|
                        0 <= j < i && j != e.index && #[trigger] self@[j] is Some ==> self@[j]->Some_0.map is None,
                    None => forall|j: int| 0 <= j < i && #[trigger] self@[j] is Some ==> self@[j]->Some_0.map is None,
                },
            decreases self@.len() - i,
        {
            let has_map = match &self.objects[i] {
                Some(o) => o.map.is_some(),
                None => false,
            };
            if has_map {
                match found {
                    Some(e) => {
                        assert forall|e2: Entity| !single_map(self@, e2) by {
                            if single_map(self@, e2) {
                                if e2.index != i {
                                    assert(self@[i as int] is Some);
                                } else {
                                    assert(self@[e.index as int] is Some);
                                }
                            }
                        }
                        return None;
                    },
                    None => {
                        found = Some(Entity { index: i });
                    },
                }
            }
            i = i + 1;
        }
        if found.is_none() {
            assert forall|e2: Entity| !single_map(self@, e2) by {
                if single_map(self@, e2) {
                    assert(self@[e2.index as int] is Some);
                }
            }
        }
        found
    }

    /// The live children of `parent` of kind `k`, in table order.
    pub fn children(&self, parent: Entity, k: Kind) -> (r: Vec<Entity>)
        ensures
            r@ == children_of(self@, parent, k),
    {
        let mut r: Vec<Entity> = Vec::new();
        let mut i: usize = 0;
        while i < self.objects.len()
            invariant
                i <= self@.len(),
                r@ == children_of(self@.take(i as int), parent, k),
            decreases self@.len() - i,
        {
            let hit = match &self.objects[i] {
                Some(o) => match o.parent {
                    Some(p) => p == parent && object_has_kind(o, k),
                    None => false,
                },
                None => false,
            };
            assert(self@.take(i + 1).drop_last() =~= self@.take(i as int));
            assert(self@.take(i + 1)[i as int] == self@[i as int]);
            if hit {
                r.push(Entity { index: i });
            }
            i = i + 1;
        }
        assert(self@.take(self@.len() as int) =~= self@);
        r
    }

    /// Removes `root` and every object below it.
    pub fn despawn(&mut self, root: Entity)
        requires
            old(self).wf(),
        ensures
            final(self).wf(),
            despawned(old(self)@, root, final(self)@),
    {
        let ghost old_objs = self@;
        let len = self.objects.len();
        if root.index >= len {
            assert forall|i: int| 0 <= i < old_objs.len() implies !descends(old_objs, i, root.index as int) by {
                lemma_descends_below(old_objs, i, root.index as int);
            }
            return;
        }
        self.objects.set(root.index, None);
        let mut i: usize = root.index + 1;
        proof {
            assert forall|j: int| 0 <= j < i implies #[trigger] self@[j] == if descends(old_objs, j, root.index as int) {
                None
            } else {
                old_objs[j]
            } by {
                lemma_descends_below(old_objs, j, root.index as int);
            }
        }
        while i < len
            invariant
                len == old_objs.len(),
                self@.len() == len,
                root.index < i <= len,
                world_wf(old_objs),
                forall|j: int| 0 <= j < i ==> #[trigger] self@[j] == if descends(old_objs, j, root.index as int) {
                    None
                } else {
                    old_objs[j]
                },
                forall|j: int| i <= j < len ==> #[trigger] self@[j] == old_objs[j],
            decreases len - i,
        {
            let remove = match &self.objects[i] {
                Some(o) => match o.parent {
                    Some(p) => p.index < i && self.objects[p.index].is_none(),
                    None => false,
                },
                None => false,
            };
            proof {
                assert(slot_wf(old_objs, i as int));
                if old_objs[i as int] is Some {
                    if let Some(p) = old_objs[i as int]->Some_0.parent {
                        assert(self@[p.index as int] == if descends(old_objs, p.index as int, root.index as int) {
                            None
                        } else {
                            old_objs[p.index as int]
                        });
                    }
                }
            }
            if remove {
                self.objects.set(i, None);
            }
            i = i + 1;
        }
        assert forall|j: int| 0 <= j < self@.len() implies #[trigger] slot_wf(self@, j) by {
            assert(slot_wf(old_objs, j));
            if self@[j] is Some {
                assert(self@[j] == old_objs[j]);
                if let Some(p) = old_objs[j]->Some_0.parent {
                    assert(self@[p.index as int] == if descends(old_objs, p.index as int, root.index as int) {
                        None
                    } else {
                        old_objs[p.index as int]
                    });
                }
            }
        }
    }

    /// Attaches a stable identifier to the live object `e`.
    pub(crate) fn insert_save_id(&mut self, e: Entity, id: SaveId) -> (r: bool)
        requires
            old(self).wf(),
            !save_id_taken(old(self)@, id, e.index as int),
        ensures
            final(self).wf(),
            r == is_live(old(self)@, e),
            r ==> final(self)@ == old(self)@.update(
                e.index as int,
                Some(Object { save_id: Some(id), ..object(old(self)@, e) }),
            ),
            !r ==> final(self)@ == old(self)@,
    {
        if !self.is_alive(e) {
            return false;
        }
        let ghost before = self@;
        proof {
            assert(slot_wf(before, e.index as int));
        }
        let mut o = self.take(e);
        o.save_id = Some(id);
        self.put_back(e, o, Ghost(before));
        true
    }

    /// Attaches the map component to the live object `e`.
    pub fn insert_map(&mut self, e: Entity, map: HexMap) -> (r: bool)
        requires
            old(self).wf(),
        ensures
            final(self).wf(),
            r == is_live(old(self)@, e),
            r ==> final(self)@ == old(self)@.update(
                e.index as int,
                Some(Object { map: Some(map), ..object(old(self)@, e) }),
            ),
            !r ==> final(self)@ == old(self)@,
    {
        if !self.is_alive(e) {
            return false;
        }
        let ghost before = self@;
        proof {
            assert(slot_wf(before, e.index as int));
        }
        let mut o = self.take(e);
        o.map = Some(map);
        self.put_back(e, o, Ghost(before));
        true
    }

    /// Attaches a name to the live object `e`.
    pub fn insert_name(&mut self, e: Entity, name: String) -> (r: bool)
        requires
            old(self).wf(),
        ensures
            final(self).wf(),
            r == is_live(old(self)@, e),
            r ==> final(self)@ == old(self)@.update(
                e.index as int,
                Some(Object { name: Some(name), ..object(old(self)@, e) }),
            ),
            !r ==> final(self)@ == old(self)@,
    {
        if !self.is_alive(e) {
            return false;
        }
        let ghost before = self@;
        proof {
            assert(slot_wf(before, e.index as int));
        }
        let mut o = self.take(e);
        o.name = Some(name);
        self.put_back(e, o, Ghost(before));
        true
    }

    /// Attaches a tileset component to the live object `e`.
    pub fn insert_tileset(&mut self, e: Entity, tileset: TileSet) -> (r: bool)
        requires
            old(self).wf(),
            tileset.wf(),
        ensures
            final(self).wf(),
            r == is_live(old(self)@, e),
            r ==> final(self)@ == old(self)@.update(
                e.index as int,
                Some(Object { tileset: Some(tileset), ..object(old(self)@, e) }),
            ),
            !r ==> final(self)@ == old(self)@,
    {
        if !self.is_alive(e) {
            return false;
        }
        let ghost before = self@;
        proof {
            assert(slot_wf(before, e.index as int));
        }
        let mut o = self.take(e);
        o.tileset = Some(tileset);
        self.put_back(e, o, Ghost(before));
        true
    }

    /// Puts an object back into the slot that `take` emptied.
    fn put_back(&mut self, e: Entity, o: Object, Ghost(before): Ghost<Seq<Option<Object>>>)
        requires
            e.index < old(self)@.len(),
            old(self)@ == before.update(e.index as int, None),
            is_live(before, e),
            o.parent == object(before, e).parent,
            o.tileset matches Some(ts) ==> ts.wf(),
            o.save_id == object(before, e).save_id || (o.save_id matches Some(id) && !save_id_taken(
                before,
                id,
                e.index as int,
            )),
            world_wf(before),
        ensures
            final(self).wf(),
            final(self)@ == before.update(e.index as int, Some(o)),
    {
        self.objects.set(e.index, Some(o));
        assert forall|i: int| 0 <= i < self@.len() implies #[trigger] slot_wf(self@, i) by {
            assert(slot_wf(before, i));
        }
        assert forall|i: int, j: int|
            0 <= i < self@.len() && 0 <= j < self@.len() && i != j && #[trigger] self@[i] is Some
                && #[trigger] self@[j] is Some && self@[i]->Some_0.save_id is Some implies self@[i]->Some_0.save_id
            != self@[j]->Some_0.save_id by {
            assert(before[i] is Some && before[j] is Some);
            if i == e.index as int {
                if self@[i]->Some_0.save_id == self@[j]->Some_0.save_id && o.save_id != object(before, e).save_id {
                    assert(save_id_taken(before, o.save_id->Some_0, e.index as int));
                }
            } else if j == e.index as int {
                if self@[i]->Some_0.save_id == self@[j]->Some_0.save_id && o.save_id != object(before, e).save_id {
                    assert(save_id_taken(before, o.save_id->Some_0, e.index as int));
                }
            }
        }
    }
}

} // verus!

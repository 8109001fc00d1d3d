use std::collections::HashMap;
use vstd::prelude::*;

use crate::world::{despawned, is_live, object, Entity, World};

verus! {

broadcast use vstd::std_specs::hash::group_hash_axioms;

/// Identifier of a tile definition, unique within its tileset.
pub type TileId = usize;

/// A tile's local offset and orientation, stored as the IEEE-754 bit patterns
/// of its single-precision components; the library carries it unchanged.
#[derive(Clone, Copy, Debug)]
pub struct LocalTransform {
    pub translation: [u32; 3],
    pub rotation: [u32; 4],
    pub scale: [u32; 3],
}

/// No offset, no rotation, unit scale (`0x3f80_0000` is the bit pattern of 1.0).
pub open spec fn is_identity(t: LocalTransform) -> bool {
    &&& t.translation@ == seq![0u32, 0u32, 0u32]
    &&& t.rotation@ == seq![0u32, 0u32, 0u32, 0x3f80_0000u32]
    &&& t.scale@ == seq![0x3f80_0000u32, 0x3f80_0000u32, 0x3f80_0000u32]
}

impl LocalTransform {
    pub fn identity() -> (r: LocalTransform)
        ensures
            is_identity(r),
    {
        let one: u32 = 0x3f80_0000;
        let r = LocalTransform { translation: [0, 0, 0], rotation: [0, 0, 0, one], scale: [one, one, one] };
        assert(r.translation@ =~= seq![0u32, 0u32, 0u32]);
        assert(r.rotation@ =~= seq![0u32, 0u32, 0u32, 0x3f80_0000u32]);
        assert(r.scale@ =~= seq![0x3f80_0000u32, 0x3f80_0000u32, 0x3f80_0000u32]);
        r
    }
}

/// A tile definition: the durable part of what a tileset knows of one tile.
#[derive(Debug)]
pub struct Tile {
    pub id: TileId,
    pub name: String,
    pub path: String,
    pub transform: LocalTransform,
}

pub struct TileView {
    pub id: TileId,
    pub name: Seq<char>,
    pub path: Seq<char>,
    pub transform: LocalTransform,
}

impl View for Tile {
    type V = TileView;

    open spec fn view(&self) -> TileView {
        TileView { id: self.id, name: self.name@, path: self.path@, transform: self.transform }
    }
}

impl Clone for Tile {
    fn clone(&self) -> (r: Self)
        ensures
            r == *self,
    {
        Tile { id: self.id, name: self.name.clone(), path: self.path.clone(), transform: self.transform }
    }
}

pub open spec fn tile_views(tiles: Seq<Tile>) -> Seq<TileView> {
    tiles.map_values(|t: Tile| t@)
}

/// A named set of tile definitions with an explicit presentation order.
#[derive(Debug)]
pub struct TileSet {
    pub name: String,
    pub tiles: HashMap<TileId, Tile>,
    pub tile_order: Vec<TileId>,
    pub tile_id_max: TileId,
}

pub struct TileSetView {
    pub name: Seq<char>,
    pub tiles: Map<TileId, TileView>,
    pub order: Seq<TileId>,
}

impl View for TileSet {
    type V = TileSetView;

    open spec fn view(&self) -> TileSetView {
        TileSetView {
            name: self.name@,
            tiles: self.tiles@.map_values(|t: Tile| t@),
            order: self.tile_order@,
        }
    }
}

/// The order lists only defined tiles, lists every defined tile, and each
/// definition is stored under its own id.
pub open spec fn tileset_view_wf(v: TileSetView) -> bool {
    &&& forall|i: int| 0 <= i < v.order.len() ==> v.tiles.contains_key(#[trigger] v.order[i])
    &&& forall|k: TileId| #[trigger] v.tiles.contains_key(k) ==> v.order.contains(k)
    &&& forall|k: TileId| #[trigger] v.tiles.contains_key(k) ==> v.tiles[k].id == k
}

impl TileSet {
    /// The id that the next added tile receives.
    pub open spec fn next_tile_id(&self) -> TileId {
        self.tile_id_max
    }

    pub open spec fn wf(&self) -> bool {
        &&& tileset_view_wf(self@)
        &&& forall|k: TileId| #[trigger] self.tiles@.contains_key(k) ==> k < self.next_tile_id()
    }

    pub fn new(name: &str) -> (r: Self)
        ensures
            r.wf(),
            r@.name == name@,
            r@.tiles == Map::<TileId, TileView>::empty(),
            r@.order == Seq::<TileId>::empty(),
            r.next_tile_id() == 0,
    {
        let r = TileSet { name: name.to_owned(), tiles: HashMap::new(), tile_order: Vec::new(), tile_id_max: 0 };
        assert(r@.tiles =~= Map::<TileId, TileView>::empty());
        r
    }

    /// Adds a tile for the asset at `path`, named after the path's file stem,
    /// under the next unused id, at the end of the order. Nothing is added
    /// when the path names no file or every id is taken.
    pub fn add_title(&mut self, path: String) -> (r: Option<TileId>)
        requires
            old(self).wf(),
        ensures
            final(self).wf(),
            final(self)@.name == old(self)@.name,
            (r is Some) == (file_stem_of(path@) is Some && old(self).next_tile_id() < usize::MAX),
            r is None ==> final(self)@ == old(self)@ && final(self).next_tile_id() == old(self).next_tile_id(),
            r matches Some(id) ==> {
                &&& id == old(self).next_tile_id()
                &&& final(self).next_tile_id() == id + 1
                &&& final(self)@.order == old(self)@.order.push(id)
                &&& final(self)@.tiles == old(self)@.tiles.insert(id, final(self)@.tiles[id])
                &&& final(self)@.tiles[id].id == id
                &&& final(self)@.tiles[id].name == file_stem_of(path@)->Some_0
                &&& final(self)@.tiles[id].path == path@
                &&& is_identity(final(self)@.tiles[id].transform)
            },
    {
        if self.tile_id_max == usize::MAX {
            return None;
        }
        let name = match file_stem(&path) {
            Some(n) => n,
            None => {
                return None;
            },
        };
        let id = self.tile_id_max;
        let tile = Tile { id, name, path, transform: LocalTransform::identity() };
        let ghost old_order = self.tile_order@;
        self.tile_order.push(id);
        self.tiles.insert(id, tile);
        self.tile_id_max = id + 1;
        assert(self@.tiles =~= old(self)@.tiles.insert(id, tile@));
        assert forall|i: int| 0 <= i < self@.order.len() implies self@.tiles.contains_key(#[trigger] self@.order[i]) by {
            if i < old_order.len() {
                assert(self@.order[i] == old_order[i]);
                assert(old(self)@.order[i] == old_order[i]);
                assert(old(self)@.tiles.contains_key(old(self)@.order[i]));
            }
        }
        assert forall|k: TileId| #[trigger] self@.tiles.contains_key(k) implies self@.order.contains(k) by {
            if k == id {
                assert(self@.order[old_order.len() as int] == id);
            } else {
                let j = choose|j: int| 0 <= j < old_order.len() && old_order[j] == k;
                assert(self@.order[j] == k);
            }
        }
        Some(id)
    }
}

impl Clone for TileSet {
    fn clone(&self) -> (r: Self)
        ensures
            r@ == self@,
            r.next_tile_id() == self.next_tile_id(),
            r.tiles@ == self.tiles@,
    {
        let tile_order = self.tile_order.clone();
        assert(tile_order@ =~= self.tile_order@);
        TileSet {
            name: self.name.clone(),
            tiles: self.tiles.clone(),
            tile_order,
            tile_id_max: self.tile_id_max,
        }
    }
}

/// The tileset document format version that is written and accepted.
pub const TILESET_VERSION: u64 = 1;

/// A value in a tileset document.
#[derive(Debug)]
pub enum FieldValue {
    Integer(u64),
    Text(String),
    Tiles(Vec<Tile>),
}

/// One key-value entry of a tileset document, in document order.
#[derive(Debug)]
pub struct Field {
    pub key: String,
    pub value: FieldValue,
}

/// A tileset document: its entries in the order they appear.
#[derive(Debug)]
pub struct TilesetDocument {
    pub fields: Vec<Field>,
}

pub enum FieldValueView {
    Integer(u64),
    Text(Seq<char>),
    Tiles(Seq<TileView>),
}

pub struct FieldView {
    pub key: Seq<char>,
    pub value: FieldValueView,
}

impl View for FieldValue {
    type V = FieldValueView;

    open spec fn view(&self) -> FieldValueView {
        match self {
            FieldValue::Integer(v) => FieldValueView::Integer(*v),
            FieldValue::Text(t) => FieldValueView::Text(t@),
            FieldValue::Tiles(ts) => FieldValueView::Tiles(tile_views(ts@)),
        }
    }
}

impl View for Field {
    type V = FieldView;

    open spec fn view(&self) -> FieldView {
        FieldView { key: self.key@, value: self.value@ }
    }
}

impl View for TilesetDocument {
    type V = Seq<FieldView>;

    open spec fn view(&self) -> Seq<FieldView> {
        self.fields@.map_values(|f: Field| f@)
    }
}

/// The keys of a tileset document, in the one order in which they are accepted.
#[derive(Clone, Copy, Debug, PartialEq, Eq, Structural)]
pub enum TilesetKey {
    Version,
    Name,
    Tiles,
}

/// Why a tileset document was rejected.
#[derive(Clone, Copy, Debug, PartialEq, Eq, Structural)]
pub enum SchemaError {
    /// The entry at this key's position is missing or has another key.
    ExpectedKey(TilesetKey),
    /// The value under this key has the wrong type.
    WrongType(TilesetKey),
    /// The version is not the one supported.
    UnsupportedVersion(u64),
    /// An entry follows the tiles.
    UnexpectedKey,
    /// A tile carries the largest id, which leaves no id for the next tile.
    TileIdOutOfRange,
}

/// The tiles in presentation order.
pub open spec fn ordered_tiles(ts: TileSetView) -> Seq<TileView> {
    ts.order.map_values(|id: TileId| ts.tiles[id])
}

/// The document of a tileset: version, name, then its tiles in presentation order.
pub open spec fn tileset_document(ts: TileSetView) -> Seq<FieldView> {
    seq![
        FieldView { key: "version"@, value: FieldValueView::Integer(TILESET_VERSION) },
        FieldView { key: "name"@, value: FieldValueView::Text(ts.name) },
        FieldView { key: "tiles"@, value: FieldValueView::Tiles(ordered_tiles(ts)) },
    ]
}

pub open spec fn is_text(v: FieldValueView) -> bool {
    v is Text
}

pub open spec fn is_tiles(v: FieldValueView) -> bool {
    v is Tiles
}

/// The first violation of the tileset schema in a document, if any.
pub open spec fn tileset_document_error(d: Seq<FieldView>) -> Option<SchemaError> {
    if d.len() < 1 || d[0].key != "version"@ {
        Some(SchemaError::ExpectedKey(TilesetKey::Version))
    } else if !(d[0].value is Integer) {
        Some(SchemaError::WrongType(TilesetKey::Version))
    } else if d[0].value->Integer_0 != TILESET_VERSION {
        Some(SchemaError::UnsupportedVersion(d[0].value->Integer_0))
    } else if d.len() < 2 || d[1].key != "name"@ {
        Some(SchemaError::ExpectedKey(TilesetKey::Name))
    } else if !is_text(d[1].value) {
        Some(SchemaError::WrongType(TilesetKey::Name))
    } else if d.len() < 3 || d[2].key != "tiles"@ {
        Some(SchemaError::ExpectedKey(TilesetKey::Tiles))
    } else if !is_tiles(d[2].value) {
        Some(SchemaError::WrongType(TilesetKey::Tiles))
    } else if d.len() > 3 {
        Some(SchemaError::UnexpectedKey)
    } else if exists|i: int|
        0 <= i < d[2].value->Tiles_0.len() && #[trigger] d[2].value->Tiles_0[i].id == usize::MAX {
        Some(SchemaError::TileIdOutOfRange)
    } else {
        None
    }
}

/// Tile definitions keyed by id, inserted in list order: a later tile
/// replaces an earlier one with the same id.
pub open spec fn tiles_by_id(s: Seq<TileView>) -> Map<TileId, TileView>
    decreases s.len(),
{
    if s.len() == 0 {
        Map::empty()
    } else {
        tiles_by_id(s.drop_last()).insert(s.last().id, s.last())
    }
}

/// The tileset read from a name and a list of tiles: the order is the list order.
pub open spec fn decoded_tileset(name: Seq<char>, tiles: Seq<TileView>) -> TileSetView {
    TileSetView { name, tiles: tiles_by_id(tiles), order: tiles.map_values(|t: TileView| t.id) }
}

/// The tileset that a document that meets the schema describes.
pub open spec fn tileset_of_document(d: Seq<FieldView>) -> TileSetView {
    decoded_tileset(d[1].value->Text_0, d[2].value->Tiles_0)
}

fn key_is(key: &String, expected: &str) -> (r: bool)
    ensures
        r == (key@ == expected@),
{
    let e = expected.to_owned();
    key.eq(&e)
}

impl TileSet {
    /// Writes the tileset as a document: version, name, and the tile
    /// definitions listed in presentation order.
    pub fn serialize(&self) -> (r: TilesetDocument)
        requires
            self.wf(),
        ensures
            r@ == tileset_document(self@),
    {
        let mut tiles: Vec<Tile> = Vec::new();
        let mut i: usize = 0;
        while i < self.tile_order.len()
            invariant
                self.wf(),
                i <= self.tile_order.len(),
                tile_views(tiles@) == ordered_tiles(self@).take(i as int),
            decreases self.tile_order.len() - i,
        {
            let id = self.tile_order[i];
            assert(self@.tiles.contains_key(self@.order[i as int]));
            assert(self.tiles@.contains_key(id));
            match self.tiles.get(&id) {
                Some(t) => {
                    assert(self.tiles@[id] == *t);
                    assert(ordered_tiles(self@)[i as int] == t@);
                    let c = t.clone();
                    tiles.push(c);
                    assert(tile_views(tiles@).last() == t@);
                    assert(tile_views(tiles@).drop_last() =~= ordered_tiles(self@).take(i as int));
                },
                None => {},
            }
            assert(tile_views(tiles@) =~= ordered_tiles(self@).take(i + 1));
            i = i + 1;
        }
        assert(tile_views(tiles@) =~= ordered_tiles(self@));
        let mut fields: Vec<Field> = Vec::new();
        fields.push(Field { key: "version".to_owned(), value: FieldValue::Integer(TILESET_VERSION) });
        fields.push(Field { key: "name".to_owned(), value: FieldValue::Text(self.name.clone()) });
        fields.push(Field { key: "tiles".to_owned(), value: FieldValue::Tiles(tiles) });
        let r = TilesetDocument { fields };
        assert(r@ =~= tileset_document(self@));
        r
    }

    /// Reads a tileset document under the strict schema: exactly the keys
    /// `version`, `name` and `tiles`, in that order, with the supported
    /// version. The presentation order is the order of the listed tiles.
    pub fn deserialize(doc: &TilesetDocument) -> (r: Result<TileSet, SchemaError>)
        ensures
            match r {
                Ok(ts) => {
                    &&& tileset_document_error(doc@) is None
                    &&& ts.wf()
                    &&& ts@ == tileset_of_document(doc@)
                },
                Err(e) => tileset_document_error(doc@) == Some(e),
            },
    {
        let fields = &doc.fields;
        let ghost d = doc@;
        if fields.len() < 1 || !key_is(&fields[0].key, "version") {
            return Err(SchemaError::ExpectedKey(TilesetKey::Version));
        }
        assert(d[0] == fields@[0]@);
        let version = match &fields[0].value {
            FieldValue::Integer(v) => *v,
            _ => {
                return Err(SchemaError::WrongType(TilesetKey::Version));
            },
        };
        if version != TILESET_VERSION {
            return Err(SchemaError::UnsupportedVersion(version));
        }
        if fields.len() < 2 || !key_is(&fields[1].key, "name") {
            return Err(SchemaError::ExpectedKey(TilesetKey::Name));
        }
        assert(d[1] == fields@[1]@);
        let name = match &fields[1].value {
            FieldValue::Text(t) => t,
            _ => {
                return Err(SchemaError::WrongType(TilesetKey::Name));
            },
        };
        if fields.len() < 3 || !key_is(&fields[2].key, "tiles") {
            return Err(SchemaError::ExpectedKey(TilesetKey::Tiles));
        }
        assert(d[2] == fields@[2]@);
        let list = match &fields[2].value {
            FieldValue::Tiles(ts) => ts,
            _ => {
                return Err(SchemaError::WrongType(TilesetKey::Tiles));
            },
        };
        if fields.len() > 3 {
            return Err(SchemaError::UnexpectedKey);
        }
        let ghost lv = tile_views(list@);
        assert(d[2].value == FieldValueView::Tiles(lv));
        let mut tileset = TileSet::new(name.as_str());
        let mut i: usize = 0;
        while i < list.len()
            invariant
                i <= list.len(),
                lv == tile_views(list@),
                d == doc@,
                d.len() == 3,
                d[0].key == "version"@,
                d[0].value == FieldValueView::Integer(TILESET_VERSION),
                d[1].key == "name"@,
                d[1].value == FieldValueView::Text(name@),
                d[2].key == "tiles"@,
                d[2].value == FieldValueView::Tiles(lv),
                tileset@.name == name@,
                tileset@.tiles == tiles_by_id(lv.take(i as int)),
                tileset@.order == lv.take(i as int).map_values(|t: TileView| t.id),
                tileset_view_wf(tileset@),
                forall|j: int| 0 <= j < i ==> #[trigger] lv[j].id != usize::MAX,
                forall|k: TileId| #[trigger] tileset.tiles@.contains_key(k) ==> k < tileset.tile_id_max,
            decreases list.len() - i,
        {
            let tile = list[i].clone();
            let id = tile.id;
            if id == usize::MAX {
                assert(d[2].value->Tiles_0 == lv);
                assert(d[2].value->Tiles_0[i as int].id == usize::MAX);
                return Err(SchemaError::TileIdOutOfRange);
            }
            let ghost before = tileset@;
            tileset.tile_order.push(id);
            tileset.tiles.insert(id, tile);
            if tileset.tile_id_max <= id {
                tileset.tile_id_max = id + 1;
            }
            assert(lv.take(i + 1).drop_last() =~= lv.take(i as int));
            assert(tileset@.tiles =~= before.tiles.insert(id, lv[i as int]));
            assert(tileset@.order =~= lv.take(i + 1).map_values(|t: TileView| t.id));
            assert forall|j: int| 0 <= j < tileset@.order.len() implies tileset@.tiles.contains_key(
                #[trigger] tileset@.order[j],
            ) by {
                if j < i {
                    assert(tileset@.order[j] == before.order[j]);
                    assert(before.tiles.contains_key(before.order[j]));
                }
            }
            assert forall|k: TileId| #[trigger] tileset@.tiles.contains_key(k) implies tileset@.order.contains(k) by {
                if k == id {
                    assert(tileset@.order[i as int] == id);
                } else {
                    assert(before.tiles.contains_key(k));
                    let j = choose|j: int| 0 <= j < before.order.len() && before.order[j] == k;
                    assert(tileset@.order[j] == k);
                }
            }
            i = i + 1;
        }
        assert(lv.take(lv.len() as int) =~= lv);
        Ok(tileset)
    }
}

/// Every tile listed in presentation order is keyed by its own id, so
/// inserting them in that order rebuilds the listed part of the mapping.
proof fn lemma_tiles_by_id_of_order(tiles: Map<TileId, TileView>, ids: Seq<TileId>)
    requires
        forall|i: int| 0 <= i < ids.len() ==> tiles.contains_key(#[trigger] ids[i]),
        forall|k: TileId| #[trigger] tiles.contains_key(k) ==> tiles[k].id == k,
    ensures
        tiles_by_id(ids.map_values(|id: TileId| tiles[id])) == tiles.restrict(ids.to_set()),
    decreases ids.len(),
{
    let s = ids.map_values(|id: TileId| tiles[id]);
    if ids.len() == 0 {
        assert(tiles.restrict(ids.to_set()) =~= Map::empty());
    } else {
        let front = ids.drop_last();
        assert(s.drop_last() =~= front.map_values(|id: TileId| tiles[id]));
        assert forall|i: int| 0 <= i < front.len() implies tiles.contains_key(#[trigger] front[i]) by {
            assert(front[i] == ids[i]);
        }
        lemma_tiles_by_id_of_order(tiles, front);
        assert(tiles.contains_key(ids[ids.len() - 1]));
        assert forall|k: TileId| ids.to_set().contains(k) <==> (front.to_set().contains(k) || k == ids.last()) by {
            if ids.to_set().contains(k) && k != ids.last() {
                let j = choose|j: int| 0 <= j < ids.len() && ids[j] == k;
                assert(front[j] == k);
            }
            if front.to_set().contains(k) {
                let j = choose|j: int| 0 <= j < front.len() && front[j] == k;
                assert(ids[j] == k);
            }
        }
        assert(tiles_by_id(s) =~= tiles.restrict(ids.to_set()));
    }
}

/// Writing a well-formed tileset and reading the document back meets the
/// schema and gives the same name, tile definitions and presentation order,
/// whatever order the id-to-definition mapping is walked in.
pub proof fn lemma_tileset_round_trip(ts: TileSet)
    requires
        ts.wf(),
    ensures
        tileset_document_error(tileset_document(ts@)) is None,
        tileset_of_document(tileset_document(ts@)) == ts@,
{
    let v = ts@;
    let d = tileset_document(v);
    reveal_strlit("version");
    reveal_strlit("name");
    reveal_strlit("tiles");
    let listed = ordered_tiles(v);
    assert forall|i: int| 0 <= i < listed.len() implies #[trigger] listed[i].id != usize::MAX by {
        assert(v.tiles.contains_key(v.order[i]));
        assert(ts.tiles@.contains_key(v.order[i]));
    }
    lemma_tiles_by_id_of_order(v.tiles, v.order);
    assert(v.tiles.restrict(v.order.to_set()) =~= v.tiles);
    assert(listed.map_values(|t: TileView| t.id) =~= v.order);
}

/// The file stem of a path: its last component without the extension, if the
/// path names a file.
pub uninterp spec fn file_stem_of(path: Seq<char>) -> Option<Seq<char>>;

/// Relies on `std::path::Path::file_stem`, under the path syntax of the
/// target the library is built for; the stem of a path given as UTF-8 text is
/// itself UTF-8, so the lossy conversion keeps it as it is.
#[verifier::external_body]
pub(crate) fn file_stem(path: &String) -> (r: Option<String>)
    ensures
        (r is Some) == (file_stem_of(path@) is Some),
        r matches Some(s) ==> file_stem_of(path@) == Some(s@),
{
    match std::path::Path::new(path).file_stem() {
        Some(stem) => Some(stem.to_string_lossy().into_owned()),
        None => None,
    }
}

/// A placed tile's reference to its definition: the live tileset object and
/// the tile's id within it.
#[derive(Clone, Copy, Debug, PartialEq, Eq, Structural, Hash)]
pub struct TileRef {
    pub tileset: Entity,
    pub tile: TileId,
}

/// A placed tile's orientation.
#[derive(Clone, Copy, Debug, Default, PartialEq, Eq, Structural)]
pub struct TileTransform {
    pub rotation: TileRotation,
}

/// Whether a tile reference names a live tileset object that defines the tile.
pub open spec fn resolves(objs: Seq<Option<crate::world::Object>>, r: TileRef) -> bool {
    &&& is_live(objs, r.tileset)
    &&& object(objs, r.tileset).tileset is Some
    &&& object(objs, r.tileset).tileset->Some_0.tiles@.contains_key(r.tile)
}

impl World {
    /// The definition that a tile reference names, if it resolves.
    pub fn resolve_tile(&self, r: TileRef) -> (t: Option<&Tile>)
        ensures
            match t {
                Some(t) => resolves(self@, r) && *t == object(self@, r.tileset).tileset->Some_0.tiles@[r.tile],
                None => !resolves(self@, r),
            },
    {
        let o = match self.get(r.tileset) {
            Some(o) => o,
            None => {
                return None;
            },
        };
        match &o.tileset {
            Some(ts) => ts.tiles.get(&r.tile),
            None => None,
        }
    }

    /// Removes the tile instance `e`, with everything below it, when its tile
    /// reference no longer resolves. Returns whether it was removed.
    pub fn drop_unresolved_tile(&mut self, e: Entity) -> (r: bool)
        requires
            old(self).wf(),
        ensures
            final(self).wf(),
            r == (is_live(old(self)@, e) && object(old(self)@, e).tile_ref is Some && !resolves(
                old(self)@,
                object(old(self)@, e).tile_ref->Some_0,
            )),
            r ==> despawned(old(self)@, e, final(self)@),
            !r ==> final(self)@ == old(self)@,
    {
        let tile_ref = match self.get(e) {
            Some(o) => match o.tile_ref {
                Some(tr) => tr,
                None => {
                    return false;
                },
            },
            None => {
                return false;
            },
        };
        if self.resolve_tile(tile_ref).is_some() {
            return false;
        }
        self.despawn(e);
        true
    }
}

/// One of six orientations of a placed tile, 60 degrees apart.
#[derive(Clone, Copy, Debug, Default, PartialEq, Eq, Structural)]
pub enum TileRotation {
    #[default]
    Unrotated,
    Clockwise60,
    Clockwise120,
    Clockwise180,
    CounterClockwise120,
    CounterClockwise60,
}

/// Number of clockwise 60-degree steps from the unrotated orientation.
pub open spec fn rotation_steps(r: TileRotation) -> int {
    match r {
        TileRotation::Unrotated => 0,
        TileRotation::Clockwise60 => 1,
        TileRotation::Clockwise120 => 2,
        TileRotation::Clockwise180 => 3,
        TileRotation::CounterClockwise120 => 4,
        TileRotation::CounterClockwise60 => 5,
    }
}

impl TileRotation {
    /// The orientation one 60-degree step clockwise of this one.
    pub fn clockwise(self) -> (r: Self)
        ensures
            rotation_steps(r) == (rotation_steps(self) + 1) % 6,
    {
        match self {
            TileRotation::Unrotated => TileRotation::Clockwise60,
            TileRotation::Clockwise60 => TileRotation::Clockwise120,
            TileRotation::Clockwise120 => TileRotation::Clockwise180,
            TileRotation::Clockwise180 => TileRotation::CounterClockwise120,
            TileRotation::CounterClockwise120 => TileRotation::CounterClockwise60,
            TileRotation::CounterClockwise60 => TileRotation::Unrotated,
        }
    }

    /// The orientation one 60-degree step counter-clockwise of this one.
    pub fn counter_clockwise(self) -> (r: Self)
        ensures
            rotation_steps(r) == (rotation_steps(self) + 5) % 6,
    {
        match self {
            TileRotation::Unrotated => TileRotation::CounterClockwise60,
            TileRotation::CounterClockwise60 => TileRotation::CounterClockwise120,
            TileRotation::CounterClockwise120 => TileRotation::Clockwise180,
            TileRotation::Clockwise180 => TileRotation::Clockwise120,
            TileRotation::Clockwise120 => TileRotation::Clockwise60,
            TileRotation::Clockwise60 => TileRotation::Unrotated,
        }
    }
}

} // verus!

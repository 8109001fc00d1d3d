//! What happens when a background import finishes. Reading and decoding a
//! file run elsewhere; these functions take what came back and change the
//! object graph accordingly, once per finished task.

use vstd::prelude::*;

use crate::map_format::{loadable, loaded, MapError, MapFormat};
use crate::tileset::{file_stem, file_stem_of, TileSet};
use crate::world::{despawned, is_live, object, Entity, Object, World};

verus! {

/// Why a finished map import left nothing behind.
#[derive(Clone, Copy, Debug, PartialEq, Eq, Structural)]
pub enum ImportFailure {
    /// The file could not be read or decoded.
    Unreadable,
    /// The document was rejected by the loader.
    Rejected(MapError),
}

/// The name given to an imported object: `prefix` and the file stem of the
/// path, or the whole path when it names no file.
pub open spec fn import_name(prefix: Seq<char>, path: Seq<char>) -> Seq<char> {
    match file_stem_of(path) {
        Some(stem) => prefix + stem,
        None => prefix + path,
    }
}

fn import_label(prefix: &str, path: &String) -> (r: String)
    ensures
        r@ == import_name(prefix@, path@),
{
    let mut r = prefix.to_owned();
    match file_stem(path) {
        Some(stem) => r.append(stem.as_str()),
        None => r.append(path.as_str()),
    }
    r
}

/// Finishes a map import into `placeholder`. With a decoded document that
/// the loader accepts, the map is loaded into the placeholder, which is named
/// `map: ` and the file stem; otherwise the placeholder and everything below
/// it are removed.
pub fn map_import_finished(
    world: &mut World,
    placeholder: Entity,
    path: &String,
    decoded: Option<MapFormat>,
) -> (r: Result<(), ImportFailure>)
    requires
        old(world).wf(),
        decoded matches Some(doc) ==> doc.wf() && old(world)@.len() + doc.spawn_count() < usize::MAX,
    ensures
        final(world).wf(),
        match decoded {
            None => r matches Err(ImportFailure::Unreadable) && despawned(
                old(world)@,
                placeholder,
                final(world)@,
            ),
            Some(doc) => {
                &&& (r is Ok) == loadable(old(world)@, doc, placeholder)
                &&& r is Err ==> r->Err_0 is Rejected && despawned(old(world)@, placeholder, final(world)@)
                &&& r is Ok ==> {
                    let mid = final(world)@.update(
                        placeholder.index as int,
                        Some(Object { name: object(old(world)@, placeholder).name, ..object(final(world)@, placeholder) }),
                    );
                    &&& loaded(old(world)@, doc, placeholder, mid)
                    &&& object(final(world)@, placeholder).name matches Some(n) && n@ == import_name(
                        "map: "@,
                        path@,
                    )
                }
            },
        },
{
    let doc = match decoded {
        Some(doc) => doc,
        None => {
            world.despawn(placeholder);
            return Err(ImportFailure::Unreadable);
        },
    };
    match doc.try_spawn(world, placeholder) {
        Ok(()) => {},
        Err(e) => {
            world.despawn(placeholder);
            return Err(ImportFailure::Rejected(e));
        },
    }
    let ghost mid = world@;
    let label = import_label("map: ", path);
    let ghost label_v = label;
    assert(is_live(mid, placeholder));
    world.insert_name(placeholder, label);
    proof {
        assert(world@[placeholder.index as int] == Some(Object { name: Some(label_v), ..object(mid, placeholder) }));
        assert(object(world@, placeholder) == Object { name: Some(label_v), ..object(mid, placeholder) });
        assert(mid[placeholder.index as int] is Some);
        assert(object(mid, placeholder).name == object(old(world)@, placeholder).name);
        assert(world@.update(
            placeholder.index as int,
            Some(Object { name: object(old(world)@, placeholder).name, ..object(world@, placeholder) }),
        ) =~= mid);
    }
    Ok(())
}

/// Finishes a tileset import into `placeholder`: a decoded tileset is
/// attached to it, named `tileset: ` and the file stem; without one the
/// placeholder and everything below it are removed. Returns whether the
/// tileset was attached; nothing changes when the placeholder is gone.
pub fn tileset_import_finished(
    world: &mut World,
    placeholder: Entity,
    path: &String,
    decoded: Option<TileSet>,
) -> (r: bool)
    requires
        old(world).wf(),
        decoded matches Some(ts) ==> ts.wf(),
    ensures
        final(world).wf(),
        decoded is None ==> !r && despawned(old(world)@, placeholder, final(world)@),
        decoded is Some ==> r == is_live(old(world)@, placeholder),
        decoded is Some && !r ==> final(world)@ == old(world)@,
        r ==> {
            &&& final(world)@.len() == old(world)@.len()
            &&& forall|i: int|
                0 <= i < old(world)@.len() && i != placeholder.index ==> #[trigger] final(world)@[i] == old(world)@[i]
            &&& final(world)@[placeholder.index as int] == Some(
                Object {
                    name: object(final(world)@, placeholder).name,
                    tileset: decoded,
                    ..object(old(world)@, placeholder)
                },
            )
            &&& object(final(world)@, placeholder).name matches Some(n) && n@ == import_name("tileset: "@, path@)
        },
{
    let tileset = match decoded {
        Some(ts) => ts,
        None => {
            world.despawn(placeholder);
            return false;
        },
    };
    if !world.is_alive(placeholder) {
        return false;
    }
    let label = import_label("tileset: ", path);
    world.insert_name(placeholder, label);
    world.insert_tileset(placeholder, tileset);
    true
}

} // verus!

use vstd::prelude::*;

use crate::world::{
    is_live, object, same_but_save_ids, save_id_taken, Entity, Object, World,
};

verus! {

/// Durable identifier of a tileset within the saved documents of a session.
#[derive(Clone, Copy, Debug, Default, PartialEq, Eq, Structural, Hash, PartialOrd, Ord)]
pub struct SaveId(pub u64);

/// The identifier that follows every attached one: one more than the
/// largest attached identifier, or zero when none is attached.
pub open spec fn next_save_id(objs: Seq<Option<Object>>) -> int
    decreases objs.len(),
{
    if objs.len() == 0 {
        0
    } else {
        let prev = next_save_id(objs.drop_last());
        match objs.last() {
            Some(o) => match o.save_id {
                Some(id) => if id.0 + 1 > prev {
                    id.0 + 1
                } else {
                    prev
                },
                None => prev,
            },
            None => prev,
        }
    }
}

/// Every attached identifier lies below `next_save_id`, and unless it is
/// zero, the one just below it is attached.
proof fn lemma_next_save_id(objs: Seq<Option<Object>>)
    ensures
        0 <= next_save_id(objs) <= u64::MAX + 1,
        forall|i: int|
            0 <= i < objs.len() && #[trigger] objs[i] is Some && objs[i]->Some_0.save_id is Some
                ==> objs[i]->Some_0.save_id->Some_0.0 < next_save_id(objs),
        next_save_id(objs) == 0 || exists|i: int|
            0 <= i < objs.len() && #[trigger] objs[i] is Some && objs[i]->Some_0.save_id
                == Some(SaveId((next_save_id(objs) - 1) as u64)),
    decreases objs.len(),
{
    if objs.len() > 0 {
        let front = objs.drop_last();
        lemma_next_save_id(front);
        assert forall|i: int|
            0 <= i < objs.len() && #[trigger] objs[i] is Some && objs[i]->Some_0.save_id is Some
                implies objs[i]->Some_0.save_id->Some_0.0 < next_save_id(objs) by {
            if i < front.len() {
                assert(front[i] == objs[i]);
            }
        }
        if next_save_id(objs) != 0 {
            if next_save_id(objs) == next_save_id(front) {
                let i = choose|i: int|
                    0 <= i < front.len() && #[trigger] front[i] is Some && front[i]->Some_0.save_id
                        == Some(SaveId((next_save_id(front) - 1) as u64));
                assert(objs[i] == front[i]);
            } else {
                assert(objs[objs.len() - 1] is Some);
            }
        }
    }
}

/// Whether `ents[k]` is the first occurrence of that entity in `ents`.
pub open spec fn first_occurrence(ents: Seq<Entity>, k: int) -> bool {
    forall|j: int| 0 <= j < k ==> ents[j] != ents[k]
}

/// Whether assignment attaches a new identifier at position `k`.
pub open spec fn needs_id(objs: Seq<Option<Object>>, ents: Seq<Entity>, k: int) -> bool {
    object(objs, ents[k]).save_id is None && first_occurrence(ents, k)
}

/// How many new identifiers assignment attaches before position `k`.
pub open spec fn fresh_before(objs: Seq<Option<Object>>, ents: Seq<Entity>, k: int) -> int
    decreases k,
{
    if k <= 0 {
        0
    } else {
        fresh_before(objs, ents, k - 1) + if needs_id(objs, ents, k - 1) {
            1int
        } else {
            0int
        }
    }
}

/// The identifier that `ents[k]` holds after assignment: the one it had, or
/// the next unused one in order of first appearance.
pub open spec fn assigned_id(objs: Seq<Option<Object>>, ents: Seq<Entity>, k: int) -> SaveId {
    match object(objs, ents[k]).save_id {
        Some(id) => id,
        None => SaveId((next_save_id(objs) + fresh_before(objs, ents, k)) as u64),
    }
}

#[verifier::opaque]
/// `after` is `before` once identifiers are attached to the first `n`
/// entities of `ents`, all of them live: an entity that had an identifier
/// keeps it, the others receive consecutive identifiers from
/// `next_save_id(before)` on, in order of first appearance; nothing else
/// changes.
pub open spec fn assigned(
    before: Seq<Option<Object>>,
    ents: Seq<Entity>,
    n: int,
    after: Seq<Option<Object>>,
) -> bool {
    &&& 0 <= n <= ents.len()
    &&& after.len() == before.len()
    &&& forall|k: int| 0 <= k < n ==> is_live(before, #[trigger] ents[k])
    &&& forall|i: int|
        0 <= i < before.len() && (forall|k: int| 0 <= k < n ==> (#[trigger] ents[k]).index != i)
            ==> #[trigger] after[i] == before[i]
    &&& forall|k: int|
        0 <= k < n && (object(before, ents[k]).save_id is Some || first_occurrence(ents, k))
            ==> #[trigger] after[ents[k].index as int] == Some(
            Object { save_id: Some(assigned_id(before, ents, k)), ..object(before, ents[k]) },
        )
}

/// Every identifier attached in `objs` lies below `bound`.
#[verifier::opaque]
pub open spec fn ids_below(objs: Seq<Option<Object>>, bound: int) -> bool {
    forall|j: int|
        0 <= j < objs.len() && #[trigger] objs[j] is Some && objs[j]->Some_0.save_id is Some
            ==> objs[j]->Some_0.save_id->Some_0.0 < bound
}

/// Whether the first `i` entities are live in `objs` and carry identifiers.
pub open spec fn processed(objs: Seq<Option<Object>>, ents: Seq<Entity>, i: int) -> bool {
    &&& forall|k: int| 0 <= k < i ==> is_live(objs, #[trigger] ents[k])
    &&& forall|k: int| 0 <= k < i ==> #[trigger] object(objs, ents[k]).save_id is Some
}

/// Why identifiers could not be attached.
#[derive(Clone, Copy, Debug, PartialEq, Eq, Structural)]
pub enum AssignError {
    /// The entity is not live.
    UnknownEntity(Entity),
    /// Every identifier up to the largest is taken.
    IdsExhausted,
}

impl World {
    /// The identifier after every attached one, or `None` when the largest
    /// possible identifier is attached.
    pub fn save_id_next(&self) -> (r: Option<SaveId>)
        requires
            self.wf(),
        ensures
            (r is Some) == (next_save_id(self@) <= u64::MAX),
            r matches Some(id) ==> id.0 == next_save_id(self@),
    {
        let mut next: u64 = 0;
        let mut full = false;
        let mut i: usize = 0;
        let len = self.len();
        while i < len
            invariant
                len == self@.len(),
                i <= len,
                full ==> next_save_id(self@.take(i as int)) == u64::MAX + 1,
                !full ==> next_save_id(self@.take(i as int)) == next,
            decreases len - i,
        {
            assert(self@.take(i + 1).drop_last() =~= self@.take(i as int));
            match self.get(Entity { index: i }) {
                Some(o) => match o.save_id {
                    Some(id) => {
                        if id.0 == u64::MAX {
                            full = true;
                        } else if !full && id.0 + 1 > next {
                            next = id.0 + 1;
                        }
                    },
                    None => {},
                },
                None => {},
            }
            i = i + 1;
        }
        assert(self@.take(len as int) =~= self@);
        if full {
            None
        } else {
            Some(SaveId(next))
        }
    }

    /// Attaches a stable identifier to each of `entities`, in order: one that
    /// has an identifier keeps it, the others receive consecutive identifiers
    /// from `save_id_next` on. Returns each entity's identifier. On an error,
    /// the identifiers attached before it stay attached.
    pub fn assign_save_ids(&mut self, entities: &Vec<Entity>) -> (r: Result<Vec<SaveId>, AssignError>)
        requires
            old(self).wf(),
        ensures
            final(self).wf(),
            match r {
                Ok(ids) => {
                    &&& assigned(old(self)@, entities@, entities@.len() as int, final(self)@)
                    &&& ids@.len() == entities@.len()
                    &&& forall|k: int|
                        0 <= k < ids@.len() ==> object(final(self)@, entities@[k]).save_id == Some(
                            #[trigger] ids@[k],
                        )
                },
                Err(AssignError::UnknownEntity(e)) => exists|n: int|
                    0 <= n < entities@.len() && entities@[n] == e && !is_live(old(self)@, e)
                        && #[trigger] assigned(old(self)@, entities@, n, final(self)@),
                Err(AssignError::IdsExhausted) => exists|n: int|
                    0 <= n < entities@.len() && is_live(old(self)@, entities@[n]) && needs_id(
                        old(self)@,
                        entities@,
                        n,
                    ) && next_save_id(old(self)@) + fresh_before(old(self)@, entities@, n) > u64::MAX
                        && #[trigger] assigned(old(self)@, entities@, n, final(self)@),
            },
    {
        let ghost before = self@;
        let ghost ents = entities@;
        proof {
            lemma_next_save_id(before);
        }
        let start = self.save_id_next();
        let mut next: Option<u64> = match start {
            Some(id) => Some(id.0),
            None => None,
        };
        let mut ids: Vec<SaveId> = Vec::new();
        let mut i: usize = 0;
        proof {
            reveal(assigned);
            reveal(ids_below);
            assert(fresh_before(before, ents, 0) == 0);
        }
        while i < entities.len()
            invariant
                self.wf(),
                before == old(self)@,
                before.len() == self@.len(),
                ents == entities@,
                0 <= i <= ents.len(),
                next_save_id(before) >= 0,
                assigned(before, ents, i as int, self@),
                ids@.len() == i,
                forall|k: int| 0 <= k < i ==> object(self@, ents[k]).save_id == Some(#[trigger] ids@[k]),
                processed(self@, ents, i as int),
                next is Some ==> next->Some_0 == next_save_id(before) + fresh_before(before, ents, i as int),
                next is None ==> next_save_id(before) + fresh_before(before, ents, i as int) > u64::MAX,
                ids_below(self@, next_save_id(before) + fresh_before(before, ents, i as int)),
            decreases ents.len() - i,
        {
            let e = entities[i];
            let current = match self.get(e) {
                Some(o) => o.save_id,
                None => {
                    proof {
                        lemma_dead_unprocessed(before, ents, i as int, self@);
                    }
                    return Err(AssignError::UnknownEntity(e));
                },
            };
            let ghost cur = self@;
            proof {
                lemma_slot_before_processing(before, ents, i as int, cur);
            }
            match current {
                Some(id) => {
                    ids.push(id);
                    proof {
                        lemma_assign_step(before, ents, i as int, cur, cur);
                    }
                },
                None => {
                    let n = match next {
                        Some(n) => n,
                        None => {
                            return Err(AssignError::IdsExhausted);
                        },
                    };
                    let id = SaveId(n);
                    proof {
                        reveal(ids_below);
                        if save_id_taken(cur, id, e.index as int) {
                            let j = choose|j: int|
                                0 <= j < cur.len() && j != e.index as int && #[trigger] cur[j] is Some
                                    && cur[j]->Some_0.save_id == Some(id);
                            assert(cur[j]->Some_0.save_id->Some_0.0 < n);
                        }
                    }
                    self.insert_save_id(e, id);
                    ids.push(id);
                    next = if n == u64::MAX {
                        None
                    } else {
                        Some(n + 1)
                    };
                    proof {
                        lemma_assign_step(before, ents, i as int, cur, self@);
                    }
                },
            }
            proof {
                assert forall|k: int| 0 <= k < i + 1 implies object(self@, ents[k]).save_id == Some(
                    #[trigger] ids@[k],
                ) by {
                    if k < i {
                        assert(object(cur, ents[k]).save_id == Some(ids@[k]));
                    }
                }
            }
            i = i + 1;
        }
        Ok(ids)
    }
}

/// An entity that is not live when its position comes was never processed,
/// so it was not live at the start either.
proof fn lemma_dead_unprocessed(before: Seq<Option<Object>>, ents: Seq<Entity>, i: int, cur: Seq<Option<Object>>)
    requires
        assigned(before, ents, i, cur),
        processed(cur, ents, i),
        0 <= i < ents.len(),
        !is_live(cur, ents[i]),
    ensures
        !is_live(before, ents[i]),
        assigned(before, ents, i, cur),
{
    reveal(assigned);
    let e = ents[i];
    assert forall|k: int| 0 <= k < i implies (#[trigger] ents[k]).index != e.index by {
        assert(is_live(cur, ents[k]));
    }
    if e.index < before.len() {
        assert(cur[e.index as int] == before[e.index as int]);
    }
}

/// Before position `i` is processed, its entity's slot holds an identifier
/// exactly when it held one at the start or an earlier position named it;
/// if it holds none, the position needs a new identifier.
proof fn lemma_slot_before_processing(
    before: Seq<Option<Object>>,
    ents: Seq<Entity>,
    i: int,
    cur: Seq<Option<Object>>,
)
    requires
        assigned(before, ents, i, cur),
        processed(cur, ents, i),
        0 <= i < ents.len(),
        is_live(cur, ents[i]),
    ensures
        is_live(before, ents[i]),
        object(cur, ents[i]).save_id is None ==> needs_id(before, ents, i) && cur[ents[i].index as int]
            == before[ents[i].index as int],
        object(cur, ents[i]).save_id is Some ==> !needs_id(before, ents, i),
{
    reveal(assigned);
    let e = ents[i];
    if forall|k: int| 0 <= k < i ==> (#[trigger] ents[k]).index != e.index {
        assert(cur[e.index as int] == before[e.index as int]);
        assert(first_occurrence(ents, i));
    } else {
        let k = choose|k: int| 0 <= k < i && (#[trigger] ents[k]).index == e.index;
        assert(ents[k] == e);
        assert(object(cur, ents[k]).save_id is Some);
    }
}

/// Processing position `i` keeps every loop fact of the assignment.
proof fn lemma_assign_step(
    before: Seq<Option<Object>>,
    ents: Seq<Entity>,
    i: int,
    cur: Seq<Option<Object>>,
    after: Seq<Option<Object>>,
)
    requires
        assigned(before, ents, i, cur),
        processed(cur, ents, i),
        ids_below(cur, next_save_id(before) + fresh_before(before, ents, i)),
        next_save_id(before) >= 0,
        0 <= i < ents.len(),
        is_live(cur, ents[i]),
        object(cur, ents[i]).save_id is Some ==> after == cur,
        object(cur, ents[i]).save_id is None ==> next_save_id(before) + fresh_before(before, ents, i)
            <= u64::MAX && after == cur.update(
            ents[i].index as int,
            Some(
                Object {
                    save_id: Some(
                        SaveId((next_save_id(before) + fresh_before(before, ents, i)) as u64),
                    ),
                    ..object(cur, ents[i])
                },
            ),
        ),
    ensures
        assigned(before, ents, i + 1, after),
        processed(after, ents, i + 1),
        ids_below(after, next_save_id(before) + fresh_before(before, ents, i + 1)),
        forall|k: int| 0 <= k < i ==> object(after, #[trigger] ents[k]) == object(cur, ents[k]),
{
    let e = ents[i];
    lemma_slot_before_processing(before, ents, i, cur);
    reveal(assigned);
    reveal(ids_below);
    assert forall|k: int| 0 <= k < i implies object(after, #[trigger] ents[k]) == object(cur, ents[k]) by {
        if ents[k].index == e.index && object(cur, e).save_id is None {
            assert(ents[k] == e);
            assert(object(cur, ents[k]).save_id is Some);
        }
    }
    assert forall|ii: int|
        0 <= ii < before.len() && (forall|k: int| 0 <= k < i + 1 ==> (#[trigger] ents[k]).index != ii)
            implies #[trigger] after[ii] == before[ii] by {
        assert(ents[i].index != ii);
    }
    assert forall|k: int|
        0 <= k < i + 1 && (object(before, ents[k]).save_id is Some || first_occurrence(ents, k))
            implies #[trigger] after[ents[k].index as int] == Some(
        Object { save_id: Some(assigned_id(before, ents, k)), ..object(before, ents[k]) },
    ) by {
        if k < i {
            if ents[k].index == e.index {
                assert(ents[k] == e);
            }
        } else {
            if forall|kk: int| 0 <= kk < i ==> (#[trigger] ents[kk]).index != e.index {
                assert(cur[e.index as int] == before[e.index as int]);
            } else {
                let kk = choose|kk: int| 0 <= kk < i && (#[trigger] ents[kk]).index == e.index;
                assert(ents[kk] == e);
                assert(object(cur, ents[kk]).save_id is Some);
                if object(before, e).save_id is None {
                    assert(!first_occurrence(ents, i));
                } else {
                    assert(object(before, ents[kk]).save_id is Some);
                }
            }
        }
    }
    assert forall|k: int| 0 <= k < i + 1 implies is_live(after, #[trigger] ents[k]) by {
        if k < i {
            assert(is_live(cur, ents[k]));
        }
    }
    assert forall|k: int| 0 <= k < i + 1 implies #[trigger] object(after, ents[k]).save_id is Some by {
        if k < i {
            assert(object(cur, ents[k]).save_id is Some);
        }
    }
}

/// The count of new identifiers grows with the number of positions.
pub proof fn lemma_fresh_before_monotone(objs: Seq<Option<Object>>, ents: Seq<Entity>, a: int, b: int)
    requires
        0 <= a <= b,
    ensures
        fresh_before(objs, ents, a) <= fresh_before(objs, ents, b),
    decreases b - a,
{
    if a < b {
        lemma_fresh_before_monotone(objs, ents, a, b - 1);
    }
}

/// Assignment changes nothing but stable identifiers.
pub proof fn lemma_assigned_same_but_save_ids(
    before: Seq<Option<Object>>,
    ents: Seq<Entity>,
    n: int,
    after: Seq<Option<Object>>,
)
    requires
        assigned(before, ents, n, after),
    ensures
        same_but_save_ids(before, after),
{
    reveal(assigned);
    assert forall|i: int| 0 <= i < before.len() implies (#[trigger] before[i] is Some) == (after[i] is Some) && (
    before[i] is Some ==> Object { save_id: None, ..before[i]->Some_0 } == Object {
        save_id: None,
        ..after[i]->Some_0
    }) by {
        if !(forall|k: int| 0 <= k < n ==> (#[trigger] ents[k]).index != i) {
            let k = choose|k: int| 0 <= k < n && (#[trigger] ents[k]).index == i;
            assert(is_live(before, ents[k]));
            if !(object(before, ents[k]).save_id is Some || first_occurrence(ents, k)) {
                let j = choose|j: int| 0 <= j < k && ents[j] == ents[k];
                lemma_first_of(ents, j, i);
            }
        }
    }
}

/// Some position up to `j` is the first occurrence of the entity at `j`.
proof fn lemma_first_of(ents: Seq<Entity>, j: int, i: int)
    requires
        0 <= j < ents.len(),
        ents[j].index == i,
    ensures
        exists|k: int| 0 <= k <= j && (#[trigger] ents[k]).index == i && first_occurrence(ents, k),
    decreases j,
{
    if !first_occurrence(ents, j) {
        let k = choose|k: int| 0 <= k < j && ents[k] == ents[j];
        lemma_first_of(ents, k, i);
    }
}

/// After assignment of the first `n` entities, each of them is live and
/// holds an identifier.
proof fn lemma_assigned_holds_id(
    before: Seq<Option<Object>>,
    ents: Seq<Entity>,
    n: int,
    after: Seq<Option<Object>>,
    k: int,
)
    requires
        assigned(before, ents, n, after),
        0 <= k < n,
    ensures
        is_live(after, ents[k]),
        object(after, ents[k]).save_id is Some,
    decreases k,
{
    reveal(assigned);
    if !first_occurrence(ents, k) && object(before, ents[k]).save_id is None {
        let j = choose|j: int| 0 <= j < k && ents[j] == ents[k];
        lemma_assigned_holds_id(before, ents, n, after, j);
    }
}

/// An object that held an identifier before assignment is left as it was.
proof fn lemma_assigned_keeps_identified(
    before: Seq<Option<Object>>,
    ents: Seq<Entity>,
    n: int,
    after: Seq<Option<Object>>,
    i: int,
)
    requires
        assigned(before, ents, n, after),
        0 <= i < before.len(),
        before[i] is Some,
        before[i]->Some_0.save_id is Some,
    ensures
        after[i] == before[i],
{
    reveal(assigned);
    if !(forall|k: int| 0 <= k < n ==> (#[trigger] ents[k]).index != i) {
        let k = choose|k: int| 0 <= k < n && (#[trigger] ents[k]).index == i;
        assert(after[ents[k].index as int] == Some(
            Object { save_id: Some(assigned_id(before, ents, k)), ..object(before, ents[k]) },
        ));
    }
}

/// Assignment keeps every identifier already attached, so the identifier
/// that follows all attached ones never decreases from one call to the next.
pub proof fn lemma_assign_monotone(
    before: Seq<Option<Object>>,
    ents: Seq<Entity>,
    n: int,
    after: Seq<Option<Object>>,
)
    requires
        assigned(before, ents, n, after),
    ensures
        forall|i: int|
            0 <= i < before.len() && #[trigger] before[i] is Some && before[i]->Some_0.save_id is Some
                ==> after[i] == before[i],
        next_save_id(before) <= next_save_id(after),
{
    assert forall|i: int|
        0 <= i < before.len() && #[trigger] before[i] is Some && before[i]->Some_0.save_id is Some
            implies after[i] == before[i] by {
        lemma_assigned_keeps_identified(before, ents, n, after, i);
    }
    lemma_next_save_id(before);
    lemma_next_save_id(after);
    reveal(assigned);
    if next_save_id(before) != 0 {
        let i = choose|i: int|
            0 <= i < before.len() && #[trigger] before[i] is Some && before[i]->Some_0.save_id
                == Some(SaveId((next_save_id(before) - 1) as u64));
        lemma_assigned_keeps_identified(before, ents, n, after, i);
        assert(after[i] is Some);
        assert(after[i]->Some_0.save_id->Some_0.0 == next_save_id(before) - 1);
    }
}

/// Assigning the same entities a second time, with nothing removed in
/// between, changes nothing: every entity keeps the identifier that the first
/// assignment gave it.
pub proof fn lemma_assign_idempotent(
    w0: Seq<Option<Object>>,
    ents: Seq<Entity>,
    w1: Seq<Option<Object>>,
    w2: Seq<Option<Object>>,
)
    requires
        assigned(w0, ents, ents.len() as int, w1),
        assigned(w1, ents, ents.len() as int, w2),
    ensures
        w2 == w1,
{
    assert forall|k: int| 0 <= k < ents.len() implies is_live(w1, #[trigger] ents[k])
        && object(w1, ents[k]).save_id is Some by {
        lemma_assigned_holds_id(w0, ents, ents.len() as int, w1, k);
    }
    reveal(assigned);
    assert forall|i: int| 0 <= i < w1.len() implies #[trigger] w2[i] == w1[i] by {
        if !(forall|k: int| 0 <= k < ents.len() ==> (#[trigger] ents[k]).index != i) {
            let k = choose|k: int| 0 <= k < ents.len() && (#[trigger] ents[k]).index == i;
            assert(is_live(w1, ents[k]));
            lemma_assigned_keeps_identified(w1, ents, ents.len() as int, w2, i);
        }
    }
    assert(w2 =~= w1);
}

} // verus!

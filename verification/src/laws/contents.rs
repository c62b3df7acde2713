//! What each operation does to the parts of a world: its entities, the handles that are free, the IDs
//! that were never used, and its archetypes.
use vstd::prelude::*;

use crate::archetype_set::with_types;
use crate::entities::{fresh_entities, ids_of, next_generation, Entity};
use crate::laws::{later_generation, spawned_at_each};
use crate::model::{swap_removed, WorldModel};
use crate::types::TypeId;
use crate::world::lemma_claimed_all;

verus! {

/// A new world has no entities, no handles to use again and no used IDs, and a single archetype, that of
/// no component types.
pub proof fn law_new_world<V>(id: u64, e: Entity)
    ensures
        ({
            let m = WorldModel::<V>::empty(id);
            &&& m.id == id
            &&& !m.live.contains_key(e)
            &&& !m.reserved.contains(e)
            &&& m.freelist.len() == 0
            &&& m.next_id == 0
            &&& m.archetypes.len() == 1
            &&& m.archetypes[0] == Set::<TypeId>::empty()
            &&& m.wf()
        }),
{
    let m = WorldModel::<V>::empty(id);
    assert(m.live.dom() =~= Set::<Entity>::empty());
    assert(m.reserved =~= Set::<Entity>::empty());
}

/// A world contains the entities that are live and those that are reserved. The components of a live
/// entity are those it is stored with; any other has none. An ID is used by a live entity, and occupied
/// by a live or reserved one.
pub proof fn law_contained<V>(m: WorldModel<V>, e: Entity)
    ensures
        m.live.contains_key(e) ==> m.contains(e) && m.components(e) == m.live[e] && m.uses(e.id) && m.occupied(e.id),
        m.reserved.contains(e) ==> m.contains(e) && m.occupied(e.id),
        !m.live.contains_key(e) && !m.reserved.contains(e) ==> !m.contains(e),
        !m.live.contains_key(e) ==> m.components(e).dom() == Set::<TypeId>::empty(),
        m.uses(e.id) ==> exists|x: Entity| #[trigger] m.live.contains_key(x) && x.id == e.id,
        m.occupied(e.id) ==> exists|x: Entity|
            (#[trigger] m.live.contains_key(x) || m.reserved.contains(x)) && x.id == e.id,
        m.len() == m.live.dom().len(),
{
    assert(m.live.contains_key(e) ==> m.contains(e));
    assert(m.reserved.contains(e) ==> m.contains(e));
    if m.occupied(e.id) {
        let x = choose|x: Entity| #[trigger] m.contains(x) && x.id == e.id;
        assert(m.live.contains_key(x) || m.reserved.contains(x));
    }
}

/// A world has room for as many more entities as can still be counted, all reserved entities among
/// those that are. An ID that an entity occupies can always be claimed. There is room for an archetype
/// that is there, or that can still be counted.
pub proof fn law_limits<V>(m: WorldModel<V>, count: nat, id: u32, types: Set<TypeId>)
    ensures
        m.has_room(count) <==> m.live.dom().len() + m.reserved.len() + count <= u32::MAX,
        m.has_room(1) ==> m.can_claim(id),
        m.occupied(id) ==> m.can_claim(id),
        m.can_claim(id) ==> m.occupied(id) || m.live.dom().len() + m.reserved.len() < u32::MAX,
        m.archetypes.contains(types) ==> m.can_hold(types),
        m.can_hold(types) ==> m.archetypes.contains(types) || m.archetypes.len() < u32::MAX,
        m.archetypes.len() < u32::MAX ==> m.can_hold(types),
{
}

/// Creating the reserved entities makes each of them live, without components, and changes nothing else.
pub proof fn law_flushed<V>(m: WorldModel<V>)
    ensures
        ({
            let n = m.flushed();
            &&& n.reserved == Set::<Entity>::empty()
            &&& forall|e: Entity| #[trigger] n.live.contains_key(e) <==> m.live.contains_key(e) || m.reserved.contains(e)
            &&& forall|e: Entity| #[trigger] m.reserved.contains(e) ==> n.live[e] == Map::<TypeId, V>::empty()
            &&& forall|e: Entity| #[trigger] m.live.contains_key(e) && !m.reserved.contains(e) ==> n.live[e] == m.live[e]
            &&& n.id == m.id
            &&& n.freelist == m.freelist
            &&& n.next_id == m.next_id
            &&& n.archetypes == m.archetypes
        }),
{
}

/// An archetype is there afterwards, and is the last one if it was not there before. All others stay
/// where they were, and nothing else changes.
pub proof fn law_archetype_added<V>(m: WorldModel<V>, types: Set<TypeId>)
    ensures
        ({
            let n = m.with_archetype(types);
            &&& n.archetypes == with_types(m.archetypes, types)
            &&& m.archetypes.is_prefix_of(n.archetypes)
            &&& n.archetypes.contains(types)
            &&& m.archetypes.contains(types) ==> n.archetypes.len() == m.archetypes.len()
            &&& !m.archetypes.contains(types) ==> n.archetypes.len() == m.archetypes.len() + 1 && n.archetypes.last() == types
            &&& n.id == m.id
            &&& n.live == m.live
            &&& n.reserved == m.reserved
            &&& n.freelist == m.freelist
            &&& n.next_id == m.next_id
        }),
{
    if !m.archetypes.contains(types) {
        assert(m.with_archetype(types).archetypes.last() == types);
    }
}

/// A generation is followed by the next number, and the largest by one, so that none is zero.
pub proof fn law_next_generation(generation: u32)
    ensures
        generation < u32::MAX ==> next_generation(generation) == generation + 1,
        generation == u32::MAX ==> next_generation(generation) == 1,
        next_generation(generation) >= 1,
{
}

/// Each reuse of an ID takes it to the generation that follows.
pub proof fn law_later_generation(generation: u32, first: nat, second: nat)
    ensures
        later_generation(generation, 0) == generation,
        later_generation(generation, 1) == next_generation(generation),
        later_generation(generation, first + second) == later_generation(later_generation(generation, first), second),
    decreases second,
{
    reveal_with_fuel(later_generation, 2);
    if second > 0 {
        law_later_generation(generation, first, (second - 1) as nat);
    }
}

/// A new entity takes the handle that became free last. Where none is free, it takes the first ID that
/// was never used, in its first generation.
pub proof fn law_spawned<V>(m: WorldModel<V>, components: Map<TypeId, V>)
    requires
        m.next_id <= u32::MAX || m.freelist.len() > 0,
    ensures
        ({
            let e = m.next_entity();
            let n = m.spawned(components);
            &&& n.live == m.live.insert(e, components)
            &&& n.reserved == m.reserved
            &&& n.id == m.id
            &&& m.freelist.len() > 0 ==> n.freelist.push(e) == m.freelist && n.next_id == m.next_id
            &&& m.freelist.len() == 0 ==> {
                &&& e.id == m.next_id
                &&& e.generation == 1
                &&& n.freelist == m.freelist
                &&& n.next_id == m.next_id + 1
            }
            &&& m.archetypes.is_prefix_of(n.archetypes)
            &&& n.archetypes.contains(components.dom())
            &&& m.archetypes.contains(components.dom()) ==> n.archetypes == m.archetypes
            &&& n.archetypes.len() <= m.archetypes.len() + 1
        }),
{
    let n = m.spawned(components);
    law_archetype_added(m, components.dom());
    if m.freelist.len() > 0 {
        assert(m.freelist.drop_last().push(m.freelist.last()) =~= m.freelist);
    }
    assert(n.archetypes == m.with_archetype(components.dom()).archetypes);
    if m.archetypes.contains(components.dom()) {
        assert(n.archetypes =~= m.archetypes);
    }
}

/// Using the next handle takes it off the free ones, or takes the first ID that was never used, and
/// changes nothing else.
pub proof fn law_advanced<V>(m: WorldModel<V>)
    requires
        m.next_id <= u32::MAX || m.freelist.len() > 0,
    ensures
        ({
            let e = m.next_entity();
            let n = m.advanced();
            &&& m.freelist.len() > 0 ==> n.freelist.push(e) == m.freelist && n.next_id == m.next_id
            &&& m.freelist.len() == 0 ==> e.id == m.next_id && e.generation == 1 && n.freelist == m.freelist && n.next_id
                == m.next_id + 1
            &&& n.id == m.id
            &&& n.live == m.live
            &&& n.reserved == m.reserved
            &&& n.archetypes == m.archetypes
        }),
{
    if m.freelist.len() > 0 {
        assert(m.freelist.drop_last().push(m.freelist.last()) =~= m.freelist);
    }
}

/// Handles that are used at once are those that became free last, in the order in which they did, and
/// then those of the IDs that were never used, in their first generation. They are no longer free
/// afterwards, and the IDs count as used; nothing else changes.
pub proof fn law_used_at_once<V>(m: WorldModel<V>, count: nat)
    requires
        m.next_id + count <= 0x1_0000_0000 + m.freelist.len() || count <= m.freelist.len(),
    ensures
        ({
            let handles = m.next_handles(count);
            let n = m.advanced_many(count);
            &&& handles.len() == count
            &&& count <= m.freelist.len() ==> {
                &&& m.recycling(count) == count
                &&& n.freelist + handles == m.freelist
                &&& n.next_id == m.next_id
            }
            &&& count > m.freelist.len() ==> {
                let again = m.freelist.len() as int;
                &&& m.recycling(count) == again
                &&& handles.take(again) == m.freelist
                &&& n.freelist.len() == 0
                &&& n.next_id == m.next_id + count - again
                &&& forall|i: int|
                    again <= i < count ==> (#[trigger] handles[i]).id == m.next_id + i - again && handles[i].generation == 1
            }
            &&& n.id == m.id
            &&& n.live == m.live
            &&& n.reserved == m.reserved
            &&& n.archetypes == m.archetypes
        }),
{
    let handles = m.next_handles(count);
    let n = m.advanced_many(count);
    if count <= m.freelist.len() {
        assert(n.freelist + handles =~= m.freelist);
    } else {
        assert(handles.take(m.freelist.len() as int) =~= m.freelist);
    }
}

/// A despawned entity is no longer live, and the handle of its ID in the next generation is the last
/// one among those to be used again. Nothing else changes.
pub proof fn law_despawned<V>(m: WorldModel<V>, e: Entity)
    ensures
        ({
            let n = m.despawned(e);
            &&& n.live == m.live.remove(e)
            &&& n.freelist.len() == m.freelist.len() + 1
            &&& n.freelist.drop_last() == m.freelist
            &&& n.freelist.last().id == e.id
            &&& e.generation < u32::MAX ==> n.freelist.last().generation == e.generation + 1
            &&& e.generation == u32::MAX ==> n.freelist.last().generation == 1
            &&& n.next_id == m.next_id
            &&& n.id == m.id
            &&& n.reserved == m.reserved
            &&& n.archetypes == m.archetypes
        }),
{
    assert(m.despawned(e).freelist.drop_last() =~= m.freelist);
}

/// Vacating an ID takes away the live entity that uses it, and nothing else.
pub proof fn law_vacated<V>(m: WorldModel<V>, id: u32)
    ensures
        ({
            let n = m.vacated(id);
            &&& forall|x: Entity| #[trigger] n.live.contains_key(x) <==> m.live.contains_key(x) && x.id != id
            &&& forall|x: Entity| #[trigger] n.live.contains_key(x) ==> n.live[x] == m.live[x]
            &&& n.id == m.id
            &&& n.reserved == m.reserved
            &&& n.freelist == m.freelist
            &&& n.next_id == m.next_id
            &&& n.archetypes == m.archetypes
        }),
{
}

/// Claiming an ID that was never used lets it count as used, and frees the IDs before it that were
/// never used either, in order, in their first generation. An ID that is free is no longer so, and the
/// last free handle takes its place. Any other ID is in use already. Nothing else changes.
pub proof fn law_claimed<V>(m: WorldModel<V>, e: Entity)
    requires
        forall|i: int, j: int| 0 <= i < j < m.freelist.len() ==> m.freelist[i].id != m.freelist[j].id,
        forall|i: int| 0 <= i < m.freelist.len() ==> (#[trigger] m.freelist[i]).id < m.next_id,
    ensures
        ({
            let n = m.claimed(e);
            let free = m.freelist.len() as int;
            &&& e.id >= m.next_id ==> {
                &&& n.next_id == e.id + 1
                &&& n.freelist.len() == free + e.id - m.next_id
                &&& n.freelist.take(free) == m.freelist
                &&& forall|i: int|
                    free <= i < n.freelist.len() ==> (#[trigger] n.freelist[i]).id == m.next_id + i - free && n.freelist[i].generation
                        == 1
            }
            &&& forall|i: int|
                0 <= i < free && (#[trigger] m.freelist[i]).id == e.id ==> {
                    &&& n.freelist.len() == free - 1
                    &&& i < free - 1 ==> n.freelist == m.freelist.update(i, m.freelist.last()).take(free - 1)
                    &&& i == free - 1 ==> n.freelist == m.freelist.take(free - 1)
                    &&& n.next_id == m.next_id
                }
            &&& e.id < m.next_id && (forall|i: int| 0 <= i < free ==> (#[trigger] m.freelist[i]).id != e.id) ==> n == m
            &&& n.id == m.id
            &&& n.live == m.live
            &&& n.reserved == m.reserved
            &&& n.archetypes == m.archetypes
        }),
{
    let n = m.claimed(e);
    let free = m.freelist.len() as int;
    let ids = ids_of(m.freelist);
    if e.id >= m.next_id {
        assert(n.freelist.take(free) =~= m.freelist);
    }
    assert forall|i: int| 0 <= i < free && (#[trigger] m.freelist[i]).id == e.id implies {
        &&& n.freelist.len() == free - 1
        &&& i < free - 1 ==> n.freelist == m.freelist.update(i, m.freelist.last()).take(free - 1)
        &&& i == free - 1 ==> n.freelist == m.freelist.take(free - 1)
        &&& n.next_id == m.next_id
    } by {
        assert(ids[i] == e.id);
        assert(ids.contains(e.id));
        let k = ids.index_of(e.id);
        assert(ids[k] == m.freelist[k].id);
        assert(k == i);
        if i < free - 1 {
            assert(n.freelist =~= m.freelist.update(i, m.freelist.last()).take(free - 1));
        } else {
            assert(n.freelist =~= m.freelist.take(free - 1));
        }
    }
    if e.id < m.next_id && (forall|i: int| 0 <= i < free ==> (#[trigger] m.freelist[i]).id != e.id) {
        if ids.contains(e.id) {
            let k = ids.index_of(e.id);
            assert(m.freelist[k].id == e.id);
        }
    }
}

/// An entity that is created at a handle takes the place of whatever entity had the ID: it has exactly
/// the components it was given, and all live entities of other IDs stay as they were. What becomes of
/// the free handles is told by claiming the ID.
pub proof fn law_spawned_at<V>(m: WorldModel<V>, e: Entity, components: Map<TypeId, V>)
    ensures
        ({
            let n = m.spawned_at(e, components);
            &&& n.live.contains_key(e)
            &&& n.live[e] == components
            &&& forall|x: Entity| #[trigger]
                n.live.contains_key(x) && x != e <==> m.live.contains_key(x) && x.id != e.id
            &&& forall|x: Entity| #[trigger] n.live.contains_key(x) && x != e ==> n.live[x] == m.live[x]
            &&& n.freelist == m.claimed(e).freelist
            &&& n.next_id == m.claimed(e).next_id
            &&& n.id == m.id
            &&& n.reserved == m.reserved
            &&& n.archetypes == m.with_archetype(components.dom()).archetypes
        }),
{
}

/// Each of a list of handles that are claimed takes away the live entity that had its ID; the others
/// stay as they were. The handles are claimed one after the other.
pub proof fn law_claimed_all<V>(m: WorldModel<V>, handles: Seq<Entity>, more: Seq<Entity>)
    ensures
        m.claimed_all(Seq::empty()) == m,
        m.claimed_all(handles + more) == m.claimed_all(handles).claimed_all(more),
        forall|e: Entity| m.claimed_all(seq![e]) == #[trigger] m.vacated(e.id).claimed(e),
        forall|x: Entity| #[trigger]
            m.claimed_all(handles).live.contains_key(x) <==> m.live.contains_key(x) && !ids_of(handles).contains(x.id),
        forall|x: Entity| #[trigger]
            m.claimed_all(handles).live.contains_key(x) ==> m.claimed_all(handles).live[x] == m.live[x],
        m.claimed_all(handles).id == m.id,
        m.claimed_all(handles).reserved == m.reserved,
        m.claimed_all(handles).archetypes == m.archetypes,
    decreases more.len(),
{
    lemma_claimed_all(m, handles);
    if more.len() == 0 {
        assert(handles + more =~= handles);
        assert(more =~= Seq::empty());
    } else {
        law_claimed_all(m, handles, more.drop_last());
        assert((handles + more).drop_last() =~= handles + more.drop_last());
        assert((handles + more).last() == more.last());
    }
    assert forall|e: Entity| m.claimed_all(seq![e]) == #[trigger] m.vacated(e.id).claimed(e) by {
        let one = seq![e];
        assert(one.drop_last() =~= Seq::empty());
        assert(one.last() == e);
        assert(m.claimed_all(one.drop_last()) == m);
    }
}

/// Entities are created at some handles one after the other.
pub proof fn law_spawned_at_each<V>(
    m: WorldModel<V>,
    handles: Seq<Entity>,
    rows: Seq<Map<TypeId, V>>,
    e: Entity,
    components: Map<TypeId, V>,
)
    ensures
        spawned_at_each(m, Seq::empty(), Seq::empty()) == m,
        spawned_at_each(m, handles.push(e), rows.push(components)) == spawned_at_each(m, handles, rows).spawned_at(e, components),
{
    assert(handles.push(e).drop_last() =~= handles);
    assert(rows.push(components).drop_last() =~= rows);
}

/// The newcomers among some handles are those whose ID no entity occupies: each handle counts for one
/// if that is so, and for none otherwise.
pub proof fn law_newcomers<V>(m: WorldModel<V>, handles: Seq<Entity>, e: Entity)
    ensures
        m.newcomers(Seq::empty()) == 0,
        m.occupied(e.id) ==> m.newcomers(handles.push(e)) == m.newcomers(handles),
        !m.occupied(e.id) ==> m.newcomers(handles.push(e)) == m.newcomers(handles) + 1,
{
    assert(handles.push(e).drop_last() =~= handles);
    assert(handles.push(e).last() == e);
}

/// Replacing the components of an entity concerns no other, and adds at most the archetype of its new
/// component types.
pub proof fn law_changed<V>(m: WorldModel<V>, e: Entity, components: Map<TypeId, V>)
    ensures
        ({
            let n = m.changed(e, components);
            &&& n.live == m.live.insert(e, components)
            &&& n.id == m.id
            &&& n.reserved == m.reserved
            &&& n.freelist == m.freelist
            &&& n.next_id == m.next_id
            &&& n.archetypes == m.with_archetype(components.dom()).archetypes
        }),
{
}

/// Inserting components into a live entity leaves it with those, and with the ones of other types that
/// it had. At most the archetype of its component types is added; nothing else changes.
pub proof fn law_inserted<V>(m: WorldModel<V>, e: Entity, components: Map<TypeId, V>, ty: TypeId)
    ensures
        ({
            let n = m.inserted(e, components);
            &&& n.live == m.live.insert(e, n.live[e])
            &&& n.live[e].contains_key(ty) <==> m.live[e].contains_key(ty) || components.contains_key(ty)
            &&& components.contains_key(ty) ==> n.live[e][ty] == components[ty]
            &&& m.live[e].contains_key(ty) && !components.contains_key(ty) ==> n.live[e][ty] == m.live[e][ty]
            &&& n.archetypes == m.with_archetype(n.live[e].dom()).archetypes
            &&& n.id == m.id
            &&& n.reserved == m.reserved
            &&& n.freelist == m.freelist
            &&& n.next_id == m.next_id
        }),
{
}

/// Removing components from a live entity leaves it with those of other types. At most the archetype of
/// its component types is added; nothing else changes.
pub proof fn law_removed<V>(m: WorldModel<V>, e: Entity, types: Set<TypeId>, ty: TypeId)
    ensures
        ({
            let n = m.removed(e, types);
            &&& n.live == m.live.insert(e, n.live[e])
            &&& n.live[e].contains_key(ty) <==> m.live[e].contains_key(ty) && !types.contains(ty)
            &&& n.live[e].contains_key(ty) ==> n.live[e][ty] == m.live[e][ty]
            &&& n.archetypes == m.with_archetype(n.live[e].dom()).archetypes
            &&& n.id == m.id
            &&& n.reserved == m.reserved
            &&& n.freelist == m.freelist
            &&& n.next_id == m.next_id
        }),
{
}

/// Clearing a world leaves no entity and no free handle, and lets all IDs count as never used. The
/// number of the world and its archetypes stay.
pub proof fn law_cleared<V>(m: WorldModel<V>, e: Entity)
    ensures
        ({
            let n = m.cleared();
            &&& !n.live.contains_key(e)
            &&& !n.reserved.contains(e)
            &&& n.freelist.len() == 0
            &&& n.next_id == 0
            &&& n.id == m.id
            &&& n.archetypes == m.archetypes
        }),
{
}

/// The entity that is created after `i` others is that which would be created next, had those been:
/// first the free handles are used, the last one first, then the IDs that were never used, in order.
pub proof fn law_nth_entity<V>(m: WorldModel<V>, components: Map<TypeId, V>, i: int)
    requires
        0 <= i,
        m.freelist.len() > 0 || m.next_id <= u32::MAX,
    ensures
        m.nth_entity(0) == m.next_entity(),
        m.nth_entity(i + 1) == m.spawned(components).nth_entity(i),
        m.nth_entity(i + 1) == m.advanced().nth_entity(i),
{
    if m.freelist.len() > 0 {
        assert(m.spawned(components).freelist =~= m.freelist.drop_last());
    }
}

/// With other handles to be used again, exactly those are free, in that order, and the IDs of the
/// entities and of the free handles count as used. Nothing else changes.
pub proof fn law_with_freelist<V>(m: WorldModel<V>, list: Seq<Entity>)
    ensures
        ({
            let n = m.with_freelist(list);
            &&& n.freelist == list
            &&& n.next_id == m.live.dom().len() + list.len()
            &&& n.id == m.id
            &&& n.live == m.live
            &&& n.reserved == m.reserved
            &&& n.archetypes == m.archetypes
        }),
{
}

/// Only handles that leave the world valid are accepted to be used again: a list after which each used
/// ID belongs to one entity or one free handle.
pub proof fn law_accepted_freelist<V>(m: WorldModel<V>, list: Seq<Entity>)
    requires
        m.wf(),
        m.reserved == Set::<Entity>::empty(),
        m.with_freelist(list).wf(),
    ensures
        m.accepts_freelist(list),
{
    let n = m.with_freelist(list);
    let ids = ids_of(list);
    assert forall|i: int, j: int| 0 <= i < ids.len() && 0 <= j < ids.len() && i != j implies ids[i] != ids[j] by {
        if i < j {
            assert(n.freelist[i].id != n.freelist[j].id);
        } else {
            assert(n.freelist[j].id != n.freelist[i].id);
        }
    }
    assert forall|i: int| 0 <= i < ids.len() implies !m.uses(#[trigger] ids[i]) by {
        if m.uses(ids[i]) {
            let e = choose|e: Entity| #[trigger] m.live.contains_key(e) && e.id == ids[i];
            assert(n.contains(e));
            assert(n.freelist[i].id != e.id);
        }
    }
    assert forall|x: u32, id: u32|
        id <= x && (#[trigger] m.uses(x) || ids.contains(x)) implies #[trigger] m.uses(id) || ids.contains(id) by {
        if m.uses(x) {
            let e = choose|e: Entity| #[trigger] m.live.contains_key(e) && e.id == x;
            assert(n.contains(e));
        } else {
            let k = choose|k: int| 0 <= k < ids.len() && ids[k] == x;
            assert(n.freelist[k].id == x);
        }
        assert(x < n.next_id);
        assert(ids_of(n.freelist).contains(id) || n.occupied(id));
        if n.occupied(id) {
            let e = choose|e: Entity| #[trigger] n.contains(e) && e.id == id;
            assert(m.live.contains_key(e));
        }
    }
}

/// The IDs of handles are listed in the order of the handles, and new handles have the IDs from the
/// first on, in order, in their first generation.
pub proof fn law_handles(list: Seq<Entity>, first: nat, count: nat)
    requires
        first + count <= 0x1_0000_0000,
    ensures
        ids_of(list).len() == list.len(),
        forall|i: int| 0 <= i < list.len() ==> #[trigger] ids_of(list)[i] == list[i].id,
        fresh_entities(first, count).len() == count,
        forall|i: int|
            0 <= i < count ==> (#[trigger] fresh_entities(first, count)[i]).id == first + i && fresh_entities(first, count)[i].generation
                == 1,
{
}

/// An element that is taken out leaves all others where they were, but for the last one, which takes its
/// place.
pub proof fn law_swap_removed<A>(s: Seq<A>, i: int)
    requires
        0 <= i < s.len(),
    ensures
        swap_removed(s, i).len() == s.len() - 1,
        forall|k: int| 0 <= k < s.len() - 1 && k != i ==> #[trigger] swap_removed(s, i)[k] == s[k],
        i < s.len() - 1 ==> swap_removed(s, i)[i] == s[s.len() - 1],
{
}

} // verus!

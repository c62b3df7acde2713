//! What holds of a world over any run of operations.
use vstd::prelude::*;

use crate::archetype_set::with_types;
use crate::entities::Entity;
use crate::laws::law_flush;
use crate::model::WorldModel;
use crate::types::TypeId;
use crate::world::{removal, ArchetypesGeneration};

verus! {

/// An operation on a world.
pub enum Step<V> {
    Flush,
    Spawn { components: Map<TypeId, V> },
    SpawnAt { handle: Entity, components: Map<TypeId, V> },
    SpawnBatch { types: Set<TypeId>, rows: Seq<Map<TypeId, V>> },
    SpawnColumnBatch { types: Set<TypeId>, rows: Seq<Map<TypeId, V>> },
    SpawnColumnBatchAt { handles: Seq<Entity>, types: Set<TypeId>, rows: Seq<Map<TypeId, V>> },
    Extend { rows: Seq<Map<TypeId, V>> },
    ReserveEntity,
    ReserveEntities { count: nat },
    Reserve { types: Set<TypeId> },
    /// Also of `take`.
    Despawn { entity: Entity },
    Clear,
    SetFreelist { list: Seq<Entity> },
    Insert { entity: Entity, components: Map<TypeId, V> },
    Remove { entity: Entity, fields: Seq<TypeId> },
    Exchange { entity: Entity, fields: Seq<TypeId>, components: Map<TypeId, V> },
    /// Components are written through a mutable borrow.
    Write { live: Map<Entity, Map<TypeId, V>> },
}

/// What an operation makes of the contents of a world.
pub open spec fn after<V>(m: WorldModel<V>, step: Step<V>) -> WorldModel<V> {
    match step {
        Step::Flush => m.flushed(),
        Step::Spawn { components } => m.flushed().spawned(components),
        Step::SpawnAt { handle, components } => m.flushed().spawned_at(handle, components),
        Step::SpawnBatch { types, rows } => m.flushed().with_archetype(types).spawned_all(rows),
        Step::SpawnColumnBatch { types, rows } => m.flushed().advanced_many(rows.len()).with_entities(
            m.next_handles(rows.len()),
            rows,
        ).with_archetype(types),
        Step::SpawnColumnBatchAt { handles, types, rows } => m.flushed().claimed_all(handles).with_entities(
            handles,
            rows,
        ).with_archetype(types),
        Step::Extend { rows } => if rows.len() == 0 {
            m
        } else {
            m.flushed().spawned_all(rows)
        },
        Step::ReserveEntity => WorldModel { reserved: m.reserved.insert(m.next_entity()), ..m.advanced() },
        Step::ReserveEntities { count } => WorldModel {
            reserved: m.reserved.union(m.next_handles(count).to_set()),
            ..m.advanced_many(count)
        },
        Step::Reserve { types } => m.flushed().with_archetype(types),
        Step::Despawn { entity } => if m.contains(entity) {
            m.flushed().despawned(entity)
        } else {
            m.flushed()
        },
        Step::Clear => m.cleared(),
        Step::SetFreelist { list } => m.with_freelist(list),
        Step::Insert { entity, components } => if m.contains(entity) {
            m.flushed().inserted(entity, components)
        } else {
            m.flushed()
        },
        Step::Remove { entity, fields } => if removal(m, entity, fields) is Ok {
            m.flushed().removed(entity, fields.to_set())
        } else {
            m.flushed()
        },
        Step::Exchange { entity, fields, components } => if removal(m, entity, fields) is Ok {
            m.flushed().removed(entity, fields.to_set()).inserted(entity, components)
        } else {
            m.flushed()
        },
        Step::Write { live } => WorldModel { live, ..m },
    }
}

/// What operations, one after the other, make of the contents of a world.
pub open spec fn run<V>(m: WorldModel<V>, steps: Seq<Step<V>>) -> WorldModel<V>
    decreases steps.len(),
{
    if steps.len() == 0 {
        m
    } else {
        after(run(m, steps.drop_last()), steps.last())
    }
}

/// Whether archetypes were only added, after those that there were, and none is there twice.
pub open spec fn appended(before: Seq<Set<TypeId>>, now: Seq<Set<TypeId>>) -> bool {
    &&& before.is_prefix_of(now)
    &&& before.no_duplicates() ==> now.no_duplicates()
}

/// An archetype that is added comes last, and is not there already.
proof fn lemma_with_types(before: Seq<Set<TypeId>>, now: Seq<Set<TypeId>>, types: Set<TypeId>)
    requires
        appended(before, now),
    ensures
        appended(before, with_types(now, types)),
{
    let more = with_types(now, types);
    if !now.contains(types) && before.no_duplicates() {
        assert forall|i: int, j: int| 0 <= i < more.len() && 0 <= j < more.len() && i != j implies more[i] != more[j] by {
            if i == now.len() {
                assert(now.contains(now[j]));
            } else if j == now.len() {
                assert(now.contains(now[i]));
            }
        }
    }
}

/// Entities that are created one after the other only add archetypes.
proof fn lemma_spawned_all_appends<V>(m: WorldModel<V>, list: Seq<Map<TypeId, V>>)
    ensures
        appended(m.archetypes, m.spawned_all(list).archetypes),
        m.spawned_all(list).id == m.id,
    decreases list.len(),
{
    if list.len() > 0 {
        lemma_spawned_all_appends(m, list.drop_last());
        lemma_with_types(m.archetypes, m.spawned_all(list.drop_last()).archetypes, list.last().dom());
    }
}

/// Handles that are put to use add no archetype.
proof fn lemma_claimed_all_appends<V>(m: WorldModel<V>, handles: Seq<Entity>)
    ensures
        m.claimed_all(handles).archetypes == m.archetypes,
        m.claimed_all(handles).id == m.id,
    decreases handles.len(),
{
    if handles.len() > 0 {
        lemma_claimed_all_appends(m, handles.drop_last());
    }
}

/// Entities that are given components add no archetype by themselves.
proof fn lemma_with_entities_appends<V>(m: WorldModel<V>, handles: Seq<Entity>, list: Seq<Map<TypeId, V>>)
    ensures
        m.with_entities(handles, list).archetypes == m.archetypes,
        m.with_entities(handles, list).id == m.id,
    decreases handles.len(),
{
    if handles.len() > 0 {
        lemma_with_entities_appends(m, handles.drop_last(), list.drop_last());
    }
}

/// Each operation only adds archetypes, and leaves the number of the world alone.
proof fn lemma_after<V>(m: WorldModel<V>, step: Step<V>)
    ensures
        appended(m.archetypes, after(m, step).archetypes),
        after(m, step).id == m.id,
{
    let a = m.archetypes;
    match step {
        Step::Spawn { components } => {
            lemma_with_types(a, a, components.dom());
        },
        Step::SpawnAt { handle, components } => {
            lemma_with_types(a, a, components.dom());
        },
        Step::SpawnBatch { types, rows } => {
            let base = m.flushed().with_archetype(types);
            lemma_with_types(a, a, types);
            lemma_spawned_all_appends(base, rows);
        },
        Step::SpawnColumnBatch { types, rows } => {
            lemma_with_entities_appends(m.flushed().advanced_many(rows.len()), m.next_handles(rows.len()), rows);
            lemma_with_types(a, a, types);
        },
        Step::SpawnColumnBatchAt { handles, types, rows } => {
            lemma_claimed_all_appends(m.flushed(), handles);
            lemma_with_entities_appends(m.flushed().claimed_all(handles), handles, rows);
            lemma_with_types(a, a, types);
        },
        Step::Extend { rows } => {
            lemma_spawned_all_appends(m.flushed(), rows);
        },
        Step::Reserve { types } => {
            lemma_with_types(a, a, types);
        },
        Step::Insert { entity, components } => {
            lemma_with_types(a, a, m.flushed().live[entity].union_prefer_right(components).dom());
        },
        Step::Remove { entity, fields } => {
            lemma_with_types(a, a, m.flushed().live[entity].remove_keys(fields.to_set()).dom());
        },
        Step::Exchange { entity, fields, components } => {
            let removed = m.flushed().removed(entity, fields.to_set());
            lemma_with_types(a, a, m.flushed().live[entity].remove_keys(fields.to_set()).dom());
            lemma_with_types(a, removed.archetypes, removed.live[entity].union_prefer_right(components).dom());
        },
        _ => {},
    }
}

/// Over any run of operations, archetypes are only ever added, after those that there were, and none
/// is there twice. So the archetypes are the same as before if and only if their number is, which is
/// what `World::archetypes_generation` tells. The number of the world never changes.
pub proof fn law_archetypes_only_grow<V>(m: WorldModel<V>, steps: Seq<Step<V>>)
    ensures
        m.archetypes.is_prefix_of(run(m, steps).archetypes),
        m.archetypes.no_duplicates() ==> run(m, steps).archetypes.no_duplicates(),
        run(m, steps).archetypes.len() == m.archetypes.len() <==> run(m, steps).archetypes == m.archetypes,
        run(m, steps).id == m.id,
    decreases steps.len(),
{
    if steps.len() > 0 {
        law_archetypes_only_grow(m, steps.drop_last());
        lemma_after(run(m, steps.drop_last()), steps.last());
    }
    if run(m, steps).archetypes.len() == m.archetypes.len() {
        assert(run(m, steps).archetypes =~= m.archetypes);
    }
}

/// What `World::archetypes_generation` returned before and after any run of operations is the same if
/// and only if the archetypes are: those of the same component types, in the same order.
pub proof fn law_generation_tells<V>(
    m: WorldModel<V>,
    steps: Seq<Step<V>>,
    before: ArchetypesGeneration,
    now: ArchetypesGeneration,
)
    requires
        before@ == m.archetypes.len(),
        now@ == run(m, steps).archetypes.len(),
    ensures
        now == before <==> run(m, steps).archetypes == m.archetypes,
{
    law_archetypes_only_grow(m, steps);
    ArchetypesGeneration::lemma_same(before, now);
}

/// Exchanging components has the same effect as removing the old ones and then inserting the new
/// ones, and returns what the removal does; where the removal is refused, so is the exchange, and
/// nothing but the reserved entities is created. Whenever there is room for the archetypes of an
/// exchange, there is for the removal and for the insertion.
pub proof fn law_exchange<V>(m: WorldModel<V>, e: Entity, fields: Seq<TypeId>, components: Map<TypeId, V>)
    requires
        m.wf(),
        removal(m, e, fields) is Ok ==> {
            let kept = m.components(e).dom().difference(fields.to_set());
            &&& m.can_hold(kept)
            &&& m.with_archetype(kept).can_hold(kept.union(components.dom()))
        },
    ensures
        ({
            let removed = after(m, Step::Remove { entity: e, fields });
            let exchanged = after(m, Step::Exchange { entity: e, fields, components });
            match removal(m, e, fields) {
                Ok(_) => {
                    &&& m.can_hold(m.components(e).dom().difference(fields.to_set()))
                    &&& removed.contains(e)
                    &&& removed.can_hold(removed.components(e).dom().union(components.dom()))
                    &&& exchanged == after(removed, Step::Insert { entity: e, components })
                },
                Err(_) => removed == m.flushed() && exchanged == m.flushed(),
            }
        }),
{
    law_flush(m);
    if removal(m, e, fields) is Ok {
        let s = fields.to_set();
        let removed = m.flushed().removed(e, s);
        assert(m.flushed().contains(e));
        assert(m.flushed().components(e) == m.components(e));
        assert(removed.components(e).dom() =~= m.components(e).dom().difference(s));
        assert(removed.flushed() =~= removed);
    }
}

} // verus!

//! What removing components yields, and what operations do one after the other.
use vstd::prelude::*;

use crate::entities::Entity;
use crate::errors::ComponentError;
use crate::history::{after, run, Step};
use crate::model::WorldModel;
use crate::types::TypeId;
use crate::world::{first_missing, lemma_claimed_all, outcome, removal};

verus! {

/// No type is missing if all of them are present. Otherwise the one that is missing is the first of them
/// that is not present: all those before it are.
pub proof fn law_first_missing(fields: Seq<TypeId>, present: Set<TypeId>)
    ensures
        match first_missing(fields, present) {
            None => forall|i: int| 0 <= i < fields.len() ==> present.contains(#[trigger] fields[i]),
            Some(ty) => exists|k: int|
                {
                    &&& 0 <= k < fields.len()
                    &&& #[trigger] fields[k] == ty
                    &&& !present.contains(ty)
                    &&& forall|i: int| 0 <= i < k ==> present.contains(#[trigger] fields[i])
                },
        },
    decreases fields.len(),
{
    if fields.len() > 0 && present.contains(fields[0]) {
        let rest = fields.drop_first();
        law_first_missing(rest, present);
        match first_missing(rest, present) {
            None => {
                assert forall|i: int| 0 <= i < fields.len() implies present.contains(#[trigger] fields[i]) by {
                    if i > 0 {
                        assert(present.contains(rest[i - 1]));
                    }
                }
            },
            Some(ty) => {
                let k = choose|k: int|
                    {
                        &&& 0 <= k < rest.len()
                        &&& #[trigger] rest[k] == ty
                        &&& !present.contains(ty)
                        &&& forall|i: int| 0 <= i < k ==> present.contains(#[trigger] rest[i])
                    };
                assert(fields[k + 1] == ty);
                assert forall|i: int| 0 <= i < k + 1 implies present.contains(#[trigger] fields[i]) by {
                    if i > 0 {
                        assert(present.contains(rest[i - 1]));
                    }
                }
            },
        }
    }
}

/// Components are removed from an entity that the world contains and that has them all; what is returned
/// is the component of each type, in the order of the types. Otherwise the error is that there is no such
/// entity, or the first of the types of which it has no component.
pub proof fn law_removal<V>(m: WorldModel<V>, e: Entity, fields: Seq<TypeId>)
    ensures
        removal(m, e, fields) is Ok <==> m.contains(e) && forall|i: int|
            0 <= i < fields.len() ==> m.components(e).contains_key(#[trigger] fields[i]),
        match removal(m, e, fields) {
            Ok(values) => {
                &&& values.len() == fields.len()
                &&& forall|i: int| 0 <= i < fields.len() ==> #[trigger] values[i] == m.components(e)[fields[i]]
            },
            Err(ComponentError::NoSuchEntity) => !m.contains(e),
            Err(ComponentError::MissingComponent(x)) => {
                &&& m.contains(e)
                &&& exists|k: int|
                    {
                        &&& 0 <= k < fields.len()
                        &&& #[trigger] fields[k] == x.ty
                        &&& !m.components(e).contains_key(x.ty)
                        &&& forall|i: int| 0 <= i < k ==> m.components(e).contains_key(#[trigger] fields[i])
                    }
            },
        },
{
    let present = m.components(e).dom();
    law_first_missing(fields, present);
    if m.contains(e) {
        match first_missing(fields, present) {
            None => {
                assert forall|i: int| 0 <= i < fields.len() implies m.components(e).contains_key(#[trigger] fields[i]) by {
                    assert(present.contains(fields[i]));
                }
            },
            Some(ty) => {
                let k = choose|k: int|
                    {
                        &&& 0 <= k < fields.len()
                        &&& #[trigger] fields[k] == ty
                        &&& !present.contains(ty)
                        &&& forall|i: int| 0 <= i < k ==> present.contains(#[trigger] fields[i])
                    };
                assert(!m.components(e).contains_key(fields[k]));
                assert forall|i: int| 0 <= i < k implies m.components(e).contains_key(#[trigger] fields[i]) by {
                    assert(present.contains(fields[i]));
                }
            },
        }
    }
}

/// The outcome of a removal is its values, in their order, or its error.
pub proof fn law_outcome<V>(r: Result<Vec<V>, ComponentError>)
    ensures
        match r {
            Ok(values) => outcome(r) is Ok && outcome(r)->Ok_0.len() == values@.len() && forall|i: int|
                0 <= i < values@.len() ==> #[trigger] outcome(r)->Ok_0[i] == values@[i],
            Err(e) => outcome(r) is Err && outcome(r)->Err_0 == e,
        },
{
}

/// Operations take effect one after the other, each on what those before it left.
pub proof fn law_run<V>(m: WorldModel<V>, first: Seq<Step<V>>, second: Seq<Step<V>>, step: Step<V>)
    ensures
        run(m, Seq::empty()) == m,
        run(m, first.push(step)) == after(run(m, first), step),
        run(m, first + second) == run(run(m, first), second),
    decreases second.len(),
{
    assert(first.push(step).drop_last() =~= first);
    assert(first.push(step).last() == step);
    if second.len() == 0 {
        assert(first + second =~= first);
    } else {
        let fewer = second.drop_last();
        law_run(m, first, fewer, step);
        assert((first + second).drop_last() =~= first + fewer);
        assert((first + second).last() == second.last());
    }
}

/// Creating entities first creates the reserved ones, and then the new ones: one under the next handle, or
/// one at a given handle, or one for each row.
pub proof fn law_creating_steps<V>(
    m: WorldModel<V>,
    e: Entity,
    components: Map<TypeId, V>,
    types: Set<TypeId>,
    rows: Seq<Map<TypeId, V>>,
)
    ensures
        after(m, Step::Spawn { components }) == after(m, Step::Flush).spawned(components),
        after(m, Step::SpawnAt { handle: e, components }) == after(m, Step::Flush).spawned_at(e, components),
        after(m, Step::Extend { rows: seq![components] }) == after(m, Step::Spawn { components }),
        after(m, Step::Extend { rows: Seq::empty() }) == m,
        rows.len() > 0 ==> after(m, Step::Extend { rows: rows.push(components) }) == after(m, Step::Extend { rows }).spawned(
            components,
        ),
        after(m, Step::SpawnBatch { types, rows: Seq::empty() }) == after(m, Step::Reserve { types }),
        after(m, Step::SpawnBatch { types, rows: rows.push(components) }) == after(m, Step::SpawnBatch { types, rows }).spawned(
            components,
        ),
        after(m, Step::Reserve { types }) == after(m, Step::Flush).with_archetype(types),
{
    let one = seq![components];
    assert(one.drop_last() =~= Seq::empty());
    assert(m.flushed().spawned_all(one.drop_last()) == m.flushed());
    assert(rows.push(components).drop_last() =~= rows);
}

/// Creating the entities of a column batch first creates the reserved ones. The new ones have the handles
/// that are used at once, or the given ones, in order, and each the components of its row.
pub proof fn law_column_steps<V>(
    m: WorldModel<V>,
    handles: Seq<Entity>,
    types: Set<TypeId>,
    rows: Seq<Map<TypeId, V>>,
    e: Entity,
    components: Map<TypeId, V>,
)
    requires
        handles.len() == rows.len(),
    ensures
        ({
            let n = after(m, Step::SpawnColumnBatch { types, rows });
            let used = m.flushed().advanced_many(rows.len());
            &&& n.live == m.flushed().with_entities(m.next_handles(rows.len()), rows).live
            &&& n.freelist == used.freelist
            &&& n.next_id == used.next_id
            &&& n.archetypes == m.with_archetype(types).archetypes
        }),
        ({
            let n = after(m, Step::SpawnColumnBatchAt { handles, types, rows });
            let claimed = m.flushed().claimed_all(handles);
            &&& n.live == claimed.with_entities(handles, rows).live
            &&& n.freelist == claimed.freelist
            &&& n.next_id == claimed.next_id
            &&& n.archetypes == m.with_archetype(types).archetypes
        }),
        m.with_entities(Seq::empty(), Seq::empty()) == m,
        m.with_entities(handles.push(e), rows.push(components)).live == m.with_entities(handles, rows).live.insert(
            e,
            components,
        ),
{
    lemma_with_entities_frame(m.flushed().advanced_many(rows.len()), m.flushed(), m.next_handles(rows.len()), rows);
    lemma_with_entities_frame(m.flushed().claimed_all(handles), m.flushed().claimed_all(handles), handles, rows);
    lemma_claimed_all(m.flushed(), handles);
    assert(handles.push(e).drop_last() =~= handles);
    assert(rows.push(components).drop_last() =~= rows);
}

/// Entities that are given components concern nothing but the live entities.
proof fn lemma_with_entities_frame<V>(m: WorldModel<V>, n: WorldModel<V>, handles: Seq<Entity>, rows: Seq<Map<TypeId, V>>)
    requires
        m.live == n.live,
    ensures
        m.with_entities(handles, rows).live == n.with_entities(handles, rows).live,
        m.with_entities(handles, rows).freelist == m.freelist,
        m.with_entities(handles, rows).next_id == m.next_id,
        m.with_entities(handles, rows).archetypes == m.archetypes,
        m.with_entities(handles, rows).reserved == m.reserved,
        m.with_entities(handles, rows).id == m.id,
    decreases handles.len(),
{
    if handles.len() > 0 {
        lemma_with_entities_frame(m, n, handles.drop_last(), rows.drop_last());
    }
}

/// Reserving handles makes them reserved and no longer free, and creates nothing yet.
pub proof fn law_reserving_steps<V>(m: WorldModel<V>, count: nat)
    ensures
        ({
            let n = after(m, Step::ReserveEntity);
            &&& n.reserved == m.reserved.insert(m.next_entity())
            &&& n.live == m.live
            &&& n.freelist == m.advanced().freelist
            &&& n.next_id == m.advanced().next_id
            &&& n.archetypes == m.archetypes
        }),
        ({
            let n = after(m, Step::ReserveEntities { count });
            &&& forall|e: Entity| #[trigger] n.reserved.contains(e) <==> m.reserved.contains(e) || m.next_handles(count).contains(e)
            &&& n.live == m.live
            &&& n.freelist == m.advanced_many(count).freelist
            &&& n.next_id == m.advanced_many(count).next_id
            &&& n.archetypes == m.archetypes
        }),
{
}

/// An operation on an entity that the world contains first creates the reserved entities: destroying it,
/// inserting components, removing those that it has, and exchanging them for others.
pub proof fn law_changing_steps<V>(m: WorldModel<V>, e: Entity, fields: Seq<TypeId>, components: Map<TypeId, V>)
    requires
        m.contains(e),
        forall|i: int| 0 <= i < fields.len() ==> m.components(e).contains_key(#[trigger] fields[i]),
    ensures
        after(m, Step::Despawn { entity: e }) == after(m, Step::Flush).despawned(e),
        after(m, Step::Insert { entity: e, components }) == after(m, Step::Flush).inserted(e, components),
        after(m, Step::Remove { entity: e, fields }) == after(m, Step::Flush).removed(e, fields.to_set()),
        after(m, Step::Exchange { entity: e, fields, components }) == after(m, Step::Flush).removed(
            e,
            fields.to_set(),
        ).inserted(e, components),
        after(m, Step::Flush) == m.flushed(),
{
    law_removal(m, e, fields);
}

/// Clearing a world creates nothing, and neither does giving it other free handles.
pub proof fn law_other_steps<V>(m: WorldModel<V>, list: Seq<Entity>)
    ensures
        after(m, Step::Clear) == m.cleared(),
        after(m, Step::SetFreelist { list }) == m.with_freelist(list),
{
}

/// Writing components through a borrow leaves everything but the components as it was.
pub proof fn law_write<V>(m: WorldModel<V>, live: Map<Entity, Map<TypeId, V>>)
    ensures
        ({
            let n = after(m, Step::Write { live });
            &&& n.live == live
            &&& n.id == m.id
            &&& n.reserved == m.reserved
            &&& n.freelist == m.freelist
            &&& n.next_id == m.next_id
            &&& n.archetypes == m.archetypes
        }),
{
}

/// An operation that is refused, because there is no such entity or a component is missing, still creates
/// the reserved entities and does nothing else.
pub proof fn law_refused<V>(m: WorldModel<V>, e: Entity, fields: Seq<TypeId>, components: Map<TypeId, V>)
    ensures
        !m.contains(e) ==> {
            &&& after(m, Step::Despawn { entity: e }) == after(m, Step::Flush)
            &&& after(m, Step::Insert { entity: e, components }) == after(m, Step::Flush)
        },
        !m.contains(e) || (exists|i: int| 0 <= i < fields.len() && !m.components(e).contains_key(#[trigger] fields[i])) ==> {
            &&& after(m, Step::Remove { entity: e, fields }) == after(m, Step::Flush)
            &&& after(m, Step::Exchange { entity: e, fields, components }) == after(m, Step::Flush)
        },
{
    law_removal(m, e, fields);
}

} // verus!

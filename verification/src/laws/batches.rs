//! What becomes of each entity that is created together with others.
use vstd::prelude::*;

use super::{law_batch_creates_all, law_flush};
use crate::bundle::DynamicBundle;
use crate::column_batch::ColumnBatch;
use crate::entities::Entity;
use crate::laws::places::law_row_components;
use crate::model::WorldModel;
use crate::types::{lemma_row_map_at, row_map, TypeId};
use crate::world::{batch_rows, bundle_keys, bundle_maps, bundle_types, lemma_with_entities, next_ids};

verus! {

/// A row gives each type the value at the position of the type, and no other type one.
pub proof fn law_row<V>(types: Seq<TypeId>, row: Seq<V>)
    requires
        types.no_duplicates(),
        row.len() == types.len(),
    ensures
        forall|ty: TypeId| #[trigger] row_map(types, row).contains_key(ty) <==> types.contains(ty),
        forall|k: int| 0 <= k < types.len() ==> row_map(types, row)[#[trigger] types[k]] == row[k],
{
    assert forall|k: int| 0 <= k < types.len() implies row_map(types, row)[#[trigger] types[k]] == row[k] by {
        lemma_row_map_at(types, row, k);
    }
}

/// A bundle gives each of its types the value at the position of the type, and no other type one.
pub proof fn law_bundle<V>(bundle: DynamicBundle<V>)
    requires
        bundle.wf(),
    ensures
        forall|ty: TypeId| #[trigger] bundle@.contains_key(ty) <==> bundle.types_view().contains(ty),
        forall|k: int| 0 <= k < bundle.types_view().len() ==> bundle@[#[trigger] bundle.types_view()[k]] == bundle.values_view()[k],
{
    let types = bundle.types_view();
    assert forall|i: int, j: int| 0 <= i < types.len() && 0 <= j < types.len() && i != j implies types[i] != types[j] by {
        if i < j {
            assert(types[i] < types[j]);
        } else {
            assert(types[j] < types[i]);
        }
    }
    law_row(types, bundle.values_view());
}

/// Each row of a batch gives every type of the bundle the value at the position of the type.
pub proof fn law_batch_rows<V>(fields: Seq<TypeId>, batch: Seq<Vec<V>>)
    requires
        fields.no_duplicates(),
        forall|i: int| 0 <= i < batch.len() ==> (#[trigger] batch[i])@.len() == fields.len(),
    ensures
        batch_rows(fields, batch).len() == batch.len(),
        forall|i: int, ty: TypeId|
            0 <= i < batch.len() ==> (#[trigger] batch_rows(fields, batch)[i].contains_key(ty) <==> fields.contains(ty)),
        forall|i: int, k: int|
            0 <= i < batch.len() && 0 <= k < fields.len() ==> batch_rows(fields, batch)[i][fields[k]] == #[trigger] batch[i]@[k],
{
    assert forall|i: int, k: int| 0 <= i < batch.len() && 0 <= k < fields.len() implies batch_rows(fields, batch)[i][fields[k]]
        == #[trigger] batch[i]@[k] by {
        lemma_row_map_at(fields, batch[i]@, k);
    }
}

/// Once a batch is created, the entity of the handle at a position has the component types of the
/// bundle and no others, and of each type the value that the row at this position lists where the
/// bundle lists the type. Every entity that existed before has the components that it had.
pub proof fn law_spawn_batch<V>(m: WorldModel<V>, fields: Seq<TypeId>, batch: Seq<Vec<V>>)
    requires
        m.wf(),
        m.has_room(batch.len()),
        fields.no_duplicates(),
        forall|i: int| 0 <= i < batch.len() ==> (#[trigger] batch[i])@.len() == fields.len(),
    ensures
        ({
            let after = m.flushed().with_archetype(fields.to_set()).spawned_all(batch_rows(fields, batch));
            &&& forall|i: int| 0 <= i < batch.len() ==> after.live.contains_key(#[trigger] m.nth_entity(i))
            &&& forall|i: int, ty: TypeId|
                0 <= i < batch.len() ==> (#[trigger] after.live[m.nth_entity(i)].contains_key(ty) <==> fields.contains(ty))
            &&& forall|i: int, k: int|
                0 <= i < batch.len() && 0 <= k < fields.len() ==> after.live[m.nth_entity(i)][fields[k]] == #[trigger] batch[i]@[k]
            &&& forall|x: Entity| #[trigger]
                m.contains(x) ==> after.live.contains_key(x) && after.live[x] == m.components(x)
        }),
{
    let rows = batch_rows(fields, batch);
    let after = m.flushed().with_archetype(fields.to_set()).spawned_all(rows);
    law_batch_rows(fields, batch);
    lemma_created(m, fields.to_set(), rows);
    assert forall|i: int, ty: TypeId| 0 <= i < batch.len() implies (#[trigger] after.live[m.nth_entity(i)].contains_key(ty)
        <==> fields.contains(ty)) by {
        assert(rows[i].contains_key(ty) <==> fields.contains(ty));
    }
    assert forall|i: int, k: int| 0 <= i < batch.len() && 0 <= k < fields.len() implies after.live[m.nth_entity(i)][fields[k]]
        == #[trigger] batch[i]@[k] by {
        assert(rows[i][fields[k]] == batch[i]@[k]);
    }
}

proof fn lemma_created<V>(m: WorldModel<V>, types: Set<TypeId>, rows: Seq<Map<TypeId, V>>)
    requires
        m.wf(),
        m.has_room(rows.len()),
    ensures
        ({
            let after = m.flushed().with_archetype(types).spawned_all(rows);
            &&& forall|i: int|
                0 <= i < rows.len() ==> after.live.contains_key(#[trigger] m.nth_entity(i)) && after.live[m.nth_entity(i)] == rows[i]
            &&& forall|x: Entity| #[trigger]
                m.contains(x) ==> after.live.contains_key(x) && after.live[x] == m.components(x)
        }),
{
    let after = m.flushed().with_archetype(types).spawned_all(rows);
    let handles = Seq::new(rows.len(), |i: int| m.nth_entity(i));
    law_flush(m);
    law_batch_creates_all(m, types, rows, 0);
    assert forall|i: int| 0 <= i < rows.len() implies after.live.contains_key(#[trigger] m.nth_entity(i))
        && after.live[m.nth_entity(i)] == rows[i] by {
        assert(handles[i] == m.nth_entity(i));
    }
    assert forall|x: Entity| #[trigger] m.contains(x) implies after.live.contains_key(x) && after.live[x] == m.components(x) by {
        assert(!handles.contains(x)) by {
            if handles.contains(x) {
                let i = choose|i: int| 0 <= i < handles.len() && handles[i] == x;
                assert(!m.contains(handles[i]));
            }
        }
        assert(after.contains(x));
        crate::world::lemma_spawned_all(m.flushed().with_archetype(types), rows);
    }
}

/// What some bundles hold is what each of them holds, at its position.
pub proof fn law_bundles<V>(list: Seq<DynamicBundle<V>>)
    ensures
        bundle_maps(list).len() == list.len(),
        bundle_types(list).len() == list.len(),
        bundle_keys(list).len() == list.len(),
        forall|i: int| 0 <= i < list.len() ==> #[trigger] bundle_maps(list)[i] == list[i]@,
        forall|i: int| 0 <= i < list.len() ==> #[trigger] bundle_types(list)[i] == list[i]@.dom(),
        forall|i: int| 0 <= i < list.len() ==> #[trigger] bundle_keys(list)[i] == list[i].key_view(),
{
}

/// Once a world is extended by a list, the entity that was created at a position has exactly the
/// components of the bundle at this position. Every entity that existed before has the components that
/// it had.
pub proof fn law_extend<V>(m: WorldModel<V>, list: Seq<DynamicBundle<V>>)
    requires
        m.wf(),
        m.has_room(list.len()),
        list.len() > 0,
    ensures
        ({
            let after = m.flushed().spawned_all(bundle_maps(list));
            &&& forall|i: int|
                0 <= i < list.len() ==> after.live.contains_key(#[trigger] m.nth_entity(i)) && after.live[m.nth_entity(i)]
                    == list[i]@
            &&& forall|x: Entity| #[trigger]
                m.contains(x) ==> after.live.contains_key(x) && after.live[x] == m.components(x)
        }),
{
    let rows = bundle_maps(list);
    let base = m.flushed();
    // An archetype that is there already adds nothing
    let types = m.archetypes[0];
    assert(m.archetypes.contains(types));
    assert(base.with_archetype(types) =~= base);
    lemma_created(m, types, rows);
}

/// In a new world, the entities of a list have the first IDs in order, and their components.
pub proof fn law_from_iter<V>(id: u64, list: Seq<DynamicBundle<V>>)
    requires
        list.len() <= u32::MAX,
    ensures
        ({
            let world = WorldModel::<V>::empty(id).spawned_all(bundle_maps(list));
            &&& world.len() == list.len()
            &&& forall|e: Entity| #[trigger] world.live.contains_key(e) <==> e.id < list.len() && e.generation == 1
            &&& forall|e: Entity| #[trigger] world.live.contains_key(e) ==> world.live[e] == list[e.id as int]@
        }),
{
    let m = WorldModel::<V>::empty(id);
    let world = m.spawned_all(bundle_maps(list));
    assert(m.live.dom() =~= Set::<Entity>::empty());
    assert(m.len() == 0);
    assert(m.wf());
    if list.len() > 0 {
        assert(m.flushed() =~= m);
        law_extend(m, list);
        law_batch_creates_all(m, m.archetypes[0], bundle_maps(list), 0);
        assert(m.archetypes.contains(m.archetypes[0]));
        assert(m.with_archetype(m.archetypes[0]) =~= m);
        assert(world.len() == list.len());
        assert forall|e: Entity| e.id < list.len() && e.generation == 1 implies #[trigger] world.live.contains_key(e)
            && world.live[e] == list[e.id as int]@ by {
            assert(m.nth_entity(e.id as int) == e);
        }
        let handles = Seq::new(list.len(), |i: int| m.nth_entity(i));
        assert forall|e: Entity| #[trigger] world.live.contains_key(e) implies e.id < list.len() && e.generation == 1 by {
            if !handles.contains(e) {
                assert(world.contains(e));
                assert(m.contains(e));
            } else {
                let i = choose|i: int| 0 <= i < handles.len() && handles[i] == e;
                assert(e == m.nth_entity(i));
            }
        }
    } else {
        assert(world == m);
    }
}

/// The next IDs are those of the entities that are created next, in turn.
pub proof fn law_next_ids<V>(m: WorldModel<V>, count: nat)
    ensures
        next_ids(m, count).len() == count,
        forall|i: int| 0 <= i < count ==> #[trigger] next_ids(m, count)[i] == m.nth_entity(i).id,
{
}

/// Entities that are given their components all at once have them, each at its position, if no handle
/// is listed twice; all others stay as they were.
pub proof fn law_with_entities<V>(m: WorldModel<V>, handles: Seq<Entity>, list: Seq<Map<TypeId, V>>)
    requires
        handles.no_duplicates(),
        handles.len() == list.len(),
    ensures
        ({
            let after = m.with_entities(handles, list);
            &&& forall|i: int| 0 <= i < handles.len() ==> after.live.contains_key(#[trigger] handles[i])
            &&& forall|i: int| 0 <= i < handles.len() ==> after.live[#[trigger] handles[i]] == list[i]
            &&& forall|e: Entity|
                !handles.contains(e) ==> (#[trigger] after.live.contains_key(e) <==> m.live.contains_key(e)) && (
                m.live.contains_key(e) ==> after.live[e] == m.live[e])
            &&& after.id == m.id
            &&& after.reserved == m.reserved
            &&& after.freelist == m.freelist
            &&& after.next_id == m.next_id
            &&& after.archetypes == m.archetypes
        }),
{
    let after = m.with_entities(handles, list);
    lemma_with_entities(m, handles, list);
    assert forall|i: int| 0 <= i < handles.len() implies after.live.contains_key(#[trigger] handles[i]) by {
        assert(handles.to_set().contains(handles[i]));
        assert(after.live.dom().contains(handles[i]));
    }
    assert forall|e: Entity| !handles.contains(e) implies (#[trigger] after.live.contains_key(e) <==> m.live.contains_key(e)) && (
    m.live.contains_key(e) ==> after.live[e] == m.live[e]) by {
        assert(after.live.dom().contains(e) <==> m.live.dom().contains(e));
    }
}

/// Every entity of a column batch has exactly the component types of the batch, and the components that
/// its row of the columns lists.
pub proof fn law_column_batch<V>(batch: ColumnBatch<V>, i: int)
    requires
        0 <= i < batch.rows().len(),
    ensures
        batch.rows().len() == batch.archetype_view().rows().len(),
        batch.rows()[i].dom() == batch.types_view(),
        forall|ty: TypeId| #[trigger]
            batch.types_view().contains(ty) <==> batch.archetype_view().types_view().contains(ty),
        batch.archetype_view().wf() ==> forall|c: int|
            0 <= c < batch.archetype_view().types_view().len() ==> batch.rows()[i][#[trigger] batch.archetype_view().types_view()[c]]
                == batch.archetype_view().rows()[i][c],
{
    assert(batch.rows()[i].dom() =~= batch.types_view());
    if batch.archetype_view().wf() {
        batch.archetype_view().lemma_shape();
        law_row_components(batch.archetype_view(), i);
    }
}

} // verus!

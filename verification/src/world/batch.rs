//! Creating many entities at once.
use spin::MutexGuard;
use vstd::prelude::*;

use super::storage::{lemma_row_count, lemma_same_rows};
use super::{consistent, World};
use crate::archetype::Archetype;
use crate::bundle::{Bundle, DynamicBundle};
use crate::column_batch::ColumnBatch;
use crate::entities::{ids_of, Entity, Location};
use crate::graph::GraphRecords;
use crate::history::{after, Step};
use crate::iter::{SpawnBatchIter, SpawnColumnBatchIter};
use crate::laws::batches::{law_extend, law_from_iter, law_spawn_batch, law_with_entities};
use crate::laws::{law_column_batch_creates_all, law_flush};
use crate::layout::{
    lemma_grown_same, lemma_rows_added, lemma_stored_each_grown, rows_added, rows_dropped, stored, stored_each,
};
use crate::maps::BundleKey;
use crate::model::{lemma_id_count, WorldModel};
use crate::types::{lemma_increasing_unique, row_map, TypeId};
use crate::world_id::{turn_taken, WorldIds};

verus! {

/// The components of each entity of a batch, by type; a row lists its values in the order of
/// `fields`.
pub open spec fn batch_rows<V>(fields: Seq<TypeId>, batch: Seq<Vec<V>>) -> Seq<Map<TypeId, V>> {
    batch.map_values(|row: Vec<V>| row_map(fields, row@))
}

/// Which handles are left after some entities are created one after the other.
pub proof fn lemma_spawned_all<V>(m: WorldModel<V>, list: Seq<Map<TypeId, V>>)
    ensures
        m.spawned_all(list).id == m.id,
        m.spawned_all(list).reserved == m.reserved,
        m.spawned_all(list).freelist == m.freelist.subrange(
            0,
            if list.len() <= m.freelist.len() {
                m.freelist.len() - list.len()
            } else {
                0
            },
        ),
        m.spawned_all(list).next_id == m.next_id + if list.len() <= m.freelist.len() {
            0
        } else {
            list.len() - m.freelist.len()
        },
        m.spawned_all(list).next_entity() == m.nth_entity(list.len() as int),
    decreases list.len(),
{
    if list.len() == 0 {
        assert(m.freelist.subrange(0, m.freelist.len() as int) =~= m.freelist);
    } else {
        lemma_spawned_all(m, list.drop_last());
        let before = m.spawned_all(list.drop_last());
        let after = m.spawned_all(list);
        assert(after == before.spawned(list.last()));
        let left: int = if list.len() <= m.freelist.len() {
            m.freelist.len() - list.len()
        } else {
            0
        };
        assert(after.freelist =~= m.freelist.subrange(0, left));
    }
}

/// The components of some bundles, by type.
pub open spec fn bundle_maps<V>(list: Seq<DynamicBundle<V>>) -> Seq<Map<TypeId, V>> {
    list.map_values(|b: DynamicBundle<V>| b@)
}

/// The component types of some bundles.
pub open spec fn bundle_types<V>(list: Seq<DynamicBundle<V>>) -> Seq<Set<TypeId>> {
    list.map_values(|b: DynamicBundle<V>| b@.dom())
}

/// The keys of some bundles.
pub open spec fn bundle_keys<V>(list: Seq<DynamicBundle<V>>) -> Seq<Option<BundleKey>> {
    list.map_values(|b: DynamicBundle<V>| b.key_view())
}

/// The IDs of the next `count` entities that are created one after the other.
pub open spec fn next_ids<V>(m: WorldModel<V>, count: nat) -> Seq<u32> {
    Seq::new(count, |i: int| m.nth_entity(i).id)
}

/// More entities have no fewer archetypes.
proof fn lemma_archetypes_grow<V>(m: WorldModel<V>, list: Seq<Map<TypeId, V>>, count: int)
    requires
        0 <= count <= list.len(),
    ensures
        m.spawned_all(list.take(count)).archetypes.len() <= m.spawned_all(list).archetypes.len(),
    decreases list.len() - count,
{
    if count == list.len() {
        assert(list.take(count) =~= list);
    } else {
        assert(list.take(count + 1).drop_last() =~= list.take(count));
        lemma_archetypes_grow(m, list, count + 1);
    }
}

/// Which archetypes come about depends on the archetypes there were and nothing else.
proof fn lemma_same_archetypes<V>(m: WorldModel<V>, n: WorldModel<V>, list: Seq<Map<TypeId, V>>)
    requires
        m.archetypes == n.archetypes,
    ensures
        m.spawned_all(list).archetypes == n.spawned_all(list).archetypes,
    decreases list.len(),
{
    if list.len() > 0 {
        lemma_same_archetypes(m, n, list.drop_last());
    }
}

/// What is live once each of some distinct handles has its components.
pub proof fn lemma_with_entities<V>(m: WorldModel<V>, handles: Seq<Entity>, list: Seq<Map<TypeId, V>>)
    requires
        handles.no_duplicates(),
        handles.len() == list.len(),
    ensures
        m.with_entities(handles, list) == (WorldModel { live: m.with_entities(handles, list).live, ..m }),
        m.with_entities(handles, list).live.dom() == m.live.dom().union(handles.to_set()),
        forall|i: int| 0 <= i < handles.len() ==> m.with_entities(handles, list).live[#[trigger] handles[i]] == list[i],
        forall|e: Entity|
            m.live.contains_key(e) && !handles.contains(e) ==> #[trigger] m.with_entities(handles, list).live[e] == m.live[e],
    decreases handles.len(),
{
    let all = m.with_entities(handles, list);
    if handles.len() == 0 {
        assert(all.live.dom() =~= m.live.dom().union(handles.to_set()));
    } else {
        let fewer = handles.drop_last();
        let e = handles.last();
        lemma_with_entities(m, fewer, list.drop_last());
        assert forall|x: Entity| handles.contains(x) <==> fewer.contains(x) || x == e by {
            if fewer.contains(x) {
                let i = choose|i: int| 0 <= i < fewer.len() && fewer[i] == x;
                assert(handles[i] == x);
            }
            if handles.contains(x) && x != e {
                let i = choose|i: int| 0 <= i < handles.len() && handles[i] == x;
                assert(fewer[i] == x);
            }
            assert(handles[handles.len() - 1] == e);
        }
        assert(all.live.dom() =~= m.live.dom().union(handles.to_set()));
        assert forall|i: int| 0 <= i < handles.len() implies all.live[#[trigger] handles[i]] == list[i] by {
            if i < fewer.len() {
                assert(fewer[i] == handles[i]);
            }
        }
    }
}

/// What is live once the IDs of some handles are in use for something else.
pub proof fn lemma_claimed_all<V>(m: WorldModel<V>, handles: Seq<Entity>)
    ensures
        m.claimed_all(handles).live == m.live.filter_keys(|e: Entity| !ids_of(handles).contains(e.id)),
        m.claimed_all(handles).id == m.id,
        m.claimed_all(handles).reserved == m.reserved,
        m.claimed_all(handles).archetypes == m.archetypes,
    decreases handles.len(),
{
    let all = m.claimed_all(handles);
    let kept = m.live.filter_keys(|e: Entity| !ids_of(handles).contains(e.id));
    if handles.len() == 0 {
        assert(all.live =~= kept);
    } else {
        let fewer = handles.drop_last();
        lemma_claimed_all(m, fewer);
        assert forall|id: u32| ids_of(handles).contains(id) <==> ids_of(fewer).contains(id) || id == handles.last().id by {
            if ids_of(fewer).contains(id) {
                let i = choose|i: int| 0 <= i < fewer.len() && ids_of(fewer)[i] == id;
                assert(ids_of(handles)[i] == id);
            }
            if ids_of(handles).contains(id) && id != handles.last().id {
                let i = choose|i: int| 0 <= i < handles.len() && ids_of(handles)[i] == id;
                assert(ids_of(fewer)[i] == id);
            }
            assert(ids_of(handles)[handles.len() - 1] == handles.last().id);
        }
        assert(all.live =~= kept);
    }
}

/// Of more handles, no fewer have unused IDs.
proof fn lemma_newcomers_grow<V>(m: WorldModel<V>, handles: Seq<Entity>, count: int)
    requires
        0 <= count <= handles.len(),
    ensures
        m.newcomers(handles.take(count)) <= m.newcomers(handles),
    decreases handles.len() - count,
{
    if count == handles.len() {
        assert(handles.take(count) =~= handles);
    } else {
        assert(handles.take(count + 1).drop_last() =~= handles.take(count));
        lemma_newcomers_grow(m, handles, count + 1);
    }
}

impl<V> World<V> {
    /// Efficiently spawn a large number of entities with the same statically-typed components.
    ///
    /// Each row of `batch` lists its components in the order of the bundle's types. Faster than
    /// calling `spawn` repeatedly with the same components.
    pub fn spawn_batch(&mut self, bundle: &Bundle, batch: Vec<Vec<V>>) -> (r: SpawnBatchIter)
        requires
            old(self).wf(),
            forall|i: int| 0 <= i < batch@.len() ==> (#[trigger] batch@[i])@.len() == bundle.fields().len(),
            old(self).model().has_room(batch@.len()),
            old(self).model().can_hold(bundle.fields().to_set()),
        ensures
            final(self).wf(),
            final(self).model() == after(old(self).model(), Step::SpawnBatch { types: bundle.fields().to_set(), rows: batch_rows(bundle.fields(), batch@) }),
            r.remaining() == Seq::new(batch@.len(), |i: int| old(self).model().nth_entity(i)),
            final(self).model() == old(self).model().flushed().with_archetype(bundle.fields().to_set()).spawned_all(
                batch_rows(bundle.fields(), batch@),
            ),
            final(self).model().len() == old(self).model().len() + old(self).model().reserved.len() + batch@.len(),
            final(self).layout() == stored(
                old(self).flushed_layout(),
                final(self).model().archetypes,
                bundle.fields().to_set(),
                ids_of(r.remaining()),
            ),
            final(self).records() == old(self).records().with_bundle(
                bundle.key_view(),
                final(self).model().archetypes.index_of(bundle.fields().to_set()) as u32,
            ),
            forall|i: int|
                0 <= i < batch@.len() ==> {
                    &&& final(self).model().live.contains_key(#[trigger] r.remaining()[i])
                    &&& final(self).model().live[r.remaining()[i]].dom() == bundle.fields().to_set()
                },
            forall|i: int, k: int|
                0 <= i < batch@.len() && 0 <= k < bundle.fields().len() ==> final(self).model().live[r.remaining()[i]][bundle.fields()[k]]
                    == #[trigger] batch@[i]@[k],
            forall|x: Entity| #[trigger]
                old(self).model().contains(x) ==> final(self).model().live.contains_key(x) && final(self).model().live[x]
                    == old(self).model().components(x),
    {
        let ghost start = *self;
        proof {
            self.lemma_wf();
            use_type_invariant(bundle);
            law_spawn_batch(self.model(), bundle.fields(), batch@);
        }
        let ghost rows = batch_rows(bundle.fields(), batch@);
        let ghost fields = bundle.fields();
        let ghost n = batch@.len() as int;
        let archetype: u32 = self.reserve_inner(bundle, batch.len() as u32);
        let ghost m0 = self.model();
        let ghost layout0 = self.layout();
        let ghost records0 = self.records();
        let ghost types = self.archetypes.archs()[archetype as int].types_view();
        let mut entities: Vec<Entity> = Vec::new();
        proof {
            assert(rows.subrange(0, 0) =~= Seq::<Map<TypeId, V>>::empty());
            self.lemma_wf();
            lemma_id_count(m0);
            assert(m0.archetypes[archetype as int] == fields.to_set());
            self.lemma_layout();
            lemma_rows_added(layout0, archetype as int, Seq::empty(), Seq::empty());
            assert(ids_of(entities@) =~= Seq::<u32>::empty());
        }
        for row in it: batch
            invariant
                it.seq() == batch@,
                n == batch@.len(),
                rows == batch_rows(fields, batch@),
                fields == bundle.fields(),
                forall|i: int| 0 <= i < batch@.len() ==> (#[trigger] batch@[i])@.len() == fields.len(),
                self.wf(),
                self.entities.flushed(),
                m0.reserved == Set::<Entity>::empty(),
                m0.len() + n <= u32::MAX,
                m0.next_id == m0.len() + m0.freelist.len(),
                m0.archetypes.contains(fields.to_set()),
                self.model() == m0.spawned_all(rows.subrange(0, it.index() as int)),
                self.model().archetypes == m0.archetypes,
                archetype < self.archetypes.archs().len(),
                self.archetypes.archs()[archetype as int].types_view() == types,
                types.to_set() == fields.to_set(),
                entities@ == Seq::new(it.index() as nat, |i: int| m0.nth_entity(i)),
                archetype < layout0.len(),
                self.layout() == rows_added(layout0, archetype as int, ids_of(entities@)),
                self.records() == records0,
        {
            let ghost i = it.index() as int;
            let ghost before = *self;
            let ghost so_far = entities@;
            proof {
                lemma_spawned_all(m0, rows.subrange(0, i));
                self.lemma_wf();
                lemma_id_count(self.model());
                assert(row@.len() == batch@[i]@.len());
            }
            let e: Entity = self.alloc_entity();
            let ghost middle = *self;
            let ghost limbo = set![e.id];
            let values = bundle.with_values(row);
            proof {
                use_type_invariant(&values);
                assert(values@ == rows[i]);
                assert(values@.dom() =~= values.types_view().to_set());
                assert(values@.dom() =~= fields.to_set());
                self.archetypes.archs()[archetype as int].lemma_shape();
                lemma_increasing_unique(values.types_view(), types);
            }
            self.attach(e.id, archetype, values.into_values(), Ghost(limbo));
            entities.push(e);
            proof {
                assert(limbo.remove(e.id) =~= Set::<u32>::empty());
                self.lemma_same_but_rows(&middle, limbo);
                assert(self.archetypes.type_lists()[archetype as int] == types);
                assert(rows.subrange(0, i + 1).drop_last() =~= rows.subrange(0, i));
                assert(self.model() =~= before.model().spawned(rows[i]));
                assert(entities@ =~= Seq::new((i + 1) as nat, |i: int| m0.nth_entity(i)));
                lemma_rows_added(layout0, archetype as int, ids_of(so_far), seq![e.id]);
                assert(ids_of(entities@) =~= ids_of(so_far) + seq![e.id]);
            }
        }
        proof {
            assert(rows.subrange(0, n) =~= rows);
            lemma_spawned_all(m0, rows);
            self.lemma_wf();
            lemma_id_count(self.model());
            assert(entities@ =~= Seq::new(batch@.len(), |i: int| start.model().nth_entity(i)));
            assert forall|i: int| 0 <= i < batch@.len() implies {
                &&& self.model().live.contains_key(#[trigger] entities@[i])
                &&& self.model().live[entities@[i]].dom() == fields.to_set()
            } by {
                let e = start.model().nth_entity(i);
                assert(entities@[i] == e);
                assert forall|ty: TypeId| self.model().live[e].dom().contains(ty) <==> fields.to_set().contains(ty) by {
                    assert(self.model().live[e].contains_key(ty) <==> fields.contains(ty));
                }
                assert(self.model().live[e].dom() =~= fields.to_set());
            }
        }
        SpawnBatchIter::new(entities)
    }

    /// Super-efficiently spawn the contents of a `ColumnBatch`.
    ///
    /// The fastest, but most specialized, way to spawn large numbers of entities. Useful for high
    /// performance deserialization. Supports dynamic component types.
    pub fn spawn_column_batch(&mut self, batch: ColumnBatch<V>) -> (r: SpawnColumnBatchIter)
        requires
            old(self).wf(),
            old(self).model().has_room(batch.rows().len()),
            old(self).model().can_hold(batch.types_view()),
        ensures
            final(self).wf(),
            final(self).model() == after(old(self).model(), Step::SpawnColumnBatch { types: batch.types_view(), rows: batch.rows() }),
            r.remaining() == old(self).model().next_handles(batch.rows().len()),
            final(self).model() == old(self).model().flushed().advanced_many(batch.rows().len()).with_entities(
                r.remaining(),
                batch.rows(),
            ).with_archetype(batch.types_view()),
            final(self).model().len() == old(self).model().len() + old(self).model().reserved.len() + batch.rows().len(),
            final(self).layout() == stored(
                old(self).flushed_layout(),
                final(self).model().archetypes,
                batch.types_view(),
                ids_of(r.remaining()),
            ),
            final(self).records() == old(self).records(),
            forall|i: int|
                0 <= i < batch.rows().len() ==> final(self).model().live.contains_key(#[trigger] r.remaining()[i])
                    && final(self).model().live[r.remaining()[i]] == batch.rows()[i],
            forall|x: Entity| #[trigger]
                old(self).model().contains(x) ==> final(self).model().live.contains_key(x) && final(self).model().live[x]
                    == old(self).model().components(x),
    {
        let ghost start = self.model();
        proof {
            self.lemma_wf();
            law_flush(start);
            law_column_batch_creates_all(start, batch.types_view(), batch.rows(), 0);
        }
        let ghost rows = batch.rows();
        let ghost n = rows.len();
        proof {
            use_type_invariant(&batch);
            batch.archetype_view().lemma_shape();
        }
        let count: u32 = batch.len();
        let archetype = batch.into_archetype();
        self.flush_inner();
        let ghost flushed = *self;
        proof {
            assert(self.model().live.dom() =~= self.entities.live());
        }
        proof {
            self.lemma_wf();
            lemma_id_count(self.model());
        }
        let ids = self.entities.alloc_many(count);
        let ghost allocated = *self;
        let ghost handles = flushed.model().next_handles(n);
        proof {
            lemma_same_rows(flushed.entities, self.entities, self.archetypes.archs());
            assert(self.entities.freelist_view() =~= flushed.model().advanced_many(n).freelist);
            assert(self.entities.reserved_view() =~= Seq::<Entity>::empty());
            assert(self.model().reserved =~= Set::<Entity>::empty());
            assert(self.model() =~= flushed.model().advanced_many(n));
            assert(ids@.map_values(|id: u32| allocated.entities.handle(id)) =~= handles);
        }
        let entities = self.handles_of(&ids);
        self.place_batch(&ids, archetype);
        proof {
            assert(ids_of(handles) =~= ids@) by {
                assert forall|i: int| 0 <= i < n implies #[trigger] ids@[i] == ids_of(handles)[i] by {
                    assert(allocated.entities.handle(ids@[i]) == handles[i]);
                }
            }
            let m = flushed.model().advanced_many(n);
            assert(handles.no_duplicates()) by {
                assert forall|i: int, j: int| 0 <= i < n && 0 <= j < n && i != j implies handles[i] != handles[j] by {
                    assert(allocated.entities.handle(ids@[i]) == handles[i]);
                    assert(allocated.entities.handle(ids@[j]) == handles[j]);
                }
            }
            lemma_with_entities(m, handles, rows);
            let wanted = m.with_entities(handles, rows);
            assert(self.model().live =~= wanted.live) by {
                assert forall|e: Entity| wanted.live.contains_key(e) implies self.model().live[e] == wanted.live[e] by {
                    if handles.contains(e) {
                        let i = choose|i: int| 0 <= i < handles.len() && handles[i] == e;
                        assert(allocated.entities.handle(ids@[i]) == e);
                    } else {
                        assert(allocated.model().live.contains_key(e));
                    }
                }
            }
        }
        proof {
            self.lemma_wf();
            lemma_id_count(self.model());
            assert forall|x: Entity| #[trigger] start.contains(x) implies self.model().live.contains_key(x)
                && self.model().live[x] == start.components(x) by {
                assert(start.next_handles(n) == handles);
                assert(!handles.contains(x)) by {
                    if handles.contains(x) {
                        let i = choose|i: int| 0 <= i < handles.len() && handles[i] == x;
                        assert(!start.contains(handles[i]));
                    }
                }
                assert(self.model().contains(x));
            }
        }
        SpawnColumnBatchIter::new(entities)
    }

    /// Hybrid of `spawn_column_batch` and `spawn_at`.
    pub fn spawn_column_batch_at(&mut self, handles: &[Entity], batch: ColumnBatch<V>)
        requires
            old(self).wf(),
            handles@.len() == batch.rows().len(),
            ids_of(handles@).no_duplicates(),
            old(self).model().len() + old(self).model().reserved.len() + old(self).model().newcomers(handles@) <= u32::MAX,
            old(self).model().can_hold(batch.types_view()),
        ensures
            final(self).wf(),
            final(self).model() == after(old(self).model(), Step::SpawnColumnBatchAt { handles: handles@, types: batch.types_view(), rows: batch.rows() }),
            final(self).model() == old(self).model().flushed().claimed_all(handles@).with_entities(
                handles@,
                batch.rows(),
            ).with_archetype(batch.types_view()),
            final(self).model().len() == old(self).model().len() + old(self).model().reserved.len() + old(self).model().newcomers(handles@),
            final(self).layout() == stored(
                rows_dropped(old(self).flushed_layout(), ids_of(handles@)),
                final(self).model().archetypes,
                batch.types_view(),
                ids_of(handles@),
            ),
            final(self).records() == old(self).records(),
            forall|i: int|
                0 <= i < batch.rows().len() ==> final(self).model().live.contains_key(#[trigger] handles@[i])
                    && final(self).model().live[handles@[i]] == batch.rows()[i],
            forall|x: Entity| #[trigger]
                old(self).model().contains(x) && !ids_of(handles@).contains(x.id) ==> final(self).model().live.contains_key(x)
                    && final(self).model().live[x] == old(self).model().components(x),
    {
        let ghost start = self.model();
        let ghost records0 = self.records();
        let ghost rows = batch.rows();
        let ghost n = rows.len() as int;
        proof {
            use_type_invariant(&batch);
            batch.archetype_view().lemma_shape();
        }
        let archetype = batch.into_archetype();
        self.flush_inner();
        let ghost m0 = self.model();
        let ghost layout0 = self.layout();
        proof {
            assert(self.model().live.dom() =~= self.entities.live());
            assert(handles@.take(0) =~= Seq::<Entity>::empty());
        }
        // Drop components of entities that will be replaced
        let mut ids: Vec<u32> = Vec::new();
        assert(ids@.to_set() =~= Set::<u32>::empty());
        let mut i: usize = 0;
        while i < handles.len()
            invariant
                i <= handles@.len(),
                n == handles@.len(),
                ids_of(handles@).no_duplicates(),
                start.len() + start.reserved.len() + start.newcomers(handles@) <= u32::MAX,
                m0 == start.flushed(),
                self.inv(ids@.to_set()),
                self.entities.flushed(),
                ids@ == ids_of(handles@.take(i as int)),
                self.model() == m0.claimed_all(handles@.take(i as int)),
                self.entities.count() == start.len() + start.reserved.len() + start.newcomers(handles@.take(i as int)),
                forall|k: int| 0 <= k < i ==> self.entities.handle((#[trigger] handles@[k]).id) == handles@[k],
                self.layout() == rows_dropped(layout0, ids@),
                self.records() == records0,
            decreases handles@.len() - i,
        {
            let e: Entity = handles[i];
            let ghost here = *self;
            let ghost done = handles@.take(i as int);
            let ghost done1 = handles@.take(i + 1);
            proof {
                lemma_claimed_all(m0, done);
                assert(done1.drop_last() =~= done);
                lemma_newcomers_grow(start, handles@, i + 1);
                assert(ids_of(handles@)[i as int] == e.id);
                assert(!ids@.contains(e.id)) by {
                    if ids@.contains(e.id) {
                        let k = choose|k: int| 0 <= k < ids@.len() && ids@[k] == e.id;
                        assert(ids_of(handles@)[k] == e.id);
                    }
                }
                assert(self.model().uses(e.id) <==> start.occupied(e.id)) by {
                    if start.occupied(e.id) {
                        let x = choose|x: Entity| #[trigger] start.contains(x) && x.id == e.id;
                        assert(m0.live.contains_key(x));
                        assert(self.model().live.contains_key(x));
                    }
                    if self.model().uses(e.id) {
                        let x = choose|x: Entity| #[trigger] self.model().live.contains_key(x) && x.id == e.id;
                        assert(start.contains(x));
                    }
                }
            }
            self.claim(e, Ghost(ids@.to_set()));
            proof {
                assert(ids@.to_set().insert(e.id) =~= ids@.push(e.id).to_set()) by {
                    let more = ids@.push(e.id);
                    assert forall|x: u32| ids@.to_set().insert(e.id).contains(x) <==> more.contains(x) by {
                        assert(more[ids@.len() as int] == e.id);
                        if ids@.contains(x) {
                            let k = choose|k: int| 0 <= k < ids@.len() && ids@[k] == x;
                            assert(more[k] == x);
                        }
                    }
                }
                assert(ids@.push(e.id) =~= ids_of(done1));
                assert(ids@.push(e.id).drop_last() =~= ids@);
                assert forall|k: int| 0 <= k < i implies self.entities.handle((#[trigger] handles@[k]).id) == handles@[k] by {
                    assert(ids@[k] == handles@[k].id);
                    assert(ids@.to_set().contains(ids@[k]));
                }
            }
            ids.push(e.id);
            i = i + 1;
        }
        let ghost claimed = *self;
        proof {
            assert(handles@.take(n) =~= handles@);
            lemma_claimed_all(m0, handles@);
            assert(ids@.map_values(|id: u32| claimed.entities.handle(id)) =~= handles@);
        }
        // Store components and fix up entity IDs
        self.place_batch(&ids, archetype);
        proof {
            assert(handles@.no_duplicates()) by {
                assert forall|i: int, j: int| 0 <= i < n && 0 <= j < n && i != j implies handles@[i] != handles@[j] by {
                    assert(ids_of(handles@)[i] != ids_of(handles@)[j]);
                }
            }
            lemma_with_entities(claimed.model(), handles@, rows);
            law_with_entities(claimed.model(), handles@, rows);
            let wanted = claimed.model().with_entities(handles@, rows);
            assert(self.model().live =~= wanted.live) by {
                assert forall|e: Entity| wanted.live.contains_key(e) implies self.model().live[e] == wanted.live[e] by {
                    if handles@.contains(e) {
                        let i = choose|i: int| 0 <= i < handles@.len() && handles@[i] == e;
                        assert(claimed.entities.handle(ids@[i]) == e);
                    } else {
                        assert(claimed.model().live.contains_key(e));
                    }
                }
            }
            self.lemma_wf();
            assert forall|x: Entity| #[trigger] start.contains(x) && !ids_of(handles@).contains(x.id) implies self.model().live.contains_key(
                x,
            ) && self.model().live[x] == start.components(x) by {
                assert(m0.live.contains_key(x) && m0.live[x] =~= start.components(x));
                assert(claimed.model().live.contains_key(x) && claimed.model().live[x] == m0.live[x]);
                assert(!handles@.contains(x)) by {
                    if handles@.contains(x) {
                        let i = choose|i: int| 0 <= i < handles@.len() && handles@[i] == x;
                        assert(ids_of(handles@)[i] == x.id);
                    }
                }
                assert(wanted.live.contains_key(x));
            }
        }
    }

    /// Spawns an entity for each set of components, one after the other.
    pub fn extend(&mut self, list: Vec<DynamicBundle<V>>)
        requires
            old(self).wf(),
            old(self).model().has_room(list@.len()),
            old(self).model().spawned_all(bundle_maps(list@)).archetypes.len() <= u32::MAX,
        ensures
            final(self).wf(),
            final(self).model() == after(old(self).model(), Step::Extend { rows: bundle_maps(list@) }),
            final(self).model() == (if list@.len() == 0 {
                old(self).model()
            } else {
                old(self).model().flushed().spawned_all(bundle_maps(list@))
            }),
            list@.len() > 0 ==> final(self).model().len() == old(self).model().len() + old(self).model().reserved.len() + list@.len(),
            final(self).layout() == (if list@.len() == 0 {
                old(self).layout()
            } else {
                stored_each(
                    old(self).flushed_layout(),
                    final(self).model().archetypes,
                    bundle_types(list@),
                    next_ids(old(self).model(), list@.len()),
                )
            }),
            list@.len() == 0 ==> final(self).unmoved(old(self)),
            forall|i: int|
                0 <= i < list@.len() ==> final(self).model().live.contains_key(#[trigger] old(self).model().nth_entity(i))
                    && final(self).model().live[old(self).model().nth_entity(i)] == list@[i]@,
            forall|x: Entity| #[trigger]
                old(self).model().contains(x) ==> final(self).model().contains(x) && final(self).model().components(x)
                    == old(self).model().components(x),
            final(self).records() == old(self).records().with_bundles(
                final(self).model().archetypes,
                bundle_keys(list@),
                bundle_types(list@),
            ),
    {
        let ghost start = self.model();
        let ghost untouched = *self;
        let ghost records0 = self.records();
        let ghost keys = bundle_keys(list@);
        let ghost layout0 = self.layout();
        let ghost flushed0 = self.flushed_layout();
        let ghost types = bundle_types(list@);
        let ghost ids = next_ids(start, list@.len());
        let ghost all = bundle_maps(list@);
        let ghost given = list@;
        proof {
            self.lemma_wf();
            self.lemma_layout();
            lemma_id_count(start);
        }
        for components in it: list
            invariant
                it.seq() == given,
                all == bundle_maps(given),
                self.wf(),
                start.wf(),
                start.has_room(given.len()),
                start.next_id == start.len() + start.reserved.len() + start.freelist.len(),
                start.spawned_all(all).archetypes.len() <= u32::MAX,
                self.model() == (if it.index() == 0 {
                    start
                } else {
                    start.flushed().spawned_all(all.take(it.index() as int))
                }),
                types == bundle_types(given),
                ids == next_ids(start, given.len()),
                flushed0.len() == start.archetypes.len() <= self.model().archetypes.len(),
                flushed0 == untouched.flushed_layout(),
                layout0 == untouched.layout(),
                records0 == untouched.records(),
                it.index() == 0 ==> *self == untouched,
                keys == bundle_keys(given),
                self.records() == records0.with_bundles(
                    self.model().archetypes,
                    keys.take(it.index() as int),
                    types.take(it.index() as int),
                ),
                forall|k: int| 0 <= k < it.index() ==> self.model().archetypes.contains(#[trigger] types[k]),
                self.layout() == (if it.index() == 0 {
                    layout0
                } else {
                    stored_each(flushed0, self.model().archetypes, types.take(it.index() as int), ids.take(it.index() as int))
                }),
        {
            let ghost i = it.index() as int;
            let ghost before = self.model();
            let ghost here = *self;
            let ghost base = start.flushed();
            proof {
                assert(components == given[i]);
                assert(all[i] == components@);
                assert(all.take(i + 1).drop_last() =~= all.take(i));
                assert(all.take(0) =~= Seq::<Map<TypeId, V>>::empty());
                self.lemma_wf();
                lemma_id_count(before);
                lemma_spawned_all(base, all.take(i));
                lemma_archetypes_grow(start, all, i + 1);
                lemma_same_archetypes(start, base, all.take(i));
                lemma_same_archetypes(start, base, all.take(i + 1));
            }
            let _ = self.spawn(components);
            proof {
                if i > 0 {
                    assert(before.flushed() =~= before);
                    here.lemma_nothing_reserved();
                }
                assert(self.model() =~= base.spawned_all(all.take(i + 1)));
                self.lemma_wf();
                let fewer = before.archetypes;
                let more = self.model().archetypes;
                assert(types[i] == components@.dom());
                assert(more.contains(types[i])) by {
                    if !fewer.contains(types[i]) {
                        assert(more[fewer.len() as int] == types[i]);
                    }
                }
                assert forall|k: int| 0 <= k < i implies more.contains(#[trigger] types[k]) by {
                    let a = fewer.index_of(types[k]);
                    assert(more[a] == fewer[a]);
                }
                assert forall|k: int| 0 <= k < i implies fewer.contains(#[trigger] types.take(i)[k]) by {
                    assert(types.take(i)[k] == types[k]);
                }
                lemma_stored_each_grown(flushed0, fewer, more, types.take(i), ids.take(i));
                records0.lemma_with_bundles(fewer, more, keys.take(i), types.take(i));
                assert(keys.take(i + 1).drop_last() =~= keys.take(i));
                assert forall|k: int| 0 <= k < i implies more.contains(#[trigger] types.take(i)[k]) by {
                    assert(types.take(i)[k] == types[k]);
                }
                lemma_stored_each_grown(flushed0, more, more, types.take(i), ids.take(i));
                let done = stored_each(flushed0, more, types.take(i), ids.take(i));
                lemma_grown_same(done);
                assert(types.take(i + 1).drop_last() =~= types.take(i));
                assert(ids.take(i + 1).drop_last() =~= ids.take(i));
                assert(ids.take(i + 1).last() == ids[i]);
                assert(ids[i] == before.next_entity().id);
            }
        }
        proof {
            assert(all.take(given.len() as int) =~= all);
            if given.len() > 0 {
                law_extend(start, given);
            }
            assert(types.take(given.len() as int) =~= types);
            assert(keys.take(given.len() as int) =~= keys);
            assert(ids.take(given.len() as int) =~= ids);
            lemma_spawned_all(start.flushed(), all);
            self.lemma_wf();
            lemma_id_count(self.model());
        }
    }

    /// A world with an entity for each set of components, spawned one after the other. Its number is
    /// taken from `ids` as `new` does.
    ///
    /// Returns nothing if the numbers of `ids` are used up.
    pub fn from_iter(ids: &WorldIds, list: Vec<DynamicBundle<V>>) -> (r: Option<Self>)
        requires
            list@.len() <= u32::MAX,
            WorldModel::<V>::empty(0).spawned_all(bundle_maps(list@)).archetypes.len() <= u32::MAX,
        ensures
            r matches Some(world) ==> {
                &&& world.wf()
                &&& world.model() == WorldModel::<V>::empty(world.model().id).spawned_all(bundle_maps(list@))
                &&& world.layout() == stored_each(
                    seq![Seq::<u32>::empty()],
                    world.model().archetypes,
                    bundle_types(list@),
                    Seq::new(list@.len(), |i: int| i as u32),
                )
                &&& world.records() == GraphRecords::empty().with_bundles(
                    world.model().archetypes,
                    bundle_keys(list@),
                    bundle_types(list@),
                )
                &&& forall|e: Entity| #[trigger] world.model().live.contains_key(e) <==> e.id < list@.len() && e.generation == 1
                &&& forall|e: Entity| #[trigger]
                    world.model().live.contains_key(e) ==> world.model().live[e] == list@[e.id as int]@
            },
            exists|before: MutexGuard<u64>, left: MutexGuard<u64>|
                ids.guarded_by(before) && #[trigger] turn_taken(before, left, Self::number_of(r)),
    {
        match ids.next() {
            Some(id) => Some(Self::from_iter_with_id(id, list)),
            None => None,
        }
    }

    /// A world of a given number, with an entity for each set of components, spawned one after the
    /// other.
    pub fn from_iter_with_id(id: u64, list: Vec<DynamicBundle<V>>) -> (r: Self)
        requires
            list@.len() <= u32::MAX,
            WorldModel::<V>::empty(0).spawned_all(bundle_maps(list@)).archetypes.len() <= u32::MAX,
        ensures
            r.wf(),
            r.model().id == id,
            r.model() == WorldModel::<V>::empty(id).spawned_all(bundle_maps(list@)),
            r.model().len() == list@.len(),
            r.layout() == stored_each(
                seq![Seq::<u32>::empty()],
                r.model().archetypes,
                bundle_types(list@),
                Seq::new(list@.len(), |i: int| i as u32),
            ),
            r.records() == GraphRecords::empty().with_bundles(
                r.model().archetypes,
                bundle_keys(list@),
                bundle_types(list@),
            ),
            forall|e: Entity| #[trigger] r.model().live.contains_key(e) <==> e.id < list@.len() && e.generation == 1,
            forall|e: Entity| #[trigger] r.model().live.contains_key(e) ==> r.model().live[e] == list@[e.id as int]@,
    {
        let ghost count = list@.len();
        proof {
            law_from_iter(id, list@);
        }
        let mut world = Self::with_id(id);
        proof {
            let m = world.model();
            lemma_same_archetypes(WorldModel::<V>::empty(0), m, bundle_maps(list@));
            assert(m.flushed() =~= m);
            lemma_spawned_all(m, bundle_maps(list@));
            world.lemma_nothing_reserved();
            lemma_grown_same(world.layout());
            assert(next_ids(m, count) =~= Seq::new(count, |i: int| i as u32));
        }
        world.extend(list);
        world
    }

    /// The handles of allocated IDs.
    fn handles_of(&self, ids: &Vec<u32>) -> (r: Vec<Entity>)
        requires
            forall|i: int| 0 <= i < ids@.len() ==> #[trigger] ids@[i] < self.entities.metas().len(),
        ensures
            r@ == ids@.map_values(|id: u32| self.entities.handle(id)),
    {
        let mut r: Vec<Entity> = Vec::new();
        for i in 0..ids.len()
            invariant
                forall|k: int| 0 <= k < ids@.len() ==> #[trigger] ids@[k] < self.entities.metas().len(),
                r@.len() == i,
                forall|k: int| 0 <= k < i ==> r@[k] == self.entities.handle(#[trigger] ids@[k]),
        {
            let id: u32 = ids[i];
            r.push(Entity { id, generation: self.entities.generation(id) });
        }
        assert(r@ =~= ids@.map_values(|id: u32| self.entities.handle(id)));
        r
    }

    /// Gives allocated IDs the rows of an archetype, one after the other.
    fn place_batch(&mut self, ids: &Vec<u32>, batch: Archetype<V>)
        requires
            old(self).inv(ids@.to_set()),
            ids@.no_duplicates(),
            batch.wf(),
            batch.ids_view().len() == ids@.len(),
            old(self).model().can_hold(batch.types_view().to_set()),
        ensures
            final(self).wf(),
            final(self).model() == (WorldModel {
                live: final(self).model().live,
                ..old(self).model().with_archetype(batch.types_view().to_set())
            }),
            final(self).model().len() == old(self).entities.count(),
            final(self).model().live.dom() == old(self).model().live.dom().union(
                ids@.map_values(|id: u32| old(self).entities.handle(id)).to_set(),
            ),
            forall|e: Entity| #[trigger]
                old(self).model().live.contains_key(e) ==> final(self).model().live[e] == old(self).model().live[e],
            forall|i: int|
                0 <= i < ids@.len() ==> final(self).model().live[old(self).entities.handle(#[trigger] ids@[i])]
                    == batch.components(i),
            final(self).layout() == stored(
                old(self).layout(),
                final(self).model().archetypes,
                batch.types_view().to_set(),
                ids@,
            ),
            final(self).graph == old(self).graph,
    {
        let ghost before = *self;
        let ghost archs0 = self.archetypes.archs();
        let ghost n = ids@.len() as int;
        proof {
            ids@.unique_seq_to_set();
            batch.lemma_shape();
            assert forall|k: int| 0 <= k < n implies #[trigger] ids@[k] < self.entities.metas().len() by {
                assert(ids@.to_set().contains(ids@[k]));
            }
            assert forall|a: int| 0 <= a < archs0.len() implies (#[trigger] archs0[a]).ids_view().len() + n <= u32::MAX by {
                archs0[a].lemma_shape();
                lemma_row_count(self.entities, archs0, ids@.to_set(), a);
            }
        }
        // Store component data
        let (archetype, base) = self.archetypes.insert_batch(batch);
        let ghost a = archetype as int;
        let ghost archs1 = self.archetypes.archs();
        let ghost lists1 = self.archetypes.type_lists();
        let ghost merged = *self;
        proof {
            assert forall|b: int| 0 <= b < archs0.len() implies archs1[b].types_view() == (#[trigger] archs0[b]).types_view() by {}
            assert(lists1.len() == archs1.len());
            self.graph.lemma_grown(before.archetypes.type_lists(), lists1);
            archs1[a].lemma_shape();
            if a < archs0.len() {
                archs0[a].lemma_shape();
            }
            assert(ids@.skip(0) =~= ids@);
        }
        // Fix up entity IDs
        let mut i: usize = 0;
        while i < ids.len()
            invariant
                i <= ids@.len(),
                n == ids@.len(),
                ids@.no_duplicates(),
                a == archetype,
                0 <= a < archs1.len(),
                base + n == archs1[a].ids_view().len(),
                archs1[a].ids_view().len() <= u32::MAX,
                before.inv(ids@.to_set()),
                self.id == before.id,
                self.graph == merged.graph,
                self.archetypes.wf(),
                self.archetypes.type_sets() == merged.archetypes.type_sets(),
                self.archetypes.type_lists() == lists1,
                self.archetypes.archs().len() == archs1.len(),
                forall|b: int| 0 <= b < archs1.len() && b != a ==> self.archetypes.archs()[b] == #[trigger] archs1[b],
                self.archetypes.archs()[a].types_view() == archs1[a].types_view(),
                self.archetypes.archs()[a].rows() == archs1[a].rows(),
                self.archetypes.archs()[a].ids_view().len() == archs1[a].ids_view().len(),
                forall|r: int|
                    0 <= r < base ==> self.archetypes.archs()[a].ids_view()[r] == #[trigger] archs1[a].ids_view()[r],
                forall|k: int| 0 <= k < i ==> self.archetypes.archs()[a].ids_view()[base + k] == #[trigger] ids@[k],
                self.entities.wf(ids@.skip(i as int).to_set()),
                self.entities.same_but_locations(&before.entities),
                self.entities.count() == before.entities.count(),
                forall|k: int| 0 <= k < n ==> #[trigger] ids@[k] < self.entities.metas().len(),
                forall|id: u32|
                    id < self.entities.metas().len() && !(#[trigger] ids@.contains(id)) ==> self.entities.metas()[id as int]
                        == before.entities.metas()[id as int],
                forall|k: int|
                    0 <= k < i ==> self.entities.metas()[(#[trigger] ids@[k]) as int].location == (Location {
                        archetype,
                        index: (base + k) as u32,
                    }),
            decreases ids@.len() - i,
        {
            let id: u32 = ids[i];
            let ghost limbo = ids@.skip(i as int).to_set();
            let ghost here = *self;
            proof {
                assert(ids@.skip(i as int)[0] == id);
                assert(ids@.contains(id));
            }
            let index: u32 = base + i as u32;
            self.archetypes.at_mut(archetype).set_entity_id(index, id);
            self.entities.locate(id, Location { archetype, index }, Ghost(limbo));
            proof {
                self.archetypes.lemma_same_types(&here.archetypes);
                assert forall|k: int| 0 <= k < i implies self.entities.metas()[(#[trigger] ids@[k]) as int]
                    == here.entities.metas()[ids@[k] as int] by {
                    assert(ids@[k] != ids@[i as int]);
                }
                assert(limbo.remove(id) =~= ids@.skip(i + 1).to_set()) by {
                    let s0 = ids@.skip(i as int);
                    let s1 = ids@.skip(i + 1);
                    assert forall|x: u32| limbo.remove(id).contains(x) <==> s1.contains(x) by {
                        if s0.contains(x) && x != id {
                            let k = choose|k: int| 0 <= k < s0.len() && s0[k] == x;
                            assert(s1[k - 1] == x);
                        }
                        if s1.contains(x) {
                            let k = choose|k: int| 0 <= k < s1.len() && s1[k] == x;
                            assert(s0[k + 1] == x);
                            assert(ids@[i + 1 + k] == x);
                        }
                    }
                }
            }
            i = i + 1;
        }
        proof {
            assert(ids@.skip(n).to_set() =~= Set::<u32>::empty());
            assert(self.model().live.dom() =~= self.entities.live());
            let arch = self.archetypes.archs()[a];
            assert forall|k: int| 0 <= k < n implies arch.rows()[base + k] == #[trigger] batch.rows()[k] by {
                assert(archs1[a].rows()[base + k] == batch.rows()[k]);
            }
            if a < archs0.len() {
                assert forall|r: int| 0 <= r < base implies arch.ids_view()[r] == #[trigger] archs0[a].ids_view()[r] by {
                    assert(archs1[a].ids_view()[r] == archs0[a].ids_view()[r]);
                }
            }
            self.lemma_batch_placed(&before, ids@, batch, a, base as int);
            self.entities.lemma_same_handles(&before.entities, ids@.to_set());
            self.lemma_archetype_index(Set::empty(), a, batch.types_view().to_set());
            let wanted = stored(before.layout(), self.model().archetypes, batch.types_view().to_set(), ids@);
            assert forall|b: int| 0 <= b < self.layout().len() implies #[trigger] self.layout()[b] =~= wanted[b] by {
                if b != a {
                    assert(self.archetypes.archs()[b] == archs0[b]);
                } else if a < archs0.len() {
                    assert(before.layout()[a] == archs0[a].ids_view());
                    assert forall|r: int| 0 <= r < arch.ids_view().len() implies #[trigger] arch.ids_view()[r] == (archs0[a].ids_view() + ids@)[r] by {
                        if r < base {
                            assert(archs0[a].ids_view()[r] == arch.ids_view()[r]);
                        } else {
                            assert(arch.ids_view()[base + (r - base)] == ids@[r - base]);
                        }
                    }
                } else {
                    assert forall|r: int| 0 <= r < arch.ids_view().len() implies #[trigger] arch.ids_view()[r] == ids@[r] by {
                        assert(arch.ids_view()[base + r] == ids@[r]);
                    }
                }
            }
            assert(self.layout() =~= wanted);
        }
    }

    /// Once every row has its ID, all is in order again.
    proof fn lemma_batch_placed(&self, before: &World<V>, ids: Seq<u32>, batch: Archetype<V>, a: int, base: int)
        requires
            before.inv(ids.to_set()),
            ids.no_duplicates(),
            batch.wf(),
            batch.ids_view().len() == ids.len(),
            self.entities.wf(Set::empty()),
            self.entities.same_but_locations(&before.entities),
            forall|id: u32|
                id < self.entities.metas().len() && !(#[trigger] ids.contains(id)) ==> self.entities.metas()[id as int]
                    == before.entities.metas()[id as int],
            forall|k: int|
                0 <= k < ids.len() ==> self.entities.metas()[(#[trigger] ids[k]) as int].location == (Location {
                    archetype: a as u32,
                    index: (base + k) as u32,
                }),
            self.archetypes.wf(),
            before.archetypes.archs().len() <= self.archetypes.archs().len() <= before.archetypes.archs().len() + 1,
            0 <= a < self.archetypes.archs().len() <= u32::MAX,
            self.archetypes.archs()[a].types_view() == batch.types_view(),
            self.archetypes.archs().len() > before.archetypes.archs().len() ==> a == before.archetypes.archs().len(),
            forall|b: int|
                0 <= b < before.archetypes.archs().len() && b != a ==> self.archetypes.archs()[b]
                    == #[trigger] before.archetypes.archs()[b],
            ({
                let arch = self.archetypes.archs()[a];
                &&& arch.ids_view().len() == base + ids.len()
                &&& forall|k: int| 0 <= k < ids.len() ==> arch.ids_view()[base + k] == #[trigger] ids[k]
                &&& forall|k: int| 0 <= k < ids.len() ==> arch.rows()[base + k] == #[trigger] batch.rows()[k]
                &&& if a < before.archetypes.archs().len() {
                    let arch0 = before.archetypes.archs()[a];
                    &&& base == arch0.ids_view().len()
                    &&& arch.types_view() == arch0.types_view()
                    &&& forall|r: int| 0 <= r < base ==> arch.ids_view()[r] == #[trigger] arch0.ids_view()[r]
                    &&& forall|r: int| 0 <= r < base ==> arch.rows()[r] == #[trigger] arch0.rows()[r]
                } else {
                    base == 0
                }
            }),
        ensures
            consistent(self.entities.metas(), self.archetypes.archs()),
            self.model().live.dom() == before.model().live.dom().union(
                ids.map_values(|id: u32| before.entities.handle(id)).to_set(),
            ),
            forall|e: Entity| #[trigger] before.model().live.contains_key(e) ==> self.model().live[e] == before.model().live[e],
            forall|i: int|
                0 <= i < ids.len() ==> self.model().live[before.entities.handle(#[trigger] ids[i])] == batch.components(i),
    {
        let metas0 = before.entities.metas();
        let metas1 = self.entities.metas();
        let archs0 = before.archetypes.archs();
        let archs1 = self.archetypes.archs();
        archs1[a].lemma_shape();
        batch.lemma_shape();
        assert forall|k: int| 0 <= k < ids.len() implies (#[trigger] ids[k]) < metas1.len() && metas0[ids[k] as int].location.index
            == u32::MAX by {
            assert(ids.to_set().contains(ids[k]));
        }
        assert forall|id: int| 0 <= id < metas1.len() && (#[trigger] metas1[id]).location.index != u32::MAX implies {
            let loc = metas1[id].location;
            &&& loc.archetype < archs1.len()
            &&& loc.index < archs1[loc.archetype as int].ids_view().len()
            &&& archs1[loc.archetype as int].ids_view()[loc.index as int] == id
        } by {
            if ids.contains(id as u32) {
                let k = choose|k: int| 0 <= k < ids.len() && ids[k] == id as u32;
                assert(archs1[a].ids_view()[base + k] == ids[k]);
            } else {
                assert(metas1[id] == metas0[id]);
                let loc = metas0[id].location;
                assert(archs0[loc.archetype as int].ids_view()[loc.index as int] == id);
            }
        }
        assert forall|b: int, r: int| 0 <= b < archs1.len() && 0 <= r < archs1[b].ids_view().len() implies {
            let id = #[trigger] archs1[b].ids_view()[r];
            &&& id < metas1.len()
            &&& metas1[id as int].location == (Location { archetype: b as u32, index: r as u32 })
        } by {
            let id = archs1[b].ids_view()[r];
            if b == a && r >= base {
                assert(ids[r - base] == id);
            } else {
                archs0[b].lemma_shape();
                assert(archs0[b].ids_view()[r] == id);
                assert(metas0[id as int].location.index != u32::MAX);
                if ids.contains(id) {
                    let k = choose|k: int| 0 <= k < ids.len() && ids[k] == id;
                    assert(metas0[ids[k] as int].location.index == u32::MAX);
                }
                assert(metas1[id as int] == metas0[id as int]);
            }
        }
        let handles = ids.map_values(|id: u32| before.entities.handle(id));
        assert forall|e: Entity| self.model().live.contains_key(e) <==> before.model().live.contains_key(e) || handles.contains(e) by {
            if handles.contains(e) {
                let k = choose|k: int| 0 <= k < handles.len() && handles[k] == e;
                assert(ids[k] == e.id);
                assert(base + k < u32::MAX);
            }
            if self.model().live.contains_key(e) {
                if ids.contains(e.id) {
                    let k = choose|k: int| 0 <= k < ids.len() && ids[k] == e.id;
                    assert(handles[k] == e);
                } else {
                    assert(metas1[e.id as int] == metas0[e.id as int]);
                }
            }
            if before.model().live.contains_key(e) {
                if ids.contains(e.id) {
                    let k = choose|k: int| 0 <= k < ids.len() && ids[k] == e.id;
                    assert(metas0[ids[k] as int].location.index == u32::MAX);
                }
                assert(metas1[e.id as int] == metas0[e.id as int]);
            }
        }
        assert(self.model().live.dom() =~= before.model().live.dom().union(handles.to_set()));
        assert forall|e: Entity| #[trigger] before.model().live.contains_key(e) implies self.model().live[e] == before.model().live[e] by {
            if ids.contains(e.id) {
                let k = choose|k: int| 0 <= k < ids.len() && ids[k] == e.id;
                assert(metas0[ids[k] as int].location.index == u32::MAX);
            }
            assert(metas1[e.id as int] == metas0[e.id as int]);
            let loc = metas0[e.id as int].location;
            let b = loc.archetype as int;
            assert(archs0[b].ids_view()[loc.index as int] == e.id);
            archs0[b].lemma_shape();
            assert(archs1[b].types_view() == archs0[b].types_view());
            if b == a {
                assert(archs1[b].rows()[loc.index as int] == archs0[b].rows()[loc.index as int]);
            }
        }
        assert forall|i: int| 0 <= i < ids.len() implies self.model().live[before.entities.handle(#[trigger] ids[i])] == batch.components(
            i,
        ) by {
            let e = before.entities.handle(ids[i]);
            assert(handles[i] == e);
            assert(self.model().live.contains_key(e));
            assert(archs1[a].rows()[base + i] == batch.rows()[i]);
        }
    }
}

} // verus!

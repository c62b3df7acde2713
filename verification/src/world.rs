//! The world: entities, their components, and the archetypes that the components are stored in.
use spin::MutexGuard;
use vstd::prelude::*;

use crate::archetype::Archetype;
use crate::archetype_set::ArchetypeSet;
use crate::bundle::{Bundle, DynamicBundle};
use crate::entities::{fresh_entities, ids_of, Entities, Entity, EntityMeta, Location, NoSuchEntity};
use crate::graph::{ArchetypeGraph, GraphRecords};
use crate::history::{after, Step};
use crate::laws::{law_despawn, law_flush, law_spawn, law_spawn_at};
use crate::layout::{grown, lemma_rows_added, row_dropped, rows_added, stored};
use crate::model::{lemma_id_count, WorldModel};
use crate::types::{copy_types, row_map, TypeId};
use crate::world_id::{advance_locked, turn_taken, WorldIds};

mod access;
mod access_mut;
mod batch;
mod change;
mod share;
mod storage;

pub use access::{entries_of, QueryBorrow, QueryOne, ViewBorrow};
pub use access_mut::{current_entries, ViewMut};
pub use batch::{
    batch_rows, bundle_keys, bundle_maps, bundle_types, lemma_claimed_all, lemma_spawned_all, lemma_with_entities,
    next_ids,
};
pub use change::{first_missing, lemma_none_missing, outcome, removal};
pub use share::{
    blocked, law_reading_queries, law_simultaneous_queries, BorrowConflict, Claim, SharedQuery, SharedQueryOne,
    Sharing,
};

use storage::{lemma_same_contents, lemma_same_rows};

verus! {

/// An unordered collection of entities, each having any number of distinctly typed components.
///
/// The components of entities who have the same set of component types are stored in contiguous
/// runs, one per type.
///
/// There is a maximum number of unique entity IDs, which means that there is a maximum number of
/// live entities. When old entities are despawned, their IDs will be reused on a future entity, and
/// old `Entity` values with that ID will be invalidated.
///
/// ### Collisions
///
/// If an entity is despawned and its `Entity` handle is preserved over the course of billions of
/// following spawns and despawns, that handle may, in rare circumstances, collide with a
/// newly-allocated `Entity` handle. Very long-lived applications should therefore limit the period
/// over which they may retain handles of despawned entities.
pub struct World<V> {
    entities: Entities,
    archetypes: ArchetypeSet<V>,
    graph: ArchetypeGraph,
    id: u64,
}

/// Determines freshness of information derived from `World::archetypes`.
#[derive(Debug, Copy, Clone, Eq, PartialEq, Structural)]
pub struct ArchetypesGeneration(u32);

impl View for ArchetypesGeneration {
    type V = nat;

    closed spec fn view(&self) -> nat {
        self.0 as nat
    }
}

impl ArchetypesGeneration {
    /// The number of archetypes is all that there is to a generation.
    pub proof fn lemma_same(a: Self, b: Self)
        ensures
            a == b <==> a@ == b@,
    {
    }
}

/// Every recorded location is a row of that entity, and every row is some entity's location.
pub open spec fn consistent<V>(metas: Seq<EntityMeta>, archs: Seq<Archetype<V>>) -> bool {
    &&& forall|id: int|
        0 <= id < metas.len() && (#[trigger] metas[id]).location.index != u32::MAX ==> {
            let loc = metas[id].location;
            &&& loc.archetype < archs.len()
            &&& loc.index < archs[loc.archetype as int].ids_view().len()
            &&& archs[loc.archetype as int].ids_view()[loc.index as int] == id
        }
    &&& forall|a: int, r: int|
        0 <= a < archs.len() && 0 <= r < archs[a].ids_view().len() ==> {
            let id = #[trigger] archs[a].ids_view()[r];
            &&& id < metas.len()
            &&& metas[id as int].location == (Location { archetype: a as u32, index: r as u32 })
        }
}

/// The live entities and their components.
pub open spec fn live_map<V>(entities: Entities, archs: Seq<Archetype<V>>) -> Map<Entity, Map<TypeId, V>> {
    Map::new(
        |e: Entity| entities.live().contains(e),
        |e: Entity| {
            let loc = entities.metas()[e.id as int].location;
            archs[loc.archetype as int].components(loc.index as int)
        },
    )
}

/// The given entities, without components.
pub open spec fn empties<V>(list: Seq<Entity>) -> Map<Entity, Map<TypeId, V>> {
    Map::new(|e: Entity| list.contains(e), |e: Entity| Map::<TypeId, V>::empty())
}

impl<V> World<V> {
    /// The contents of the world. Where entities are stored is apart, in `layout`, and so is what is
    /// known about bundle types, in `records`.
    pub closed spec fn model(&self) -> WorldModel<V> {
        WorldModel {
            id: self.id,
            live: live_map(self.entities, self.archetypes.archs()),
            reserved: self.entities.reserved_view().to_set(),
            freelist: self.entities.freelist_view(),
            next_id: self.entities.next_id(),
            archetypes: self.archetypes.type_sets(),
        }
    }

    /// Everything is in order but for the IDs in `limbo`, which are allocated and about to be given
    /// a row.
    spec fn inv(&self, limbo: Set<u32>) -> bool {
        &&& self.entities.wf(limbo)
        &&& self.archetypes.wf()
        &&& self.graph.wf(self.archetypes.type_lists())
        &&& consistent(self.entities.metas(), self.archetypes.archs())
    }

    pub closed spec fn wf(&self) -> bool {
        self.inv(Set::empty())
    }

    /// The IDs of the entities in each archetype, by row.
    pub closed spec fn layout(&self) -> Seq<Seq<u32>> {
        self.archetypes.archs().map_values(|arch: Archetype<V>| arch.ids_view())
    }

    /// The reserved handles whose IDs were never used before.
    pub closed spec fn reserved_new(&self) -> Seq<Entity> {
        fresh_entities(self.entities.metas().len(), self.entities.fresh_count())
    }

    /// The reserved handles whose IDs are used again, the one reserved last first.
    pub closed spec fn reserved_again(&self) -> Seq<Entity> {
        self.entities.recycled()
    }

    /// The reserved handles, in the order in which the entities will be created.
    pub open spec fn reserved_order(&self) -> Seq<Entity> {
        self.reserved_new() + self.reserved_again()
    }

    /// What is recorded about bundle types.
    pub closed spec fn records(&self) -> GraphRecords {
        self.graph.records()
    }

    /// Whether all entities are stored and all reserved ones listed where they were before, and
    /// nothing more is recorded.
    pub open spec fn unmoved(&self, before: &World<V>) -> bool {
        &&& self.layout() == before.layout()
        &&& self.reserved_new() == before.reserved_new()
        &&& self.reserved_again() == before.reserved_again()
        &&& self.records() == before.records()
    }

    /// Where entities are stored once all reserved ones are created.
    pub open spec fn flushed_layout(&self) -> Seq<Seq<u32>> {
        rows_added(self.layout(), 0, ids_of(self.reserved_order()))
    }

    /// The contents of a well-formed world are well-formed.
    pub proof fn lemma_wf(&self)
        requires
            self.wf(),
        ensures
            self.model().wf(),
    {
        let m = self.model();
        let ents = self.entities;
        let rv = ents.reserved_view();
        let fl = ents.freelist_view();
        let metas = ents.metas();
        let archs = self.archetypes.archs();
        ents.lemma_handles_distinct(Set::empty());
        assert(m.live.dom() =~= ents.live());
        rv.unique_seq_to_set();
        vstd::seq_lib::seq_to_set_is_finite(rv);
        assert forall|x: Entity, y: Entity|
            #[trigger] m.contains(x) && #[trigger] m.contains(y) && x.id == y.id implies x == y by {
            if rv.contains(x) {
                let i = choose|i: int| 0 <= i < rv.len() && rv[i] == x;
                assert(!ents.live().contains(y));
            }
            if rv.contains(y) {
                let j = choose|j: int| 0 <= j < rv.len() && rv[j] == y;
                assert(!ents.live().contains(x));
            }
        }
        assert forall|e: Entity| #[trigger] m.live.contains_key(e) implies !m.reserved.contains(e) by {
            if rv.contains(e) {
                let i = choose|i: int| 0 <= i < rv.len() && rv[i] == e;
                assert(rv[i].id != e.id);
            }
        }
        assert forall|i: int, e: Entity|
            0 <= i < m.freelist.len() && #[trigger] m.contains(e) implies (#[trigger] m.freelist[i]).id != e.id by {
            if rv.contains(e) {
                let j = choose|j: int| 0 <= j < rv.len() && rv[j] == e;
                assert(rv[j].id != fl[i].id);
            }
        }
        assert forall|id: u32| id < m.next_id implies #[trigger] ids_of(m.freelist).contains(id) || m.occupied(id) by {
            let n = metas.len() as int;
            let f = ents.free_count() as int;
            let k = ents.fresh_count() as int;
            if id >= n {
                assert(rv[id - n].id == id);
                assert(m.contains(rv[id - n]));
            } else if metas[id as int].location.index == u32::MAX {
                let p = ents.pending_ids();
                assert(p.contains(id));
                let i = choose|i: int| 0 <= i < p.len() && p[i] == id;
                if i < f {
                    assert(ids_of(m.freelist)[i] == id);
                } else {
                    assert(rv[k + i - f] == ents.recycled()[i - f]);
                    assert(rv[k + i - f].id == id);
                    assert(m.contains(rv[k + i - f]));
                }
            } else {
                assert(m.contains(ents.handle(id)));
            }
        }
        self.archetypes.lemma_type_sets();
        assert forall|e: Entity| #[trigger] m.live.contains_key(e) implies m.archetypes.contains(m.live[e].dom()) by {
            let loc = metas[e.id as int].location;
            let a = loc.archetype as int;
            assert(m.live[e].dom() =~= archs[a].types_view().to_set());
            assert(m.archetypes[a] == m.live[e].dom());
        }
    }

    /// Each live entity has one row, and each row is that of a live entity.
    proof fn lemma_stored(&self)
        requires
            self.wf(),
        ensures
            self.model().stored_in(self.archetypes.archs()),
    {
        let archs = self.archetypes.archs();
        let m = self.model();
        assert forall|a: int, r: int| 0 <= a < archs.len() && 0 <= r < (#[trigger] archs[a]).ids_view().len() implies #[trigger] m.has_row(
            archs[a],
            r,
        ) by {
            let id = archs[a].ids_view()[r];
            archs[a].lemma_shape();
            assert(m.live.contains_key(self.entities.handle(id)));
        }
        assert forall|e: Entity| #[trigger] m.live.contains_key(e) implies exists|a: int, r: int|
            0 <= a < archs.len() && 0 <= r < archs[a].ids_view().len() && #[trigger] archs[a].ids_view()[r] == e.id by {
            let loc = self.entities.metas()[e.id as int].location;
            assert(archs[loc.archetype as int].ids_view()[loc.index as int] == e.id);
        }
        assert forall|a: int, r: int, b: int, q: int|
            #![trigger archs[a].ids_view()[r], archs[b].ids_view()[q]]
            0 <= a < archs.len() && 0 <= r < archs[a].ids_view().len() && 0 <= b < archs.len() && 0 <= q
                < archs[b].ids_view().len() && archs[a].ids_view()[r] == archs[b].ids_view()[q] implies a == b && r == q by {
            archs[a].lemma_shape();
            archs[b].lemma_shape();
        }
    }

    /// Each live entity has one row, in the archetype of its component types, and each row is that of
    /// a live entity. The order in which reserved entities will be created lists each of them once.
    pub proof fn lemma_layout(&self)
        requires
            self.wf(),
        ensures
            self.model().laid_out(self.layout()),
            self.reserved_order().no_duplicates(),
            self.reserved_order().to_set() == self.model().reserved,
    {
        let m = self.model();
        let archs = self.archetypes.archs();
        let metas = self.entities.metas();
        self.entities.lemma_handles_distinct(Set::empty());
        self.archetypes.lemma_type_sets();
        assert forall|e: Entity| #[trigger] m.live.contains_key(e) implies self.layout()[m.archetypes.index_of(
            m.live[e].dom(),
        )].contains(e.id) by {
            let loc = metas[e.id as int].location;
            let a = loc.archetype as int;
            assert(m.live[e].dom() =~= archs[a].types_view().to_set());
            self.lemma_archetype_index(Set::empty(), a, m.live[e].dom());
            assert(self.layout()[a][loc.index as int] == e.id);
        }
        assert forall|a: int, r: int| 0 <= a < archs.len() && 0 <= r < self.layout()[a].len() implies m.in_archetype(
            #[trigger] self.layout()[a][r],
            a,
        ) by {
            let id = archs[a].ids_view()[r];
            archs[a].lemma_shape();
            let e = self.entities.handle(id);
            assert(m.live.contains_key(e));
            assert(m.live[e].dom() =~= archs[a].types_view().to_set());
        }
        assert forall|a: int, r: int, b: int, q: int|
            #![trigger self.layout()[a][r], self.layout()[b][q]]
            0 <= a < archs.len() && 0 <= r < self.layout()[a].len() && 0 <= b < archs.len() && 0 <= q < self.layout()[b].len()
                && self.layout()[a][r] == self.layout()[b][q] implies a == b && r == q by {
            archs[a].lemma_shape();
            archs[b].lemma_shape();
            assert(archs[a].ids_view()[r] == archs[b].ids_view()[q]);
        }
    }

    /// Where no entity is reserved, none gets a row.
    pub proof fn lemma_nothing_reserved(&self)
        requires
            self.wf(),
            self.model().reserved == Set::<Entity>::empty(),
        ensures
            self.flushed_layout() == self.layout(),
    {
        self.lemma_layout();
        let order = self.reserved_order();
        if order.len() > 0 {
            assert(order.to_set().contains(order[0]));
        }
        assert(ids_of(order) =~= Seq::<u32>::empty());
        lemma_rows_added(self.layout(), 0, Seq::empty(), Seq::empty());
    }

    /// A world without entities, of a given number.
    pub fn with_id(id: u64) -> (r: Self)
        ensures
            r.wf(),
            r.model() == WorldModel::<V>::empty(id),
            r.layout() == seq![Seq::<u32>::empty()],
            r.records() == GraphRecords::empty(),
    {
        let r = World {
            entities: Entities::new(),
            archetypes: ArchetypeSet::new(),
            graph: ArchetypeGraph::new(),
            id,
        };
        proof {
            assert(r.model().live =~= Map::<Entity, Map<TypeId, V>>::empty());
            assert(r.entities.reserved_view() =~= Seq::<Entity>::empty());
            assert(r.model().reserved =~= Set::<Entity>::empty());
            assert(r.model().freelist =~= Seq::<Entity>::empty());
            assert(r.archetypes.archs()[0].ids_view() =~= Seq::<u32>::empty());
            assert(r.layout() =~= seq![Seq::<u32>::empty()]);
        }
        r
    }

    /// The number of a world, if there is one.
    pub open spec fn number_of(r: Option<Self>) -> Option<u64> {
        match r {
            Some(world) => Some(world.model().id),
            None => None,
        }
    }

    /// Create an empty world, under the number after the one behind the lock of `ids`, where the number
    /// of the world is left. So no two worlds made with `ids` have the same number: see
    /// `law_memos_differ`.
    ///
    /// Returns nothing if the numbers are used up.
    pub fn new(ids: &WorldIds) -> (r: Option<Self>)
        ensures
            r matches Some(world) ==> {
                &&& world.wf()
                &&& world.model() == WorldModel::<V>::empty(world.model().id)
                &&& world.layout() == seq![Seq::<u32>::empty()]
                &&& world.records() == GraphRecords::empty()
            },
            exists|before: MutexGuard<u64>, left: MutexGuard<u64>|
                ids.guarded_by(before) && #[trigger] turn_taken(before, left, Self::number_of(r)),
    {
        let mut guard = ids.lock();
        let ghost before = guard;
        let r = Self::new_locked(&mut guard);
        assert(ids.guarded_by(before) && turn_taken(before, guard, Self::number_of(r)));
        r
    }

    /// Create an empty world, under the number after the one behind a lock that is held, where the
    /// number of the world is left.
    ///
    /// Returns nothing if the numbers are used up.
    pub fn new_locked(guard: &mut MutexGuard<'_, u64>) -> (r: Option<Self>)
        ensures
            turn_taken(*old(guard), *final(guard), Self::number_of(r)),
            r matches Some(world) ==> {
                &&& world.wf()
                &&& world.model() == WorldModel::<V>::empty(world.model().id)
                &&& world.layout() == seq![Seq::<u32>::empty()]
                &&& world.records() == GraphRecords::empty()
            },
    {
        match advance_locked(guard) {
            Some(id) => Some(Self::with_id(id)),
            None => None,
        }
    }

    /// Convert all reserved entities into empty entities that can be iterated and accessed.
    ///
    /// Invoked implicitly by operations that add or remove components or entities, i.e. all
    /// variations of `spawn`, `despawn`, `insert`, and `remove`.
    pub fn flush(&mut self)
        requires
            old(self).wf(),
        ensures
            final(self).wf(),
            final(self).model() == after(old(self).model(), Step::Flush),
            final(self).model() == old(self).model().flushed(),
            final(self).model().len() == old(self).model().len() + old(self).model().reserved.len(),
            final(self).layout() == old(self).flushed_layout(),
            final(self).records() == old(self).records(),
    {
        self.flush_inner();
    }

    fn flush_inner(&mut self)
        requires
            old(self).wf(),
        ensures
            final(self).wf(),
            final(self).entities.flushed(),
            final(self).model() == old(self).model().flushed(),
            final(self).model().len() == old(self).model().len() + old(self).model().reserved.len(),
            final(self).archetypes.type_lists() == old(self).archetypes.type_lists(),
            final(self).layout() == old(self).flushed_layout(),
            final(self).graph == old(self).graph,
    {
        let ghost before = *self;
        let ghost rv = self.entities.reserved_view();
        proof {
            self.entities.lemma_handles_distinct(Set::empty());
            rv.unique_seq_to_set();
            assert(self.model().live.dom() =~= self.entities.live());
        }
        let ids = self.entities.unreserve();
        let ghost grown = *self;
        proof {
            lemma_same_rows(before.entities, self.entities, self.archetypes.archs());
            assert(ids@.skip(0) =~= ids@);
            assert(before.model().live.union_prefer_right(empties(rv.subrange(0, 0))) =~= before.model().live);
            assert(self.entities.freelist_view() =~= before.entities.freelist_view());
            assert(self.entities.reserved_view() =~= Seq::<Entity>::empty());
            lemma_rows_added(before.layout(), 0, ids@.take(0), ids@.take(0));
            assert(ids@.take(0) =~= Seq::<u32>::empty());
        }
        let mut i: usize = 0;
        while i < ids.len()
            invariant
                i <= ids@.len(),
                ids@.no_duplicates(),
                ids@.len() == rv.len(),
                self.inv(ids@.skip(i as int).to_set()),
                grown.inv(ids@.to_set()),
                grown.entities.flushed(),
                self.same_but_rows(&grown),
                grown.graph == before.graph,
                forall|k: int| 0 <= k < ids@.len() ==> grown.entities.handle(#[trigger] ids@[k]) == rv[k],
                forall|k: int| 0 <= k < ids@.len() ==> #[trigger] ids@[k] < grown.entities.metas().len(),
                self.model().live == before.model().live.union_prefer_right(empties(rv.subrange(0, i as int))),
                before.layout().len() > 0,
                self.layout() == rows_added(before.layout(), 0, ids@.take(i as int)),
            decreases ids@.len() - i,
        {
            let ghost limbo = ids@.skip(i as int).to_set();
            let ghost here = *self;
            proof {
                assert(ids@.skip(i as int)[0] == ids@[i as int]);
                assert(here.entities.handle(ids@[i as int]) == rv[i as int]);
                assert(self.archetypes.archs()[0].types_view().len() == 0);
            }
            self.attach(ids[i], 0, Vec::new(), Ghost(limbo));
            proof {
                assert(limbo.remove(ids@[i as int]) =~= ids@.skip(i + 1).to_set()) by {
                    assert forall|id: u32| limbo.remove(ids@[i as int]).contains(id) <==> ids@.skip(i + 1).contains(id) by {
                        let s0 = ids@.skip(i as int);
                        let s1 = ids@.skip(i + 1);
                        if s0.contains(id) && id != ids@[i as int] {
                            let k = choose|k: int| 0 <= k < s0.len() && s0[k] == id;
                            assert(s1[k - 1] == id);
                        }
                        if s1.contains(id) {
                            let k = choose|k: int| 0 <= k < s1.len() && s1[k] == id;
                            assert(s0[k + 1] == id);
                            assert(ids@[i + 1 + k] == id);
                        }
                    }
                }
                let done = rv.subrange(0, i as int);
                let done1 = rv.subrange(0, i + 1);
                let types = here.archetypes.archs()[0].types_view();
                assert(row_map(types, Seq::<V>::empty()) =~= Map::<TypeId, V>::empty());
                assert forall|e: Entity| done1.contains(e) <==> done.contains(e) || e == rv[i as int] by {
                    if done.contains(e) {
                        let k = choose|k: int| 0 <= k < done.len() && done[k] == e;
                        assert(done1[k] == e);
                    }
                    assert(done1[i as int] == rv[i as int]);
                    if done1.contains(e) && e != rv[i as int] {
                        let k = choose|k: int| 0 <= k < done1.len() && done1[k] == e;
                        assert(done[k] == e);
                    }
                }
                assert(self.model().live =~= before.model().live.union_prefer_right(empties(done1)));
                lemma_rows_added(before.layout(), 0, ids@.take(i as int), seq![ids@[i as int]]);
                assert(ids@.take(i as int) + seq![ids@[i as int]] =~= ids@.take(i + 1));
            }
            i = i + 1;
        }
        proof {
            assert(ids@.skip(ids@.len() as int).to_set() =~= Set::<u32>::empty());
            assert(rv.subrange(0, rv.len() as int) =~= rv);
            self.lemma_same_but_rows(&grown, ids@.to_set());
            assert(self.model().live =~= before.model().flushed().live);
            assert(self.model().reserved =~= Set::<Entity>::empty());
            assert(self.model().live.dom() =~= self.entities.live());
            assert(before.reserved_order() == rv);
            assert(ids@.take(ids@.len() as int) =~= ids_of(rv)) by {
                assert forall|k: int| 0 <= k < ids@.len() implies #[trigger] ids@[k] == ids_of(rv)[k] by {
                    assert(grown.entities.handle(ids@[k]) == rv[k]);
                }
            }
        }
    }

    /// Create an entity with certain components.
    ///
    /// Returns the ID of the newly created entity.
    pub fn spawn(&mut self, components: DynamicBundle<V>) -> (e: Entity)
        requires
            old(self).wf(),
            old(self).model().has_room(1),
            old(self).model().can_hold(components@.dom()),
        ensures
            final(self).wf(),
            final(self).model() == after(old(self).model(), Step::Spawn { components: components@ }),
            e == old(self).model().next_entity(),
            !old(self).model().contains(e),
            final(self).model().live.contains_key(e),
            final(self).model().live[e] == components@,
            forall|x: Entity| #[trigger]
                old(self).model().contains(x) ==> final(self).model().live.contains_key(x) && final(self).model().live[x]
                    == old(self).model().components(x),
            final(self).model() == old(self).model().flushed().spawned(components@),
            final(self).model().len() == old(self).model().len() + old(self).model().reserved.len() + 1,
            final(self).layout() == stored(
                old(self).flushed_layout(),
                final(self).model().archetypes,
                components@.dom(),
                seq![e.id],
            ),
            final(self).records() == old(self).records().with_bundle(
                components.key_view(),
                final(self).model().archetypes.index_of(components@.dom()) as u32,
            ),
    {
        proof {
            self.lemma_wf();
            lemma_id_count(self.model());
            law_flush(self.model());
            law_spawn(self.model(), components@);
        }
        // Ensure all entity allocations are accounted for
        self.flush_inner();
        let e: Entity = self.alloc_entity();
        self.spawn_inner(e, components);
        proof {
            self.lemma_wf();
            lemma_id_count(self.model());
        }
        e
    }

    /// Gives an allocated ID its components, in a row of its own: those that there are keep their
    /// place, their entity and their values.
    fn spawn_inner(&mut self, e: Entity, components: DynamicBundle<V>)
        requires
            old(self).inv(set![e.id]),
            old(self).entities.handle(e.id) == e,
            old(self).model().can_hold(components@.dom()),
        ensures
            final(self).wf(),
            final(self).model() == old(self).model().with_entity(e, components@).with_archetype(components@.dom()),
            forall|a: int|
                0 <= a < old(self).archetypes.archs().len() ==> {
                    let n = (#[trigger] old(self).archetypes.archs()[a]).ids_view().len() as int;
                    &&& final(self).archetypes.archs()[a].ids_view().take(n) == old(self).archetypes.archs()[a].ids_view()
                    &&& final(self).archetypes.archs()[a].rows().take(n) == old(self).archetypes.archs()[a].rows()
                },
            final(self).layout() == stored(
                old(self).layout(),
                final(self).model().archetypes,
                components@.dom(),
                seq![e.id],
            ),
            final(self).records() == old(self).records().with_bundle(
                components.key_view(),
                final(self).model().archetypes.index_of(components@.dom()) as u32,
            ),
    {
        let ghost limbo = set![e.id];
        let ghost before = *self;
        proof {
            use_type_invariant(&components);
            assert(components@.dom() =~= components.types_view().to_set());
        }
        let archetype: u32 = self.archetype_of(components.key(), components.types(), Ghost(limbo));
        let ghost middle = *self;
        self.attach(e.id, archetype, components.into_values(), Ghost(limbo));
        proof {
            assert(limbo.remove(e.id) =~= Set::<u32>::empty());
            self.lemma_same_but_rows(&middle, limbo);
            assert forall|a: int| 0 <= a < before.archetypes.archs().len() implies {
                let n = (#[trigger] before.archetypes.archs()[a]).ids_view().len() as int;
                &&& self.archetypes.archs()[a].ids_view().take(n) == before.archetypes.archs()[a].ids_view()
                &&& self.archetypes.archs()[a].rows().take(n) == before.archetypes.archs()[a].rows()
            } by {
                let arch = before.archetypes.archs()[a];
                arch.lemma_shape();
                assert(middle.archetypes.archs()[a] == arch);
                assert(self.archetypes.archs()[a].ids_view().take(arch.ids_view().len() as int) =~= arch.ids_view());
                assert(self.archetypes.archs()[a].rows().take(arch.ids_view().len() as int) =~= arch.rows());
            }
        }
    }

    /// Destroy an entity and all its components.
    pub fn despawn(&mut self, entity: Entity) -> (r: Result<(), NoSuchEntity>)
        requires
            old(self).wf(),
        ensures
            final(self).wf(),
            final(self).model() == after(old(self).model(), Step::Despawn { entity }),
            r is Ok <==> old(self).model().contains(entity),
            !final(self).model().contains(entity),
            forall|x: Entity| #[trigger]
                old(self).model().contains(x) && x != entity ==> final(self).model().live.contains_key(x) && final(self).model().live[x]
                    == old(self).model().components(x),
            r is Ok ==> final(self).model() == old(self).model().flushed().despawned(entity),
            r is Err ==> final(self).model() == old(self).model().flushed(),
            final(self).model().len() == old(self).model().len() + old(self).model().reserved.len() - if r is Ok {
                1int
            } else {
                0
            },
            final(self).layout() == (if r is Ok {
                row_dropped(old(self).flushed_layout(), entity.id)
            } else {
                old(self).flushed_layout()
            }),
            final(self).records() == old(self).records(),
    {
        proof {
            self.lemma_wf();
            lemma_id_count(self.model());
            law_flush(self.model());
            if self.model().contains(entity) {
                law_despawn(self.model(), entity, Map::empty());
            }
        }
        self.flush_inner();
        match self.find(entity) {
            Ok(_) => {
                let _ = self.evict(entity);
                proof {
                    self.lemma_wf();
                    lemma_id_count(self.model());
                }
                Ok(())
            },
            Err(e) => Err(e),
        }
    }

    /// Takes a live entity's components and makes its ID free.
    fn evict(&mut self, entity: Entity) -> (row: Vec<V>)
        requires
            old(self).wf(),
            old(self).entities.flushed(),
            old(self).model().live.contains_key(entity),
        ensures
            final(self).wf(),
            final(self).model() == old(self).model().despawned(entity),
            ({
                let loc = old(self).entities.metas()[entity.id as int].location;
                let types = old(self).archetypes.archs()[loc.archetype as int].types_view();
                &&& row@.len() == types.len()
                &&& row_map(types, row@) == old(self).model().live[entity]
            }),
            final(self).layout() == row_dropped(old(self).layout(), entity.id),
            final(self).graph == old(self).graph,
    {
        let ghost before = *self;
        let row = self.detach(entity.id, Ghost(Set::empty()));
        let ghost limbo = Set::<u32>::empty().insert(entity.id);
        let ghost middle = *self;
        proof {
            self.lemma_same_but_rows(&before, Set::empty());
        }
        self.entities.free(entity.id, Ghost(limbo));
        proof {
            assert(limbo.remove(entity.id) =~= Set::<u32>::empty());
            lemma_same_rows(middle.entities, self.entities, self.archetypes.archs());
            assert(self.entities.freelist_view() =~= before.model().despawned(entity).freelist);
            assert(self.entities.reserved_view() =~= before.entities.reserved_view());
        }
        row
    }

    /// Create an entity with certain components and a specific handle.
    ///
    /// Despawns any existing entity with the same ID.
    ///
    /// Useful for easy handle-preserving deserialization. Be cautious resurrecting old `Entity`
    /// handles in already-populated worlds as it vastly increases the likelihood of collisions.
    pub fn spawn_at(&mut self, handle: Entity, components: DynamicBundle<V>)
        requires
            old(self).wf(),
            old(self).model().can_claim(handle.id),
            old(self).model().can_hold(components@.dom()),
        ensures
            final(self).wf(),
            final(self).model() == after(old(self).model(), Step::SpawnAt { handle, components: components@ }),
            final(self).model().live.contains_key(handle),
            final(self).model().live[handle] == components@,
            forall|x: Entity| x.id == handle.id && x != handle ==> !(#[trigger] final(self).model().contains(x)),
            forall|x: Entity| #[trigger]
                old(self).model().contains(x) && x.id != handle.id ==> final(self).model().live.contains_key(x) && final(self).model().live[x]
                    == old(self).model().components(x),
            final(self).model() == old(self).model().flushed().spawned_at(handle, components@),
            final(self).model().len() == old(self).model().len() + old(self).model().reserved.len() + if old(self).model().occupied(handle.id) {
                0int
            } else {
                1
            },
            final(self).layout() == stored(
                row_dropped(old(self).flushed_layout(), handle.id),
                final(self).model().archetypes,
                components@.dom(),
                seq![handle.id],
            ),
            final(self).records() == old(self).records().with_bundle(
                components.key_view(),
                final(self).model().archetypes.index_of(components@.dom()) as u32,
            ),
    {
        let ghost before = *self;
        proof {
            self.lemma_wf();
            lemma_id_count(self.model());
            law_flush(self.model());
            law_spawn_at(self.model(), handle, components@);
        }
        self.flush_inner();
        proof {
            assert(self.model().live.dom() =~= self.entities.live());
            if before.model().len() + before.model().reserved.len() >= u32::MAX {
                let e = choose|e: Entity| #[trigger] before.model().contains(e) && e.id == handle.id;
                assert(self.model().live.contains_key(e));
            }
            assert(Set::<u32>::empty().insert(handle.id) =~= set![handle.id]);
        }
        self.claim(handle, Ghost(Set::empty()));
        self.spawn_inner(handle, components);
        proof {
            self.lemma_wf();
            lemma_id_count(self.model());
            let m = before.model();
            assert(ids_of(m.freelist).contains(handle.id) ==> !m.occupied(handle.id)) by {
                if ids_of(m.freelist).contains(handle.id) {
                    let i = choose|i: int| 0 <= i < m.freelist.len() && ids_of(m.freelist)[i] == handle.id;
                    assert(m.freelist[i].id == handle.id);
                }
            }
            if handle.id < m.next_id {
                assert(ids_of(m.freelist).contains(handle.id) || m.occupied(handle.id));
            }
        }
    }

    /// Despawn `entity`, yielding its components.
    ///
    /// Useful for moving entities between worlds.
    pub fn take(&mut self, entity: Entity) -> (r: Result<DynamicBundle<V>, NoSuchEntity>)
        requires
            old(self).wf(),
        ensures
            final(self).wf(),
            final(self).model() == after(old(self).model(), Step::Despawn { entity }),
            r is Ok <==> old(self).model().contains(entity),
            !final(self).model().contains(entity),
            forall|x: Entity| #[trigger]
                old(self).model().contains(x) && x != entity ==> final(self).model().live.contains_key(x) && final(self).model().live[x]
                    == old(self).model().components(x),
            r matches Ok(bundle) ==> {
                &&& bundle@ == old(self).model().components(entity)
                &&& bundle.key_view() is None
                &&& final(self).model() == old(self).model().flushed().despawned(entity)
            },
            r is Err ==> final(self).model() == old(self).model().flushed(),
            final(self).model().len() == old(self).model().len() + old(self).model().reserved.len() - if r is Ok {
                1int
            } else {
                0
            },
            final(self).layout() == (if r is Ok {
                row_dropped(old(self).flushed_layout(), entity.id)
            } else {
                old(self).flushed_layout()
            }),
            final(self).records() == old(self).records(),
    {
        proof {
            self.lemma_wf();
            lemma_id_count(self.model());
            law_flush(self.model());
            if self.model().contains(entity) {
                law_despawn(self.model(), entity, Map::empty());
            }
        }
        self.flush_inner();
        match self.find(entity) {
            Ok(loc) => {
                proof {
                    self.archetypes.archs()[loc.archetype as int].lemma_shape();
                }
                let types = copy_types(self.archetypes.all()[loc.archetype as usize].types());
                let row = self.evict(entity);
                proof {
                    self.lemma_wf();
                    lemma_id_count(self.model());
                }
                Ok(DynamicBundle::from_row(types, row))
            },
            Err(e) => Err(e),
        }
    }

    /// Ensure at least `additional` entities with exactly the components of `bundle` can be spawned
    /// without reallocating.
    pub fn reserve(&mut self, bundle: &Bundle, additional: u32)
        requires
            old(self).wf(),
            old(self).model().can_hold(bundle.fields().to_set()),
        ensures
            final(self).wf(),
            final(self).model() == after(old(self).model(), Step::Reserve { types: bundle.fields().to_set() }),
            final(self).model() == old(self).model().flushed().with_archetype(bundle.fields().to_set()),
            final(self).model().len() == old(self).model().len() + old(self).model().reserved.len(),
            final(self).layout() == grown(old(self).flushed_layout(), final(self).model().archetypes.len()),
            final(self).records() == old(self).records().with_bundle(
                bundle.key_view(),
                final(self).model().archetypes.index_of(bundle.fields().to_set()) as u32,
            ),
    {
        let _ = self.reserve_inner(bundle, additional);
    }

    fn reserve_inner(&mut self, bundle: &Bundle, additional: u32) -> (r: u32)
        requires
            old(self).wf(),
            old(self).model().can_hold(bundle.fields().to_set()),
        ensures
            final(self).wf(),
            final(self).entities.flushed(),
            final(self).model() == old(self).model().flushed().with_archetype(bundle.fields().to_set()),
            final(self).model().len() == old(self).model().len() + old(self).model().reserved.len(),
            r < final(self).archetypes.archs().len(),
            final(self).archetypes.archs()[r as int].types_view().to_set() == bundle.fields().to_set(),
            r == final(self).model().archetypes.index_of(bundle.fields().to_set()),
            final(self).layout() == grown(old(self).flushed_layout(), final(self).model().archetypes.len()),
            final(self).records() == old(self).records().with_bundle(
                bundle.key_view(),
                final(self).model().archetypes.index_of(bundle.fields().to_set()) as u32,
            ),
    {
        self.flush_inner();
        let ghost flushed = *self;
        self.entities.reserve(additional);
        proof {
            lemma_same_rows(flushed.entities, self.entities, self.archetypes.archs());
            self.entities.lemma_same_handles(&flushed.entities, Set::empty());
        }
        let types = bundle.sorted_types();
        let archetype: u32 = self.archetype_of(bundle.key(), &types, Ghost(Set::empty()));
        let ghost found = *self;
        self.archetypes.at_mut(archetype).reserve(additional);
        proof {
            self.archetypes.lemma_same_types(&found.archetypes);
            lemma_same_contents(self.entities, found.archetypes.archs(), self.archetypes.archs());
            assert(self.layout() =~= found.layout());
        }
        archetype
    }

    /// Despawn all entities.
    ///
    /// Preserves allocated storage for reuse but clears metadata so that `Entity` values will repeat
    /// (in contrast to `despawn`).
    pub fn clear(&mut self)
        requires
            old(self).wf(),
        ensures
            final(self).wf(),
            final(self).model() == after(old(self).model(), Step::Clear),
            final(self).model() == old(self).model().cleared(),
            final(self).layout() == Seq::new(old(self).model().archetypes.len(), |a: int| Seq::<u32>::empty()),
            final(self).records() == old(self).records(),
    {
        proof {
            self.archetypes.lemma_type_sets();
        }
        self.archetypes.clear();
        self.entities.clear();
        proof {
            assert(self.model().live =~= Map::<Entity, Map<TypeId, V>>::empty());
            assert(self.entities.reserved_view() =~= Seq::<Entity>::empty());
            assert(self.model().reserved =~= Set::<Entity>::empty());
            assert(self.model().freelist =~= Seq::<Entity>::empty());
            assert forall|a: int| 0 <= a < self.layout().len() implies #[trigger] self.layout()[a] =~= Seq::<u32>::empty() by {
                assert(self.archetypes.archs()[a].ids_view().len() == 0);
            }
            assert(self.layout() =~= Seq::new(old(self).model().archetypes.len(), |a: int| Seq::<u32>::empty()));
        }
    }

    /// Whether `entity` still exists.
    pub fn contains(&self, entity: Entity) -> (r: bool)
        requires
            self.wf(),
        ensures
            r == self.model().contains(entity),
    {
        self.entities.contains(entity)
    }

    /// Allocate many entity IDs, without creating the entities yet.
    ///
    /// Reserved entities are not visible to queries or world iteration, but can be otherwise
    /// operated on freely. Operations that add or remove components or entities, such as `insert`
    /// or `despawn`, will cause all outstanding reserved entities to become real entities before
    /// proceeding. This can also be done explicitly by calling `flush`.
    ///
    /// Useful for reserving an ID that will later have components attached to it with `insert`.
    pub fn reserve_entities(&mut self, count: u32) -> (r: Vec<Entity>)
        requires
            old(self).wf(),
            old(self).model().has_room(count as nat),
        ensures
            final(self).wf(),
            final(self).model() == after(old(self).model(), Step::ReserveEntities { count: count as nat }),
            r@ == old(self).model().next_handles(count as nat),
            final(self).model() == (WorldModel {
                reserved: old(self).model().reserved.union(r@.to_set()),
                ..old(self).model().advanced_many(count as nat)
            }),
            final(self).model().reserved.len() == old(self).model().reserved.len() + count,
            final(self).layout() == old(self).layout(),
            final(self).records() == old(self).records(),
            ({
                let again = old(self).model().recycling(count as nat) as int;
                &&& final(self).reserved_again() == r@.take(again) + old(self).reserved_again()
                &&& final(self).reserved_new() == old(self).reserved_new() + r@.skip(again)
            }),
    {
        let ghost before = *self;
        proof {
            self.entities.lemma_handles_distinct(Set::empty());
            self.entities.reserved_view().unique_seq_to_set();
            assert(self.model().live.dom() =~= self.entities.live());
            self.lemma_wf();
            lemma_id_count(self.model());
        }
        let r = self.entities.reserve_entities(count);
        proof {
            lemma_same_rows(before.entities, self.entities, self.archetypes.archs());
            self.lemma_wf();
            lemma_id_count(self.model());
            let again = before.model().recycling(count as nat) as int;
            assert(self.reserved_again() =~= r@.take(again) + before.reserved_again());
            assert(self.reserved_new() =~= before.reserved_new() + r@.skip(again));
        }
        r
    }

    /// Allocate an entity ID, without creating the entity yet.
    ///
    /// See `reserve_entities`.
    pub fn reserve_entity(&mut self) -> (e: Entity)
        requires
            old(self).wf(),
            old(self).model().has_room(1),
        ensures
            final(self).wf(),
            final(self).model() == after(old(self).model(), Step::ReserveEntity),
            e == old(self).model().next_entity(),
            final(self).model() == (WorldModel {
                reserved: old(self).model().reserved.insert(e),
                ..old(self).model().advanced()
            }),
            final(self).model().reserved.len() == old(self).model().reserved.len() + 1,
            final(self).layout() == old(self).layout(),
            final(self).records() == old(self).records(),
            old(self).model().freelist.len() > 0 ==> {
                &&& final(self).reserved_again() == seq![e] + old(self).reserved_again()
                &&& final(self).reserved_new() == old(self).reserved_new()
            },
            old(self).model().freelist.len() == 0 ==> {
                &&& final(self).reserved_again() == old(self).reserved_again()
                &&& final(self).reserved_new() == old(self).reserved_new().push(e)
            },
    {
        let ghost before = *self;
        proof {
            self.entities.lemma_handles_distinct(Set::empty());
            self.entities.reserved_view().unique_seq_to_set();
            assert(self.model().live.dom() =~= self.entities.live());
            self.lemma_wf();
            lemma_id_count(self.model());
        }
        let e: Entity = self.entities.reserve_entity();
        proof {
            lemma_same_rows(before.entities, self.entities, self.archetypes.archs());
            if before.model().freelist.len() > 0 {
                assert(self.reserved_again() =~= seq![e] + before.reserved_again());
                assert(self.reserved_new() =~= before.reserved_new());
            } else {
                assert(self.reserved_again() =~= before.reserved_again());
                assert(self.reserved_new() =~= before.reserved_new().push(e));
            }
        }
        e
    }

    /// Given an ID obtained from `Entity::id`, reconstruct the still-live `Entity`.
    pub fn find_entity_from_id(&self, id: u32) -> (e: Entity)
        requires
            self.wf(),
            self.model().occupied(id),
        ensures
            self.model().contains(e),
            e.id == id,
    {
        proof {
            let known = choose|e: Entity| #[trigger] self.model().contains(e) && e.id == id;
            assert(self.entities.live().contains(known) || self.entities.reserved_view().contains(known));
        }
        self.entities.resolve_unknown_gen(id)
    }

    /// Number of currently live entities.
    pub fn len(&self) -> (r: u32)
        requires
            self.wf(),
        ensures
            r == self.model().len(),
    {
        proof {
            assert(self.model().live.dom() =~= self.entities.live());
        }
        self.entities.len()
    }

    /// Number of entities that can be created before there are as many as can be counted.
    pub fn room(&self) -> (r: u32)
        requires
            self.wf(),
        ensures
            r == u32::MAX - self.model().len() - self.model().reserved.len(),
    {
        proof {
            self.entities.lemma_handles_distinct(Set::empty());
            self.entities.reserved_view().unique_seq_to_set();
            assert(self.model().live.dom() =~= self.entities.live());
        }
        self.entities.room()
    }

    /// Whether no entities are live.
    pub fn is_empty(&self) -> (r: bool)
        requires
            self.wf(),
        ensures
            r == (self.model().live == Map::<Entity, Map<TypeId, V>>::empty()),
    {
        proof {
            assert(self.model().live.dom() =~= self.entities.live());
            if self.model().live.dom().len() == 0 {
                self.model().live.dom().lemma_len0_is_empty();
                assert(self.model().live =~= Map::<Entity, Map<TypeId, V>>::empty());
            }
        }
        self.len() == 0
    }

    /// Entity handles that will be yielded by future spawns.
    ///
    /// `Entity` handles will be allocated deterministically between different worlds (e.g. across
    /// serialization) if they have the same live entities and the same freelist.
    ///
    /// To deserialize a world that will match the entity allocation behavior of a previously
    /// serialized world, first create a new world, then use `spawn_at` or similar to reconstruct the
    /// serialized world's entities in place, then call `set_freelist` with the serialized world's
    /// freelist.
    pub fn freelist(&self) -> (r: Vec<Entity>)
        requires
            self.wf(),
        ensures
            r@ == self.model().freelist,
    {
        self.entities.freelist()
    }

    /// Designate entity IDs to be reused by future spawns.
    ///
    /// See `freelist`. May only be called when the set of live entity IDs exactly matches those that
    /// were live when the supplied freelist was captured. For example, spawning, despawning, or
    /// reserving an entity ID would invalidate a previously captured freelist.
    pub fn set_freelist(&mut self, freelist: &[Entity])
        requires
            old(self).wf(),
            old(self).model().accepts_freelist(freelist@),
        ensures
            final(self).wf(),
            final(self).model() == after(old(self).model(), Step::SetFreelist { list: freelist@ }),
            final(self).model() == old(self).model().with_freelist(freelist@),
            final(self).layout() == old(self).layout(),
            final(self).records() == old(self).records(),
    {
        let ghost before = *self;
        proof {
            let rv = self.entities.reserved_view();
            self.entities.lemma_handles_distinct(Set::empty());
            assert(rv.len() == 0) by {
                if rv.len() > 0 {
                    assert(rv.to_set().contains(rv[0]));
                }
            }
            assert forall|id: u32| self.model().uses(id) <==> #[trigger] self.entities.uses(id) by {
                if self.entities.uses(id) {
                    assert(self.model().live.contains_key(self.entities.handle(id)));
                }
            }
        }
        self.entities.set_freelist(freelist);
        proof {
            lemma_same_rows(before.entities, self.entities, self.archetypes.archs());
            assert(self.entities.reserved_view() =~= Seq::<Entity>::empty());
            assert(self.model().reserved =~= Set::<Entity>::empty());
            self.lemma_wf();
            lemma_id_count(self.model());
        }
    }

    /// The number of the world and of its archetypes: together they change whenever what is known
    /// about the archetypes of a world may be out of date.
    pub fn memo(&self) -> (r: (u64, u32))
        requires
            self.wf(),
        ensures
            r.0 == self.model().id,
            r.1 == self.model().archetypes.len(),
    {
        (self.id, self.archetypes.generation())
    }

    /// Returns a distinct value after `archetypes` is changed.
    ///
    /// Store the current value after deriving information from `archetypes`, then check whether the
    /// value returned by this function differs before attempting an operation that relies on its
    /// correctness. Useful for determining whether e.g. a concurrent query execution plan is still
    /// correct.
    ///
    /// The generation may be, but is not necessarily, changed as a result of adding or removing any
    /// entity or component.
    pub fn archetypes_generation(&self) -> (r: ArchetypesGeneration)
        requires
            self.wf(),
        ensures
            r@ == self.model().archetypes.len(),
    {
        ArchetypesGeneration(self.archetypes.generation())
    }

    /// Inspect the archetypes that entities are organized into.
    ///
    /// Useful for dynamically scheduling concurrent queries by checking borrows in advance, and for
    /// efficient serialization.
    pub fn archetypes(&self) -> (r: &Vec<Archetype<V>>)
        requires
            self.wf(),
        ensures
            self.model().stored_in(r@),
            self.layout() == r@.map_values(|arch: Archetype<V>| arch.ids_view()),
    {
        proof {
            self.lemma_stored();
        }
        self.archetypes.all()
    }
}

} // verus!

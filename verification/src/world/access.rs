//! Reading entities and their components.
use vstd::prelude::*;

use super::{consistent, World};
use crate::archetype::Archetype;
use crate::entities::{Entities, Entity, Location, NoSuchEntity};
use crate::entity_ref::EntityRef;
use crate::errors::{ComponentError, MissingComponent};
use crate::fetch::{fetch, values_of};
use crate::iter::{entities_from, enumerates, known_rows, rows_from, Iter};
use crate::model::WorldModel;
use crate::query::Query;
use crate::types::TypeId;

verus! {

/// What some entities yield, by value.
pub open spec fn entries_of<V>(list: Seq<(Entity, Vec<Option<&V>>)>) -> Seq<(Entity, Seq<Option<V>>)> {
    list.map_values(|x: (Entity, Vec<Option<&V>>)| (x.0, values_of(x.1@)))
}

/// Whether a row comes before row `r` of archetype `a`.
spec fn comes_before(loc: Location, a: int, r: int) -> bool {
    loc.archetype < a || loc.archetype == a && loc.index < r
}

/// A borrow of a world sufficient to execute a query.
pub struct QueryBorrow<'a, 'q, V> {
    world: &'a World<V>,
    query: &'q Query,
}

impl<'a, 'q, V> QueryBorrow<'a, 'q, V> {
    pub closed spec fn world_view(&self) -> WorldModel<V> {
        self.world.model()
    }

    pub closed spec fn query_view(&self) -> Query {
        *self.query
    }

    #[verifier::type_invariant]
    spec fn wf(&self) -> bool {
        &&& self.world.wf()
        &&& self.query.reads()
    }

    /// Execute the query: each entity that satisfies it, with what it fetches.
    ///
    /// Entities are yielded in arbitrary order.
    pub fn iter(&self) -> (r: Vec<(Entity, Vec<Option<&'a V>>)>)
        ensures
            enumerates(entries_of(r@), self.world_view().matches(self.query_view())),
    {
        proof {
            use_type_invariant(self);
        }
        self.world.fetch_all(self.query)
    }
}

/// Provides random access to the entities that satisfy a query.
pub struct ViewBorrow<'a, 'q, V> {
    world: &'a World<V>,
    query: &'q Query,
}

impl<'a, 'q, V> ViewBorrow<'a, 'q, V> {
    pub closed spec fn world_view(&self) -> WorldModel<V> {
        self.world.model()
    }

    pub closed spec fn query_view(&self) -> Query {
        *self.query
    }

    #[verifier::type_invariant]
    spec fn wf(&self) -> bool {
        &&& self.world.wf()
        &&& self.query.reads()
    }

    /// What the query fetches from `entity`, if it is live and satisfies the query.
    pub fn get(&self, entity: Entity) -> (r: Option<Vec<Option<&'a V>>>)
        ensures
            r is Some <==> self.world_view().matches(self.query_view()).contains_key(entity),
            r matches Some(items) ==> values_of(items@) == self.world_view().matches(self.query_view())[entity],
    {
        proof {
            use_type_invariant(self);
        }
        match self.world.live_entity(entity) {
            Some(e) => e.query(self.query),
            None => None,
        }
    }

    /// Whether `entity` is live and satisfies the query.
    pub fn contains(&self, entity: Entity) -> (r: bool)
        ensures
            r == self.world_view().matches(self.query_view()).contains_key(entity),
    {
        proof {
            use_type_invariant(self);
        }
        match self.world.live_entity(entity) {
            Some(e) => e.satisfies(self.query),
            None => false,
        }
    }
}

/// A query against a single entity.
pub struct QueryOne<'a, 'q, V> {
    entity: EntityRef<'a, V>,
    query: &'q Query,
}

impl<'a, 'q, V> QueryOne<'a, 'q, V> {
    pub closed spec fn components(&self) -> Map<TypeId, V> {
        self.entity.components()
    }

    pub closed spec fn query_view(&self) -> Query {
        *self.query
    }

    #[verifier::type_invariant]
    spec fn wf(&self) -> bool {
        self.query.reads()
    }

    /// Get the query result, or nothing if the entity does not satisfy the query.
    pub fn get(&self) -> (r: Option<Vec<Option<&'a V>>>)
        ensures
            r is Some <==> self.query_view().satisfied(self.components().dom()),
            r matches Some(items) ==> values_of(items@) == self.query_view().items(self.components()),
    {
        proof {
            use_type_invariant(self);
        }
        self.entity.query(self.query)
    }
}

impl<V> World<V> {
    /// Access an entity regardless of its component types.
    pub fn entity(&self, entity: Entity) -> (r: Result<EntityRef<'_, V>, NoSuchEntity>)
        requires
            self.wf(),
        ensures
            r is Ok <==> self.model().contains(entity),
            r matches Ok(e) ==> e.entity_view() == entity && e.components() == self.model().components(entity),
    {
        match self.entities.get(entity) {
            Ok(loc) => {
                let archetype = &self.archetypes.all()[loc.archetype as usize];
                proof {
                    archetype.lemma_shape();
                }
                Ok(EntityRef::new(archetype, entity, loc.index))
            },
            Err(e) => Err(e),
        }
    }

    /// Access an entity that is not merely reserved.
    pub(super) fn live_entity(&self, entity: Entity) -> (r: Option<EntityRef<'_, V>>)
        requires
            self.wf(),
        ensures
            r is Some <==> self.model().live.contains_key(entity),
            r matches Some(e) ==> e.components() == self.model().live[entity],
    {
        proof {
            self.lemma_wf();
        }
        match self.entities.get(entity) {
            Ok(loc) => if loc.index == u32::MAX {
                None
            } else {
                Some(EntityRef::new(&self.archetypes.all()[loc.archetype as usize], entity, loc.index))
            },
            Err(_) => None,
        }
    }

    /// Short-hand for `entity` followed by `EntityRef::get`.
    ///
    /// Through a shared world, a component is only read; see `get_unchecked` and `share`.
    pub fn get(&self, entity: Entity, ty: TypeId) -> (r: Result<&V, ComponentError>)
        requires
            self.wf(),
        ensures
            r == (if !self.model().contains(entity) {
                Err(ComponentError::NoSuchEntity)
            } else if !self.model().components(entity).contains_key(ty) {
                Err(ComponentError::MissingComponent(MissingComponent { ty }))
            } else {
                Ok(&self.model().components(entity)[ty])
            }),
    {
        match self.entity(entity) {
            Ok(e) => match e.get(ty) {
                Some(v) => Ok(v),
                None => Err(ComponentError::from(MissingComponent { ty })),
            },
            Err(e) => Err(ComponentError::from(e)),
        }
    }

    /// Short-hand for `entity` followed by `EntityRef::satisfies`.
    pub fn satisfies(&self, entity: Entity, query: &Query) -> (r: Result<bool, NoSuchEntity>)
        requires
            self.wf(),
        ensures
            r == (if self.model().contains(entity) {
                Ok::<bool, NoSuchEntity>(query.satisfied(self.model().components(entity).dom()))
            } else {
                Err(NoSuchEntity)
            }),
    {
        match self.entity(entity) {
            Ok(e) => Ok(e.satisfies(query)),
            Err(e) => Err(e),
        }
    }

    /// Prepare a query against a single entity.
    ///
    /// Call `QueryOne::get` on the result to actually execute the query. Handy for accessing
    /// multiple components simultaneously.
    ///
    /// Through a shared world, components are only read; see `query_one_mut` and `share`.
    pub fn query_one<'a, 'q>(&'a self, entity: Entity, query: &'q Query) -> (r: Result<QueryOne<'a, 'q, V>, NoSuchEntity>)
        requires
            self.wf(),
            query.reads(),
        ensures
            r is Ok <==> self.model().contains(entity),
            r matches Ok(one) ==> one.components() == self.model().components(entity) && one.query_view() == *query,
    {
        match self.entity(entity) {
            Ok(e) => Ok(QueryOne { entity: e, query }),
            Err(e) => Err(e),
        }
    }

    /// Efficiently iterate over all entities that have certain components.
    ///
    /// Calling `iter` on the returned value yields each entity with what the query fetches from it.
    /// Entities which do not have a component type referenced outside of a `Query::Optional` will be
    /// skipped.
    ///
    /// Through a shared world, components are only read, so that any number of queries can be active
    /// at the same time. For queries that write, see `query_mut`, and `share` for several of them at
    /// the same time.
    ///
    /// Entities are yielded in arbitrary order.
    pub fn query<'a, 'q>(&'a self, query: &'q Query) -> (r: QueryBorrow<'a, 'q, V>)
        requires
            self.wf(),
            query.reads(),
        ensures
            r.world_view() == self.model(),
            r.query_view() == *query,
    {
        QueryBorrow { world: self, query }
    }

    /// Provide random access to any entity for a given query.
    ///
    /// Through a shared world, components are only read; see `view_mut` and `share`.
    pub fn view<'a, 'q>(&'a self, query: &'q Query) -> (r: ViewBorrow<'a, 'q, V>)
        requires
            self.wf(),
            query.reads(),
        ensures
            r.world_view() == self.model(),
            r.query_view() == *query,
    {
        ViewBorrow { world: self, query }
    }

    /// Iterate over all entities in the world.
    ///
    /// Entities are yielded in arbitrary order. Prefer `query` for better performance when
    /// components will be accessed in predictable patterns.
    pub fn iter(&self) -> (r: Iter<'_, V>)
        requires
            self.wf(),
        ensures
            enumerates(r.remaining(), self.model().live),
            r.total() == self.model().len(),
    {
        proof {
            let archs = self.archetypes.archs();
            assert forall|a: int| 0 <= a < archs.len() implies known_rows(self.entities, #[trigger] archs[a]) by {}
            self.lemma_iteration();
            assert(self.model().live.dom() =~= self.entities.live());
        }
        Iter::new(self.archetypes.all(), &self.entities)
    }

    /// Every live entity is met once on a walk over all rows.
    proof fn lemma_iteration(&self)
        requires
            self.wf(),
        ensures
            enumerates(entities_from(self.entities, self.archetypes.archs(), 0), self.model().live),
    {
        let archs = self.archetypes.archs();
        let list = entities_from(self.entities, archs, 0);
        assert forall|a: int| 0 <= a < archs.len() implies (#[trigger] archs[a]).ids_view().len() <= u32::MAX by {
            archs[a].lemma_shape();
        }
        lemma_rows_listed(self.entities, archs, 0);
        assert forall|e: Entity| #[trigger] self.model().live.contains_key(e) implies exists|i: int|
            0 <= i < list.len() && (#[trigger] list[i]).0 == e by {
            let loc = self.entities.metas()[e.id as int].location;
            let (a, r) = (loc.archetype as int, loc.index as int);
            assert(archs[a].ids_view()[r] == e.id);
            assert(listed(list, self.entities, archs[a], r));
        }
        assert forall|i: int| 0 <= i < list.len() implies self.model().live.contains_key((#[trigger] list[i]).0) && self.model().live[list[i].0]
            == list[i].1 by {
            assert(has_place(list[i], self.entities, archs, 0));
            let (a, r) = choose|a: int, r: int|
                0 <= a < archs.len() && 0 <= r < (#[trigger] archs[a]).ids_view().len() && #[trigger] is_row(
                    list[i],
                    self.entities,
                    archs[a],
                    r,
                );
            assert(archs[a].ids_view()[r] == list[i].0.id);
        }
    }

    /// Fetches from each entity that satisfies the query.
    fn fetch_all<'a>(&'a self, query: &Query) -> (out: Vec<(Entity, Vec<Option<&'a V>>)>)
        requires
            self.wf(),
        ensures
            enumerates(entries_of(out@), self.model().matches(*query)),
    {
        let archetypes = self.archetypes.all();
        let ghost archs = archetypes@;
        let ghost metas = self.entities.metas();
        let ghost matches = self.model().matches(*query);
        let mut out: Vec<(Entity, Vec<Option<&'a V>>)> = Vec::new();
        let mut a: usize = 0;
        while a < archetypes.len()
            invariant
                self.wf(),
                a <= archs.len(),
                archs == archetypes@,
                archs == self.archetypes.archs(),
                metas == self.entities.metas(),
                matches == self.model().matches(*query),
                forall|i: int, j: int| 0 <= i < j < out@.len() ==> (#[trigger] out@[i]).0 != (#[trigger] out@[j]).0,
                forall|i: int|
                    0 <= i < out@.len() ==> {
                        let e = (#[trigger] out@[i]).0;
                        &&& matches.contains_key(e)
                        &&& values_of(out@[i].1@) == matches[e]
                        &&& comes_before(metas[e.id as int].location, a as int, 0)
                    },
                forall|e: Entity| #[trigger]
                    matches.contains_key(e) && comes_before(metas[e.id as int].location, a as int, 0) ==> exists|i: int|
                        0 <= i < out@.len() && (#[trigger] out@[i]).0 == e,
            decreases archs.len() - a,
        {
            let archetype = &archetypes[a];
            let ghost types = archetype.types_view();
            proof {
                archetype.lemma_shape();
                self.lemma_archetype_types(a as int);
            }
            if let Some(plan) = query.prepare(archetype.types()) {
                let n: u32 = archetype.len();
                let mut r: u32 = 0;
                while r < n
                    invariant
                        self.wf(),
                        a < archs.len(),
                        *archetype == archs[a as int],
                        archetype.wf(),
                        r <= n,
                        n == archetype.ids_view().len(),
                        types == archetype.types_view(),
                        query.satisfied(types.to_set()),
                        query.finds(types, plan@),
                        archs == self.archetypes.archs(),
                        metas == self.entities.metas(),
                        matches == self.model().matches(*query),
                        forall|e: Entity| #[trigger]
                            self.model().live.contains_key(e) && metas[e.id as int].location.archetype == a ==> self.model().live[e].dom()
                                == types.to_set(),
                        forall|i: int, j: int|
                            0 <= i < j < out@.len() ==> (#[trigger] out@[i]).0 != (#[trigger] out@[j]).0,
                        forall|i: int|
                            0 <= i < out@.len() ==> {
                                let e = (#[trigger] out@[i]).0;
                                &&& matches.contains_key(e)
                                &&& values_of(out@[i].1@) == matches[e]
                                &&& comes_before(metas[e.id as int].location, a as int, r as int)
                            },
                        forall|e: Entity| #[trigger]
                            matches.contains_key(e) && comes_before(metas[e.id as int].location, a as int, r as int)
                                ==> exists|i: int| 0 <= i < out@.len() && (#[trigger] out@[i]).0 == e,
                    decreases n - r,
                {
                    let id: u32 = archetype.entity_id(r);
                    assert(archs[a as int].ids_view()[r as int] == id);
                    let e: Entity = Entity { id, generation: self.entities.generation(id) };
                    let items = fetch(query, &plan, archetype, r);
                    let ghost before = out@;
                    out.push((e, items));
                    proof {
                        assert(self.model().live.contains_key(e));
                        assert(matches.contains_key(e));
                        assert forall|x: Entity| #[trigger]
                            matches.contains_key(x) && comes_before(metas[x.id as int].location, a as int, r + 1) implies exists|
                            i: int,
                        | 0 <= i < out@.len() && (#[trigger] out@[i]).0 == x by {
                            let loc = metas[x.id as int].location;
                            if comes_before(loc, a as int, r as int) {
                                let i = choose|i: int| 0 <= i < before.len() && (#[trigger] before[i]).0 == x;
                                assert(out@[i].0 == x);
                            } else {
                                assert(archs[a as int].ids_view()[r as int] == x.id);
                                assert(out@[before.len() as int].0 == x);
                            }
                        }
                    }
                    r = r + 1;
                }
            }
            proof {
                assert forall|e: Entity| #[trigger]
                    matches.contains_key(e) && comes_before(metas[e.id as int].location, a + 1, 0) implies exists|i: int|
                    0 <= i < out@.len() && (#[trigger] out@[i]).0 == e by {
                    let loc = metas[e.id as int].location;
                    if !comes_before(loc, a as int, 0) {
                        assert(archs[a as int].ids_view()[loc.index as int] == e.id);
                        assert(query.satisfied(types.to_set()));
                        assert(comes_before(loc, a as int, archetype.ids_view().len() as int));
                    }
                }
            }
            a = a + 1;
        }
        proof {
            let entries = entries_of(out@);
            assert forall|e: Entity| #[trigger] matches.contains_key(e) implies exists|i: int|
                0 <= i < entries.len() && (#[trigger] entries[i]).0 == e by {
                assert(comes_before(metas[e.id as int].location, archs.len() as int, 0));
                let i = choose|i: int| 0 <= i < out@.len() && (#[trigger] out@[i]).0 == e;
                assert(entries[i].0 == e);
            }
            assert forall|i: int| 0 <= i < entries.len() implies matches.contains_key((#[trigger] entries[i]).0)
                && matches[entries[i].0] == entries[i].1 by {
                assert(out@[i].0 == entries[i].0);
            }
        }
        out
    }

    /// An entity that exists has the component types of the archetype where it is found.
    pub(super) proof fn lemma_components(&self, entity: Entity, loc: Location)
        requires
            self.wf(),
            self.model().contains(entity),
            loc == (if self.model().live.contains_key(entity) {
                self.entities.metas()[entity.id as int].location
            } else {
                Location { archetype: 0, index: u32::MAX }
            }),
        ensures
            loc.archetype < self.model().archetypes.len(),
            self.model().archetypes[loc.archetype as int] == self.model().components(entity).dom(),
    {
        self.archetypes.lemma_type_sets();
        if self.model().live.contains_key(entity) {
            self.lemma_archetype_types(loc.archetype as int);
        } else {
            assert(self.model().components(entity).dom() =~= Set::<TypeId>::empty());
        }
    }

    /// The entities of an archetype have its component types.
    pub(super) proof fn lemma_archetype_types(&self, a: int)
        requires
            self.wf(),
            0 <= a < self.archetypes.archs().len(),
        ensures
            forall|e: Entity| #[trigger]
                self.model().live.contains_key(e) && self.entities.metas()[e.id as int].location.archetype == a
                    ==> self.model().live[e].dom() == self.archetypes.archs()[a].types_view().to_set(),
    {
        let types = self.archetypes.archs()[a].types_view();
        assert forall|e: Entity| #[trigger]
            self.model().live.contains_key(e) && self.entities.metas()[e.id as int].location.archetype == a implies self.model().live[e].dom()
            == types.to_set() by {
            assert(self.model().live[e].dom() =~= types.to_set());
        }
    }
}

/// Whether the entry is that of a row.
spec fn is_row<V>(entry: (Entity, Map<TypeId, V>), entities: Entities, archetype: Archetype<V>, r: int) -> bool {
    entry == (entities.handle(archetype.ids_view()[r]), archetype.components(r))
}

/// Whether the entry is that of a row of an archetype from position `from` on.
spec fn has_place<V>(entry: (Entity, Map<TypeId, V>), entities: Entities, archs: Seq<Archetype<V>>, from: int) -> bool {
    exists|a: int, r: int|
        from <= a < archs.len() && 0 <= r < (#[trigger] archs[a]).ids_view().len() && #[trigger] is_row(
            entry,
            entities,
            archs[a],
            r,
        )
}

/// Whether the list has an entry for a row.
spec fn listed<V>(list: Seq<(Entity, Map<TypeId, V>)>, entities: Entities, archetype: Archetype<V>, r: int) -> bool {
    exists|i: int| 0 <= i < list.len() && #[trigger] is_row(list[i], entities, archetype, r)
}

/// The entries of a walk are the rows, each once.
proof fn lemma_rows_listed<V>(entities: Entities, archs: Seq<Archetype<V>>, from: int)
    requires
        consistent(entities.metas(), archs),
        0 <= from <= archs.len(),
        archs.len() <= u32::MAX,
        forall|a: int| 0 <= a < archs.len() ==> (#[trigger] archs[a]).ids_view().len() <= u32::MAX,
    ensures
        ({
            let list = entities_from(entities, archs, from);
            &&& forall|a: int, r: int|
                from <= a < archs.len() && 0 <= r < archs[a].ids_view().len() ==> #[trigger] listed(list, entities, archs[a], r)
            &&& forall|i: int| 0 <= i < list.len() ==> has_place(#[trigger] list[i], entities, archs, from)
            &&& forall|i: int, j: int| 0 <= i < j < list.len() ==> (#[trigger] list[i]).0 != (#[trigger] list[j]).0
        }),
    decreases archs.len() - from,
{
    let list = entities_from(entities, archs, from);
    if from < archs.len() {
        lemma_rows_listed(entities, archs, from + 1);
        let first = rows_from(entities, archs[from], 0);
        let rest = entities_from(entities, archs, from + 1);
        let n = first.len() as int;
        assert forall|a: int, r: int|
            from <= a < archs.len() && 0 <= r < archs[a].ids_view().len() implies #[trigger] listed(list, entities, archs[a], r) by {
            if a == from {
                assert(is_row(list[r], entities, archs[a], r));
            } else {
                assert(listed(rest, entities, archs[a], r));
                let i = choose|i: int| 0 <= i < rest.len() && #[trigger] is_row(rest[i], entities, archs[a], r);
                assert(list[n + i] == rest[i]);
                assert(is_row(list[n + i], entities, archs[a], r));
            }
        }
        assert forall|i: int| 0 <= i < list.len() implies has_place(#[trigger] list[i], entities, archs, from) by {
            if i < n {
                assert(is_row(list[i], entities, archs[from], i));
            } else {
                assert(list[i] == rest[i - n]);
                assert(has_place(rest[i - n], entities, archs, from + 1));
                let (a, r) = choose|a: int, r: int|
                    from + 1 <= a < archs.len() && 0 <= r < (#[trigger] archs[a]).ids_view().len() && #[trigger] is_row(
                        rest[i - n],
                        entities,
                        archs[a],
                        r,
                    );
                assert(is_row(list[i], entities, archs[a], r));
            }
        }
        assert forall|i: int, j: int| 0 <= i < j < list.len() implies (#[trigger] list[i]).0 != (#[trigger] list[j]).0 by {
            if i < n {
                assert(is_row(list[i], entities, archs[from], i));
                assert(archs[from].ids_view()[i] == list[i].0.id);
                if j < n {
                    assert(is_row(list[j], entities, archs[from], j));
                    assert(archs[from].ids_view()[j] == list[j].0.id);
                } else {
                    assert(list[j] == rest[j - n]);
                    assert(has_place(rest[j - n], entities, archs, from + 1));
                    let (a, r) = choose|a: int, r: int|
                        from + 1 <= a < archs.len() && 0 <= r < (#[trigger] archs[a]).ids_view().len() && #[trigger] is_row(
                            rest[j - n],
                            entities,
                            archs[a],
                            r,
                        );
                    assert(archs[a].ids_view()[r] == list[j].0.id);
                }
            } else {
                assert(list[i] == rest[i - n]);
                assert(list[j] == rest[j - n]);
            }
        }
    }
}

} // verus!

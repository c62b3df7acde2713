//! Several queries at the same time, some of which write, on one world.
use vstd::prelude::*;

use super::{current_entries, World};
use crate::entities::{Entity, NoSuchEntity};
use crate::fetch::{as_asked, current_values, Fetched};
use crate::iter::enumerates;
use crate::model::WorldModel;
use crate::query::Query;
use crate::types::TypeId;

verus! {

/// Error indicating that a query would violate an existing unique reference or construct an invalid
/// unique reference.
#[derive(Debug, Clone, Copy, PartialEq, Eq, Hash, Structural)]
pub struct BorrowConflict;

/// The components that a query borrows: of all entities that satisfy it, or only of those that have
/// exactly certain component types.
pub struct Claim {
    pub query: Query,
    pub only: Option<Set<TypeId>>,
}

impl Claim {
    /// Whether components of entities with exactly these component types are borrowed.
    pub open spec fn covers(self, types: Set<TypeId>) -> bool {
        &&& self.query.satisfied(types)
        &&& self.only matches Some(t) ==> t == types
    }

    /// Whether both queries refer to a component type, one of them to write it, and there is an entity
    /// that has all components required by both.
    pub open spec fn conflicts<V>(self, other: Claim, m: WorldModel<V>) -> bool {
        &&& self.query.clashes(other.query)
        &&& self.meets(other, m)
    }

    /// Whether there is an entity that has all components required by both queries.
    pub open spec fn meets<V>(self, other: Claim, m: WorldModel<V>) -> bool {
        exists|e: Entity| #[trigger]
            m.live.contains_key(e) && self.covers(m.live[e].dom()) && other.covers(m.live[e].dom())
    }
}

/// Whether a claim would violate one of those that are held.
pub open spec fn blocked<V>(held: Map<nat, Claim>, claim: Claim, m: WorldModel<V>) -> bool {
    exists|p: nat| #[trigger] held.contains_key(p) && held[p].conflicts(claim, m)
}

/// What a query borrows, by the position of the archetype, if it is a single one.
#[derive(Clone, Copy)]
struct Hold<'q> {
    query: &'q Query,
    archetype: Option<u32>,
}

impl<'q> Hold<'q> {
    spec fn claim(&self, archetypes: Seq<Set<TypeId>>) -> Claim {
        Claim {
            query: *self.query,
            only: match self.archetype {
                Some(a) => Some(archetypes[a as int]),
                None => None,
            },
        }
    }

    spec fn wf(&self, archetypes: Seq<Set<TypeId>>) -> bool {
        &&& self.query.borrows()
        &&& self.archetype matches Some(a) ==> a < archetypes.len()
    }
}

/// A query on a world whose components are borrowed dynamically.
pub struct SharedQuery<'q> {
    hold: Hold<'q>,
    place: Option<usize>,
}

impl<'q> SharedQuery<'q> {
    /// What the query borrows, where there are these archetypes.
    pub closed spec fn claim(&self, archetypes: Seq<Set<TypeId>>) -> Claim {
        self.hold.claim(archetypes)
    }

    /// Under which number the borrow is held, if it is.
    pub closed spec fn place(&self) -> Option<nat> {
        match self.place {
            Some(p) => Some(p as nat),
            None => None,
        }
    }

    pub closed spec fn wf(&self, archetypes: Seq<Set<TypeId>>) -> bool {
        self.hold.wf(archetypes)
    }
}

/// A query against a single entity of a world whose components are borrowed dynamically.
pub struct SharedQueryOne<'q> {
    entity: Entity,
    inner: SharedQuery<'q>,
}

impl<'q> SharedQueryOne<'q> {
    pub closed spec fn entity_view(&self) -> Entity {
        self.entity
    }

    pub closed spec fn query_view(&self) -> SharedQuery<'q> {
        self.inner
    }
}

/// A world whose components are borrowed dynamically, while no entity is created or destroyed and no
/// component added or removed.
///
/// Any number of queries can be active at the same time. A query borrows the components that it refers
/// to when it is first executed, unless that would violate what another query has borrowed, and keeps
/// them until it is released. What it fetches is accessed through the sharing, by one query at a time.
pub struct Sharing<'q, V> {
    world: World<V>,
    holds: Vec<Option<Hold<'q>>>,
}

impl<V> World<V> {
    /// Borrow components dynamically from here on, until `Sharing::into_world`.
    pub fn share<'q>(self) -> (r: Sharing<'q, V>)
        requires
            self.wf(),
        ensures
            r.wf(),
            r.world_view() == self,
            r.held() == Map::<nat, Claim>::empty(),
    {
        let r = Sharing { world: self, holds: Vec::new() };
        assert(r.held() =~= Map::<nat, Claim>::empty());
        r
    }

    /// Whether there is an entity that has all components required by both queries.
    fn meets(&self, x: &Hold<'_>, y: &Hold<'_>) -> (r: bool)
        requires
            self.wf(),
            x.wf(self.model().archetypes),
            y.wf(self.model().archetypes),
        ensures
            r == x.claim(self.model().archetypes).meets(y.claim(self.model().archetypes), self.model()),
    {
        let archetypes = self.archetypes.all();
        let ghost m = self.model();
        let ghost archs = archetypes@;
        let ghost cx = x.claim(m.archetypes);
        let ghost cy = y.claim(m.archetypes);
        proof {
            self.archetypes.lemma_type_sets();
        }
        let mut a: usize = 0;
        while a < archetypes.len()
            invariant
                self.wf(),
                a <= archs.len(),
                archs == archetypes@,
                archs == self.archetypes.archs(),
                archs.len() <= u32::MAX,
                m == self.model(),
                m.archetypes.len() == archs.len(),
                m.archetypes.no_duplicates(),
                x.wf(m.archetypes),
                y.wf(m.archetypes),
                cx == x.claim(m.archetypes),
                cy == y.claim(m.archetypes),
                forall|b: int|
                    0 <= b < a && (#[trigger] archs[b]).ids_view().len() > 0 ==> !(cx.covers(m.archetypes[b]) && cy.covers(
                        m.archetypes[b],
                    )),
            decreases archs.len() - a,
        {
            let archetype = &archetypes[a];
            proof {
                archetype.lemma_shape();
                assert(m.archetypes[a as int] == archetype.types_view().to_set());
            }
            let in_x: bool = match x.archetype {
                Some(i) => i == a as u32,
                None => true,
            };
            let in_y: bool = match y.archetype {
                Some(i) => i == a as u32,
                None => true,
            };
            if !archetype.is_empty() && in_x && in_y && x.query.prepare(archetype.types()).is_some() && y.query.prepare(
                archetype.types(),
            ).is_some() {
                proof {
                    let id = archs[a as int].ids_view()[0];
                    let e = self.entities.handle(id);
                    assert(m.live.contains_key(e));
                    self.lemma_archetype_types(a as int);
                    assert(cx.covers(m.live[e].dom()) && cy.covers(m.live[e].dom()));
                }
                return true;
            }
            a = a + 1;
        }
        proof {
            assert forall|e: Entity| #[trigger] m.live.contains_key(e) implies !(cx.covers(m.live[e].dom()) && cy.covers(
                m.live[e].dom(),
            )) by {
                let loc = self.entities.metas()[e.id as int].location;
                let b = loc.archetype as int;
                self.lemma_archetype_types(b);
                assert(archs[b].ids_view()[loc.index as int] == e.id);
                assert(m.archetypes[b] == m.live[e].dom());
            }
        }
        false
    }
}

impl<'q, V> Sharing<'q, V> {
    /// The world.
    pub closed spec fn world_view(&self) -> World<V> {
        self.world
    }

    pub open spec fn model(&self) -> WorldModel<V> {
        self.world_view().model()
    }

    /// The borrows that are held, by number.
    pub closed spec fn held(&self) -> Map<nat, Claim> {
        Map::new(
            |p: nat| p < self.holds@.len() && self.holds@[p as int] is Some,
            |p: nat| self.holds@[p as int]->0.claim(self.world.model().archetypes),
        )
    }

    pub closed spec fn wf(&self) -> bool {
        &&& self.world.wf()
        &&& forall|p: int|
            0 <= p < self.holds@.len() && (#[trigger] self.holds@[p]) is Some ==> self.holds@[p]->0.wf(
                self.world.model().archetypes,
            )
    }

    /// Whether the query is one on this world, and its borrow is held if it is held at all.
    pub open spec fn knows(&self, query: SharedQuery<'q>) -> bool {
        &&& query.wf(self.model().archetypes)
        &&& query.place() matches Some(p) ==> self.held().contains_key(p) && self.held()[p] == query.claim(
            self.model().archetypes,
        )
    }

    /// What comes of asking for the components of a query: they are borrowed if they are already, or if
    /// that violates nothing. Only then is anything changed.
    pub open spec fn borrowed(
        &self,
        before: &Sharing<'q, V>,
        asked: SharedQuery<'q>,
        now: SharedQuery<'q>,
        granted: bool,
    ) -> bool {
        let archetypes = before.model().archetypes;
        &&& granted <==> asked.place() is Some || !blocked(before.held(), asked.claim(archetypes), before.model())
        &&& self.knows(now)
        &&& now.claim(archetypes) == asked.claim(archetypes)
        &&& if granted && asked.place() is None {
            &&& now.place() is Some
            &&& !before.held().contains_key(now.place()->0)
            &&& self.held() == before.held().insert(now.place()->0, asked.claim(archetypes))
        } else {
            &&& now == asked
            &&& self.held() == before.held()
        }
    }

    /// End the dynamic borrows.
    pub fn into_world(self) -> (r: World<V>)
        requires
            self.wf(),
        ensures
            r == self.world_view(),
            r.wf(),
    {
        self.world
    }

    /// Efficiently iterate over all entities that have certain components, once `iter` is called.
    ///
    /// Components queried with `Query::Unique` must only appear once. Nothing is borrowed yet.
    pub fn query(&self, query: &'q Query) -> (r: SharedQuery<'q>)
        requires
            self.wf(),
            query.borrows(),
        ensures
            self.knows(r),
            r.place() is None,
            r.claim(self.model().archetypes) == (Claim { query: *query, only: None }),
    {
        SharedQuery { hold: Hold { query, archetype: None }, place: None }
    }

    /// Provide random access to any entity for a given query. The components are borrowed at once.
    pub fn view(&mut self, query: &'q Query) -> (r: Result<SharedQuery<'q>, BorrowConflict>)
        requires
            old(self).wf(),
            query.borrows(),
        ensures
            final(self).wf(),
            final(self).world_view() == old(self).world_view(),
            r is Err <==> blocked(old(self).held(), Claim { query: *query, only: None }, old(self).model()),
            r is Err ==> final(self).held() == old(self).held(),
            r matches Ok(view) ==> {
                &&& final(self).knows(view)
                &&& view.place() is Some
                &&& view.claim(old(self).model().archetypes) == (Claim { query: *query, only: None })
                &&& !old(self).held().contains_key(view.place()->0)
                &&& final(self).held() == old(self).held().insert(view.place()->0, Claim { query: *query, only: None })
            },
    {
        let mut view = self.query(query);
        if self.borrow(&mut view) {
            Ok(view)
        } else {
            Err(BorrowConflict)
        }
    }

    /// Prepare a query against a single entity. Nothing is borrowed yet; when `get_one` executes the
    /// query, the components of all entities that have the same component types are.
    pub fn query_one(&self, entity: Entity, query: &'q Query) -> (r: Result<SharedQueryOne<'q>, NoSuchEntity>)
        requires
            self.wf(),
            query.borrows(),
        ensures
            r is Ok <==> self.model().contains(entity),
            r matches Ok(one) ==> {
                &&& self.knows(one.query_view())
                &&& one.query_view().place() is None
                &&& one.entity_view() == entity
                &&& one.query_view().claim(self.model().archetypes) == (Claim {
                    query: *query,
                    only: Some(self.model().components(entity).dom()),
                })
            },
    {
        proof {
            self.world.lemma_wf();
        }
        match self.world.entities.get(entity) {
            Ok(loc) => {
                proof {
                    self.world.lemma_components(entity, loc);
                }
                let hold = Hold { query, archetype: Some(loc.archetype) };
                Ok(SharedQueryOne { entity, inner: SharedQuery { hold, place: None } })
            },
            Err(e) => Err(e),
        }
    }

    /// Borrows the components of a query, if they are not yet; returns whether they are borrowed now.
    fn borrow(&mut self, query: &mut SharedQuery<'q>) -> (r: bool)
        requires
            old(self).wf(),
            old(self).knows(*old(query)),
        ensures
            final(self).wf(),
            final(self).world_view() == old(self).world_view(),
            final(self).borrowed(old(self), *old(query), *final(query), r),
            final(query).hold == old(query).hold,
    {
        if query.place.is_some() {
            return true;
        }
        let ghost before = *self;
        let ghost asked = *query;
        let ghost m = self.world.model();
        let ghost claim = query.claim(m.archetypes);
        let n: usize = self.holds.len();
        let mut free: usize = n;
        let mut i: usize = 0;
        while i < n
            invariant
                *self == before,
                *query == asked,
                before.wf(),
                before.knows(asked),
                asked.place is None,
                m == before.world.model(),
                n == before.holds@.len(),
                i <= n,
                query.hold.wf(m.archetypes),
                claim == query.hold.claim(m.archetypes),
                free <= n,
                free < n ==> before.holds@[free as int] is None,
                forall|p: int|
                    0 <= p < i && (#[trigger] before.holds@[p]) is Some ==> !before.holds@[p]->0.claim(m.archetypes).conflicts(
                        claim,
                        m,
                    ),
            decreases n - i,
        {
            match self.holds[i] {
                Some(hold) => {
                    if hold.query.clashes_with(query.hold.query) && self.world.meets(&hold, &query.hold) {
                        proof {
                            assert(before.held().contains_key(i as nat));
                            assert(before.held()[i as nat].conflicts(claim, m));
                        }
                        return false;
                    }
                },
                None => {
                    free = i;
                },
            }
            i = i + 1;
        }
        assert(!blocked(before.held(), claim, m));
        if free < n {
            self.holds.set(free, Some(query.hold));
        } else {
            self.holds.push(Some(query.hold));
        }
        query.place = Some(free);
        assert(self.held() =~= before.held().insert(free as nat, claim));
        true
    }

    /// Execute a query: each entity that satisfies it, with what it fetches; components queried with
    /// `Query::Unique` can be written.
    ///
    /// Entities are yielded in arbitrary order. Fails if that would violate an existing unique
    /// reference or construct an invalid unique reference: two queries that are active at the same
    /// time can access the same component type, one of them to write it, if and only if no entity has
    /// all components required by both.
    pub fn iter<'a>(&'a mut self, query: &mut SharedQuery<'q>) -> (r: Result<
        Vec<(Entity, Vec<Option<Fetched<'a, V>>>)>,
        BorrowConflict,
    >)
        requires
            old(self).wf(),
            old(self).knows(*old(query)),
            old(query).claim(old(self).model().archetypes).only is None,
        ensures
            final(self).wf(),
            final(self).borrowed(old(self), *old(query), *final(query), r is Ok),
            final(self).model() == (WorldModel { live: final(self).model().live, ..old(self).model() }),
            final(self).world_view().unmoved(&old(self).world_view()),
            final(self).model().live.dom() == old(self).model().live.dom(),
            r is Err ==> final(self).world_view() == old(self).world_view(),
            forall|e: Entity| #[trigger]
                old(self).model().live.contains_key(e) ==> final(self).model().live[e].dom() == old(self).model().live[e].dom(),
            r matches Ok(list) ==> {
                let q = old(query).claim(old(self).model().archetypes).query;
                &&& enumerates(current_entries(list@), old(self).model().matches(q))
                &&& forall|i: int| 0 <= i < list@.len() ==> as_asked(q, (#[trigger] list@[i]).1@)
                &&& forall|i: int, k: int|
                    0 <= i < list@.len() && 0 <= k < q.leaves().len() ==> (#[trigger] list@[i].1@[k] matches Some(
                        Fetched::Unique(x),
                    ) ==> *final(x) == final(self).model().live[list@[i].0][q.leaves()[k].ty])
                &&& forall|e: Entity, ty: TypeId|
                    old(self).model().live.contains_key(e) && old(self).model().live[e].contains_key(ty) && !(q.satisfied(
                        old(self).model().live[e].dom(),
                    ) && q.writes(old(self).model().live[e].dom(), ty)) ==> #[trigger] final(self).model().live[e][ty]
                        == old(self).model().live[e][ty]
            },
    {
        if !self.borrow(query) {
            return Err(BorrowConflict);
        }
        let ghost before = *self;
        let list = self.world.query_mut(query.hold.query);
        proof {
            assert(after_borrow(self).held() =~= before.held());
        }
        Ok(list)
    }

    /// What a query fetches from `entity`, if it is live and satisfies the query; components queried
    /// with `Query::Unique` can be written. The query is one made with `view`, or one that was
    /// executed.
    pub fn get<'a>(&'a mut self, query: &SharedQuery<'q>, entity: Entity) -> (r: Option<Vec<Option<Fetched<'a, V>>>>)
        requires
            old(self).wf(),
            old(self).knows(*query),
            query.place() is Some,
            query.claim(old(self).model().archetypes).only is None,
        ensures
            final(self).wf(),
            final(self).held() == old(self).held(),
            final(self).world_view().unmoved(&old(self).world_view()),
            r is Some <==> old(self).model().matches(query.claim(old(self).model().archetypes).query).contains_key(entity),
            r is None ==> final(self).model() == old(self).model(),
            r matches Some(items) ==> {
                let q = query.claim(old(self).model().archetypes).query;
                &&& current_values(items@) == old(self).model().matches(q)[entity]
                &&& as_asked(q, items@)
                &&& final(self).model() == old(self).model().with_entity(entity, final(self).model().live[entity])
                &&& final(self).model().live[entity].dom() == old(self).model().live[entity].dom()
                &&& forall|k: int|
                    0 <= k < q.leaves().len() ==> (#[trigger] items@[k] matches Some(Fetched::Unique(x)) ==> *final(x)
                        == final(self).model().live[entity][q.leaves()[k].ty])
                &&& forall|ty: TypeId|
                    old(self).model().live[entity].contains_key(ty) && !q.writes(old(self).model().live[entity].dom(), ty)
                        ==> #[trigger] final(self).model().live[entity][ty] == old(self).model().live[entity][ty]
            },
    {
        let ghost before = *self;
        let found: bool = match self.world.live_entity(entity) {
            Some(e) => e.satisfies(query.hold.query),
            None => false,
        };
        if !found {
            return None;
        }
        let r = self.world.query_one_mut(entity, query.hold.query);
        proof {
            assert(after_borrow(self).held() =~= before.held());
            assert(after_borrow(self).model().live =~= before.model().with_entity(
                entity,
                after_borrow(self).model().live[entity],
            ).live);
        }
        match r {
            Ok(items) => Some(items),
            Err(_) => None,
        }
    }

    /// Get the result of a query against a single entity, or nothing if the entity does not satisfy
    /// the query; components queried with `Query::Unique` can be written.
    ///
    /// Fails if that would violate an existing unique reference or construct an invalid unique
    /// reference.
    pub fn get_one<'a>(&'a mut self, one: &mut SharedQueryOne<'q>) -> (r: Result<
        Option<Vec<Option<Fetched<'a, V>>>>,
        BorrowConflict,
    >)
        requires
            old(self).wf(),
            old(self).knows(old(one).query_view()),
            old(self).model().contains(old(one).entity_view()),
        ensures
            final(self).wf(),
            final(one).entity_view() == old(one).entity_view(),
            final(self).world_view().unmoved(&old(self).world_view()),
            final(self).model() == (WorldModel { live: final(self).model().live, ..old(self).model() }),
            final(self).model().live.dom() == old(self).model().live.dom(),
            forall|e: Entity| #[trigger]
                old(self).model().live.contains_key(e) && e != old(one).entity_view() ==> final(self).model().live[e]
                    == old(self).model().live[e],
            ({
                let q = old(one).query_view().claim(old(self).model().archetypes).query;
                let entity = old(one).entity_view();
                let components = old(self).model().components(entity);
                &&& (r matches Ok(None)) <==> !q.satisfied(components.dom())
                &&& !q.satisfied(components.dom()) ==> *final(one) == *old(one) && final(self).held() == old(self).held()
                &&& q.satisfied(components.dom()) ==> final(self).borrowed(
                    old(self),
                    old(one).query_view(),
                    final(one).query_view(),
                    r is Ok,
                )
                &&& final(self).model().components(entity).dom() == components.dom()
                &&& r matches Ok(Some(items)) ==> {
                    &&& current_values(items@) == q.items(components)
                    &&& as_asked(q, items@)
                    &&& forall|k: int|
                        0 <= k < q.leaves().len() ==> (#[trigger] items@[k] matches Some(Fetched::Unique(x)) ==> *final(x)
                            == final(self).model().components(entity)[q.leaves()[k].ty])
                    &&& forall|ty: TypeId|
                        components.contains_key(ty) && !q.writes(components.dom(), ty) ==> #[trigger] final(self).model().components(
                            entity,
                        )[ty] == components[ty]
                }
                &&& !(r matches Ok(Some(_))) ==> final(self).world_view() == old(self).world_view()
            }),
    {
        match self.world.satisfies(one.entity, one.inner.hold.query) {
            Ok(true) => {},
            _ => {
                return Ok(None);
            },
        }
        if !self.borrow(&mut one.inner) {
            return Err(BorrowConflict);
        }
        let ghost before = *self;
        let r = self.world.query_one_mut(one.entity, one.inner.hold.query);
        proof {
            assert(after_borrow(self).held() =~= before.held());
        }
        match r {
            Ok(items) => Ok(Some(items)),
            Err(_) => Ok(None),
        }
    }

    /// Give back the components that a query has borrowed.
    pub fn release(&mut self, query: SharedQuery<'q>)
        requires
            old(self).wf(),
            old(self).knows(query),
        ensures
            final(self).wf(),
            final(self).world_view() == old(self).world_view(),
            final(self).held() == (match query.place() {
                Some(p) => old(self).held().remove(p),
                None => old(self).held(),
            }),
    {
        if let Some(p) = query.place {
            let ghost before = *self;
            self.holds.set(p, None);
            assert(self.held() =~= before.held().remove(p as nat));
        }
    }

    /// Give back the components that a query against a single entity has borrowed.
    pub fn release_one(&mut self, one: SharedQueryOne<'q>)
        requires
            old(self).wf(),
            old(self).knows(one.query_view()),
        ensures
            final(self).wf(),
            final(self).world_view() == old(self).world_view(),
            final(self).held() == (match one.query_view().place() {
                Some(p) => old(self).held().remove(p),
                None => old(self).held(),
            }),
    {
        self.release(one.inner);
    }
}

/// Two queries that refer to a component type, one of them to write it, can be active at the same time
/// if and only if no entity has all components required by both, provided that nothing else is
/// borrowed. Once the first one is released, the second one can be executed in any case.
pub proof fn law_simultaneous_queries<V>(m: WorldModel<V>, first: Query, second: Query, p: nat)
    requires
        first.clashes(second),
    ensures
        ({
            let one = Claim { query: first, only: None };
            let two = Claim { query: second, only: None };
            let held = Map::<nat, Claim>::empty().insert(p, one);
            &&& blocked(held, two, m) <==> exists|e: Entity| #[trigger]
                m.live.contains_key(e) && first.satisfied(m.live[e].dom()) && second.satisfied(m.live[e].dom())
            &&& !blocked(held.remove(p), two, m)
        }),
{
    let one = Claim { query: first, only: None };
    let two = Claim { query: second, only: None };
    let held = Map::<nat, Claim>::empty().insert(p, one);
    assert(held.contains_key(p));
    if exists|e: Entity| #[trigger]
        m.live.contains_key(e) && first.satisfied(m.live[e].dom()) && second.satisfied(m.live[e].dom()) {
        let e = choose|e: Entity| #[trigger]
            m.live.contains_key(e) && first.satisfied(m.live[e].dom()) && second.satisfied(m.live[e].dom());
        assert(one.covers(m.live[e].dom()) && two.covers(m.live[e].dom()));
        assert(one.conflicts(two, m));
    }
}

/// Queries that only read never stand in each other's way.
pub proof fn law_reading_queries<V>(m: WorldModel<V>, first: Claim, second: Claim)
    requires
        first.query.reads(),
        second.query.reads(),
    ensures
        !first.conflicts(second, m),
{
}

} // verus!

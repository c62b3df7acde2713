//! Access to entities and their components in a uniquely borrowed world.
use vstd::prelude::*;

use super::World;
use crate::archetype::Archetype;
use crate::entities::{Entities, Entity, Location};
use crate::errors::{ComponentError, MissingComponent, QueryOneError};
use crate::fetch::{as_asked, current_values, query_all_rows, query_rows, values_of, Fetched};
use crate::history::{after, Step};
use crate::iter::{enumerates, known_rows};
use crate::model::WorldModel;
use crate::query::{lemma_present, Query};
use crate::refs::{contains_position, copy_positions, each_mut, pick_mut, scatter};
use crate::types::TypeId;

verus! {

/// Provides random access to the entities of a uniquely borrowed world that satisfy a query.
pub struct ViewMut<'a, 'q, V> {
    pub world: &'a mut World<V>,
    pub query: &'q Query,
}

impl<'a, 'q, V> ViewMut<'a, 'q, V> {
    pub open spec fn wf(&self) -> bool {
        &&& self.world.wf()
        &&& self.query.borrows()
    }

    /// The entities that can be accessed, with what the query fetches from each.
    pub open spec fn entries(&self) -> Map<Entity, Seq<Option<V>>> {
        self.world.model().matches(*self.query)
    }

    /// What the query fetches from `entity`, if it is live and satisfies the query; for a query that
    /// only reads.
    pub fn get(&self, entity: Entity) -> (r: Option<Vec<Option<&V>>>)
        requires
            self.wf(),
            self.query.reads(),
        ensures
            r is Some <==> self.entries().contains_key(entity),
            r matches Some(items) ==> values_of(items@) == self.entries()[entity],
    {
        self.world.view(self.query).get(entity)
    }

    /// Whether `entity` is live and satisfies the query.
    pub fn contains(&self, entity: Entity) -> (r: bool)
        requires
            self.wf(),
        ensures
            r == self.entries().contains_key(entity),
    {
        match self.world.live_entity(entity) {
            Some(e) => e.satisfies(self.query),
            None => false,
        }
    }

    /// What the query fetches from `entity`, if it is live and satisfies the query; components
    /// queried with `Query::Unique` can be written.
    pub fn get_mut(&mut self, entity: Entity) -> (r: Option<Vec<Option<Fetched<'_, V>>>>)
        requires
            old(self).wf(),
        ensures
            final(self).wf(),
            final(self).query == old(self).query,
            final(self).world.unmoved(&*old(self).world),
            *final(final(self).world) == *final(old(self).world),
            r is Some <==> old(self).entries().contains_key(entity),
            r is None ==> final(self).world.model() == old(self).world.model(),
            r matches Some(items) ==> current_values(items@) == old(self).entries()[entity] && as_asked(
                *old(self).query,
                items@,
            ),
            r is Some ==> final(self).world.model() == old(self).world.model().with_entity(
                entity,
                final(self).world.model().live[entity],
            ),
            r is Some ==> final(self).world.model().live[entity].dom() == old(self).world.model().live[entity].dom(),
            r matches Some(items) ==> forall|k: int|
                0 <= k < old(self).query.leaves().len() ==> (#[trigger] items@[k] matches Some(Fetched::Unique(x)) ==> *final(x)
                    == final(self).world.model().live[entity][old(self).query.leaves()[k].ty]),
            r is Some ==> forall|ty: TypeId|
                old(self).world.model().live[entity].contains_key(ty) && !old(self).query.writes(
                    old(self).world.model().live[entity].dom(),
                    ty,
                ) ==> #[trigger] final(self).world.model().live[entity][ty] == old(self).world.model().live[entity][ty],
    {
        if !self.contains(entity) {
            return None;
        }
        match self.world.query_one_mut(entity, self.query) {
            Ok(items) => Some(items),
            Err(_) => None,
        }
    }
}

/// Nothing, for each of the components that a query refers to.
fn nothing<'a, V>(n: usize) -> (r: Vec<Option<Fetched<'a, V>>>)
    ensures
        r@.len() == n,
        forall|k: int| 0 <= k < r@.len() ==> #[trigger] r@[k] is None,
{
    let mut r: Vec<Option<Fetched<'a, V>>> = Vec::new();
    for k in 0..n
        invariant
            r@.len() == k,
            forall|i: int| 0 <= i < k ==> #[trigger] r@[i] is None,
    {
        r.push(None);
    }
    r
}

/// What some entities yield, by value.
pub open spec fn current_entries<V>(list: Seq<(Entity, Vec<Option<Fetched<V>>>)>) -> Seq<(Entity, Seq<Option<V>>)> {
    list.map_values(|x: (Entity, Vec<Option<Fetched<V>>>)| (x.0, current_values(x.1@)))
}

/// Fetches from all entities of an archetype.
fn query_archetype<'a, V>(
    query: &Query,
    plan: &Vec<Option<usize>>,
    entities: &Entities,
    archetype: &'a mut Archetype<V>,
) -> (r: Vec<(Entity, Vec<Option<Fetched<'a, V>>>)>)
    requires
        query.borrows(),
        known_rows(*entities, *old(archetype)),
        query.finds(old(archetype).types_view(), plan@),
    ensures
        final(archetype).wf(),
        final(archetype).types_view() == old(archetype).types_view(),
        final(archetype).ids_view() == old(archetype).ids_view(),
        r@.len() == old(archetype).ids_view().len(),
        forall|i: int| 0 <= i < r@.len() ==> (#[trigger] r@[i]).0 == entities.handle(old(archetype).ids_view()[i]),
        forall|i: int|
            0 <= i < r@.len() ==> current_values((#[trigger] r@[i]).1@) == query.items(old(archetype).components(i)),
        forall|i: int| 0 <= i < r@.len() ==> as_asked(*query, (#[trigger] r@[i]).1@),
        forall|i: int, k: int|
            0 <= i < r@.len() && 0 <= k < query.leaves().len() ==> (#[trigger] r@[i].1@[k] matches Some(Fetched::Unique(x))
                ==> *final(x) == final(archetype).components(i)[query.leaves()[k].ty]),
        forall|i: int, ty: TypeId|
            0 <= i < r@.len() && old(archetype).types_view().contains(ty) && !query.writes(
                old(archetype).types_view().to_set(),
                ty,
            ) ==> #[trigger] final(archetype).components(i)[ty] == old(archetype).components(i)[ty],
{
    let ghost ids = archetype.ids_view();
    let mut handles: Vec<Entity> = Vec::new();
    let n: u32 = archetype.len();
    for i in 0..n
        invariant
            n == ids.len(),
            known_rows(*entities, *archetype),
            ids == archetype.ids_view(),
            handles@.len() == i,
            forall|k: int| 0 <= k < i ==> #[trigger] handles@[k] == entities.handle(ids[k]),
    {
        let id: u32 = archetype.entity_id(i);
        assert(archetype.ids_view()[i as int] == id);
        handles.push(Entity { id, generation: entities.generation(id) });
    }
    let rows = query_all_rows(query, plan, archetype);
    let ghost given = rows@;
    let mut r: Vec<(Entity, Vec<Option<Fetched<'a, V>>>)> = Vec::new();
    for row in it: rows
        invariant
            it.seq() == given,
            given.len() == handles@.len(),
            r@.len() == it.index(),
            forall|k: int| 0 <= k < it.index() ==> #[trigger] r@[k] == (handles@[k], given[k]),
    {
        let e: Entity = handles[r.len()];
        r.push((e, row));
    }
    proof {
        assert forall|i: int, k: int| 0 <= i < r@.len() && 0 <= k < query.leaves().len() implies #[trigger] r@[i].1@[k]
            == given[i]@[k] by {}
    }
    r
}

/// Which of the locations are in an archetype.
fn positions_in(locations: &Vec<Option<Location>>, archetype: u32) -> (r: Vec<usize>)
    ensures
        r@.no_duplicates(),
        forall|x: int|
            0 <= x < r@.len() ==> (#[trigger] r@[x]) < locations@.len() && locations@[r@[x] as int] is Some
                && locations@[r@[x] as int]->0.archetype == archetype,
        forall|i: int|
            0 <= i < locations@.len() && (#[trigger] locations@[i]) is Some && locations@[i]->0.archetype == archetype
                ==> r@.contains(i as usize),
{
    let mut r: Vec<usize> = Vec::new();
    for i in 0..locations.len()
        invariant
            r@.no_duplicates(),
            forall|x: int|
                0 <= x < r@.len() ==> (#[trigger] r@[x]) < i && locations@[r@[x] as int] is Some
                    && locations@[r@[x] as int]->0.archetype == archetype,
            forall|k: int|
                0 <= k < i && (#[trigger] locations@[k]) is Some && locations@[k]->0.archetype == archetype ==> r@.contains(
                    k as usize,
                ),
    {
        if let Some(location) = locations[i] {
            if location.archetype == archetype {
                let ghost before = r@;
                r.push(i);
                proof {
                    assert forall|k: int|
                        0 <= k < i + 1 && (#[trigger] locations@[k]) is Some && locations@[k]->0.archetype == archetype implies r@.contains(
                        k as usize,
                    ) by {
                        if k == i {
                            assert(r@[before.len() as int] == i);
                        } else {
                            let x = choose|x: int| 0 <= x < before.len() && before[x] == k as usize;
                            assert(r@[x] == k as usize);
                        }
                    }
                }
            }
        }
    }
    r
}

/// Whether the locations are rows of the archetypes that satisfy the query, each listed once.
spec fn placed<V>(locations: Seq<Option<Location>>, archs: Seq<Archetype<V>>, query: Query) -> bool {
    &&& forall|i: int|
        0 <= i < locations.len() && (#[trigger] locations[i]) is Some ==> {
            let loc = locations[i]->0;
            &&& loc.archetype < archs.len()
            &&& loc.index < archs[loc.archetype as int].ids_view().len()
            &&& query.satisfied(archs[loc.archetype as int].types_view().to_set())
        }
    &&& forall|i: int, j: int|
        0 <= i < j < locations.len() && (#[trigger] locations[i]) is Some && (#[trigger] locations[j]) is Some ==> locations[i]
            != locations[j]
}

/// Whether a location is in an archetype.
spec fn touches(locations: Seq<Option<Location>>, archetype: usize) -> bool {
    exists|i: int| 0 <= i < locations.len() && (#[trigger] locations[i]) is Some && locations[i]->0.archetype == archetype
}

/// The archetypes of the locations, each once.
fn archetypes_of(locations: &Vec<Option<Location>>) -> (r: Vec<usize>)
    ensures
        r@.no_duplicates(),
        forall|x: int| 0 <= x < r@.len() ==> touches(locations@, #[trigger] r@[x]),
        forall|i: int|
            0 <= i < locations@.len() && (#[trigger] locations@[i]) is Some ==> r@.contains(
                locations@[i]->0.archetype as usize,
            ),
{
    let mut r: Vec<usize> = Vec::new();
    for i in 0..locations.len()
        invariant
            r@.no_duplicates(),
            forall|x: int| 0 <= x < r@.len() ==> touches(locations@, #[trigger] r@[x]),
            forall|k: int|
                0 <= k < i && (#[trigger] locations@[k]) is Some ==> r@.contains(locations@[k]->0.archetype as usize),
    {
        if let Some(location) = locations[i] {
            let ghost before = r@;
            if !contains_position(&r, location.archetype as usize) {
                r.push(location.archetype as usize);
                assert(locations@[i as int] == Some(location));
                assert(r@[before.len() as int] == location.archetype as usize);
            }
            proof {
                assert forall|k: int| 0 <= k < i + 1 && (#[trigger] locations@[k]) is Some implies r@.contains(
                    locations@[k]->0.archetype as usize,
                ) by {
                    if k < i {
                        let a = locations@[k]->0.archetype as usize;
                        let x = choose|x: int| 0 <= x < before.len() && before[x] == a;
                        assert(r@[x] == a);
                    }
                }
            }
        }
    }
    r
}

/// Fetches from the entities at the given locations.
fn query_places<'a, V>(
    query: &Query,
    archetypes: &'a mut Vec<Archetype<V>>,
    locations: &Vec<Option<Location>>,
) -> (slots: Vec<Option<Vec<Option<Fetched<'a, V>>>>>)
    requires
        query.borrows(),
        forall|a: int| 0 <= a < old(archetypes)@.len() ==> (#[trigger] old(archetypes)@[a]).wf(),
        placed(locations@, old(archetypes)@, *query),
    ensures
        final(archetypes)@.len() == old(archetypes)@.len(),
        forall|a: int|
            0 <= a < old(archetypes)@.len() ==> {
                &&& (#[trigger] final(archetypes)@[a]).wf()
                &&& final(archetypes)@[a].types_view() == old(archetypes)@[a].types_view()
                &&& final(archetypes)@[a].ids_view() == old(archetypes)@[a].ids_view()
            },
        slots@.len() == locations@.len(),
        forall|i: int|
            0 <= i < locations@.len() ==> match #[trigger] locations@[i] {
                Some(loc) => {
                    &&& slots@[i] is Some
                    &&& current_values(slots@[i]->0@) == query.items(
                        old(archetypes)@[loc.archetype as int].components(loc.index as int),
                    )
                    &&& as_asked(*query, slots@[i]->0@)
                },
                None => slots@[i] is None,
            },
        forall|i: int, k: int|
            0 <= i < locations@.len() && locations@[i] is Some && 0 <= k < query.leaves().len() ==> (
            #[trigger] slots@[i]->0@[k] matches Some(Fetched::Unique(x)) ==> *final(x)
                == final(archetypes)@[locations@[i]->0.archetype as int].components(
                locations@[i]->0.index as int,
            )[query.leaves()[k].ty]),
        forall|a: int, r: int, ty: TypeId|
            0 <= a < old(archetypes)@.len() && 0 <= r < old(archetypes)@[a].ids_view().len()
                && old(archetypes)@[a].types_view().contains(ty) && !(locations@.contains(
                Some(Location { archetype: a as u32, index: r as u32 }),
            ) && query.writes(old(archetypes)@[a].types_view().to_set(), ty)) ==> #[trigger] final(archetypes)@[a].components(r)[ty]
                == old(archetypes)@[a].components(r)[ty],
{
    let ghost archs0 = archetypes@;
    let total: usize = archetypes.len();
    let n: usize = locations.len();
    let touched = archetypes_of(locations);
    proof {
        assert forall|x: int| 0 <= x < touched@.len() implies #[trigger] touched@[x] < archs0.len() by {
            assert(touches(locations@, touched@[x]));
        }
    }
    let mut slots: Vec<Option<Vec<Option<Fetched<'a, V>>>>> = Vec::new();
    for i in 0..n
        invariant
            slots@.len() == i,
            forall|k: int| 0 <= k < i ==> #[trigger] slots@[k] is None,
    {
        slots.push(None);
    }
    let picked = pick_mut(archetypes.as_mut_slice(), copy_positions(&touched));
    let ghost refs = picked@;
    let m: usize = touched.len();
    let mut at: usize = 0;
    for archetype in it: picked
        invariant
            it.seq() == refs,
            at == it.index(),
            m == touched@.len(),
            n == locations@.len(),
            n == slots@.len(),
            query.borrows(),
            refs.len() == touched@.len(),
            touched@.no_duplicates(),
            forall|a: int| 0 <= a < archs0.len() ==> (#[trigger] archs0[a]).wf(),
            forall|t: int| 0 <= t < touched@.len() ==> #[trigger] touched@[t] < archs0.len(),
            forall|t: int| 0 <= t < touched@.len() ==> touches(locations@, #[trigger] touched@[t]),
            forall|t: int| 0 <= t < refs.len() ==> *(#[trigger] refs[t]) == archs0[touched@[t] as int],
            placed(locations@, archs0, *query),
            forall|t: int|
                0 <= t < at ==> {
                    &&& final(#[trigger] refs[t]).wf()
                    &&& final(refs[t]).types_view() == archs0[touched@[t] as int].types_view()
                    &&& final(refs[t]).ids_view() == archs0[touched@[t] as int].ids_view()
                },
            forall|t: int, r: int, ty: TypeId|
                0 <= t < at && 0 <= r < archs0[touched@[t] as int].ids_view().len()
                    && archs0[touched@[t] as int].types_view().contains(ty) && !(locations@.contains(
                    Some(Location { archetype: touched@[t] as u32, index: r as u32 }),
                ) && query.writes(archs0[touched@[t] as int].types_view().to_set(), ty))
                    ==> #[trigger] final(refs[t]).components(r)[ty] == archs0[touched@[t] as int].components(r)[ty],
            forall|i: int| 0 <= i < n && (#[trigger] locations@[i]) is None ==> slots@[i] is None,
            forall|i: int, t: int|
                0 <= i < n && 0 <= t < at && (#[trigger] locations@[i]) is Some && locations@[i]->0.archetype == (
                #[trigger] touched@[t]) ==> {
                    &&& slots@[i] is Some
                    &&& current_values(slots@[i]->0@) == query.items(
                        archs0[touched@[t] as int].components(locations@[i]->0.index as int),
                    )
                    &&& as_asked(*query, slots@[i]->0@)
                },
            forall|i: int, t: int, k: int|
                0 <= i < n && 0 <= t < at && locations@[i] is Some && locations@[i]->0.archetype == (#[trigger] touched@[t]) && 0
                    <= k < query.leaves().len() ==> (#[trigger] slots@[i]->0@[k] matches Some(Fetched::Unique(x)) ==> *final(x)
                    == final(refs[t]).components(locations@[i]->0.index as int)[query.leaves()[k].ty]),
    {
        let a: usize = touched[at];
        proof {
            archs0[a as int].lemma_shape();
            assert(touches(locations@, a));
            let i = choose|i: int| 0 <= i < locations@.len() && (#[trigger] locations@[i]) is Some && locations@[i]->0.archetype == a;
            assert(query.satisfied(archs0[a as int].types_view().to_set()));
        }
        let positions = positions_in(locations, a as u32);
        let picks = rows_at(locations, &positions);
        proof {
            assert forall|y: int| 0 <= y < picks@.len() implies #[trigger] picks@[y] < archs0[a as int].ids_view().len() by {
                assert(locations@[positions@[y] as int] is Some);
            }
            assert forall|y: int, z: int| 0 <= y < picks@.len() && 0 <= z < picks@.len() && y != z implies picks@[y] != picks@[z] by {
                assert(positions@[y] != positions@[z]);
                assert(locations@[positions@[y] as int] is Some && locations@[positions@[z] as int] is Some);
            }
        }
        if let Some(plan) = query.prepare(archetype.types()) {
            let rows = query_rows(query, &plan, archetype, &picks);
            let ghost given = rows@;
            let ghost slots0 = slots@;
            scatter(&mut slots, &positions, rows);
            proof {
                let t0 = at as int;
                assert forall|i: int| 0 <= i < n && (#[trigger] locations@[i]) is Some && locations@[i]->0.archetype == a implies exists|
                    x: int,
                | 0 <= x < positions@.len() && #[trigger] positions@[x] == i && slots@[i] == Some(given[x]) && picks@[x]
                    == locations@[i]->0.index by {
                    let x = choose|x: int| 0 <= x < positions@.len() && positions@[x] == i as usize;
                    assert(positions@[x] == i);
                }
                assert forall|i: int| 0 <= i < n && !((#[trigger] locations@[i]) is Some && locations@[i]->0.archetype == a) implies slots@[i]
                    == slots0[i] by {
                    if positions@.contains(i as usize) {
                        let x = choose|x: int| 0 <= x < positions@.len() && positions@[x] == i as usize;
                        assert(positions@[x] == i);
                    }
                }
                assert forall|i: int, t: int|
                    0 <= i < n && 0 <= t < at + 1 && (#[trigger] locations@[i]) is Some && locations@[i]->0.archetype == (
                    #[trigger] touched@[t]) implies {
                    &&& slots@[i] is Some
                    &&& current_values(slots@[i]->0@) == query.items(
                        archs0[touched@[t] as int].components(locations@[i]->0.index as int),
                    )
                    &&& as_asked(*query, slots@[i]->0@)
                } by {
                    if t < at {
                        assert(touched@[t] != touched@[t0]);
                    } else {
                        let x = choose|x: int|
                            0 <= x < positions@.len() && #[trigger] positions@[x] == i && slots@[i] == Some(given[x]) && picks@[x]
                                == locations@[i]->0.index;
                        assert(given[x] == slots@[i]->0);
                    }
                }
                assert forall|i: int, t: int, k: int|
                    0 <= i < n && 0 <= t < at + 1 && locations@[i] is Some && locations@[i]->0.archetype == (#[trigger] touched@[t]) && 0
                        <= k < query.leaves().len() implies (#[trigger] slots@[i]->0@[k] matches Some(Fetched::Unique(x)) ==> *final(x)
                    == final(refs[t]).components(locations@[i]->0.index as int)[query.leaves()[k].ty]) by {
                    assert(locations@[i] is Some);
                    if t < at {
                        assert(touched@[t] != touched@[t0]);
                        assert(slots@[i]->0@[k] == slots0[i]->0@[k]);
                    } else {
                        let x = choose|x: int|
                            0 <= x < positions@.len() && #[trigger] positions@[x] == i && slots@[i] == Some(given[x]) && picks@[x]
                                == locations@[i]->0.index;
                        assert(slots@[i]->0@[k] == given[x]@[k]);
                    }
                }
                assert forall|r: int, ty: TypeId|
                    0 <= r < archs0[a as int].ids_view().len() && archs0[a as int].types_view().contains(ty) && !(locations@.contains(
                        Some(Location { archetype: a as u32, index: r as u32 }),
                    ) && query.writes(archs0[a as int].types_view().to_set(), ty)) implies #[trigger] final(refs[t0]).components(r)[ty]
                    == archs0[a as int].components(r)[ty] by {
                    if picks@.contains(r as usize) {
                        let y = choose|y: int| 0 <= y < picks@.len() && picks@[y] == r as usize;
                        assert(locations@[positions@[y] as int] == Some(Location { archetype: a as u32, index: r as u32 }));
                        assert(final(refs[t0]).components(picks@[y] as int)[ty] == archs0[a as int].components(r)[ty]);
                    } else {
                        assert(final(refs[t0]).rows()[r] == archs0[a as int].rows()[r]);
                    }
                }
            }
        }
        at = at + 1;
    }
    proof {
        assert forall|a: int| 0 <= a < archs0.len() implies {
            &&& (#[trigger] after_borrow(archetypes)@[a]).wf()
            &&& after_borrow(archetypes)@[a].types_view() == archs0[a].types_view()
            &&& after_borrow(archetypes)@[a].ids_view() == archs0[a].ids_view()
        } by {
            if touched@.contains(a as usize) {
                let t = choose|t: int| 0 <= t < touched@.len() && touched@[t] == a as usize;
                assert(*final(refs[t]) == after_borrow(archetypes)@[a]);
            }
        }
        assert forall|a: int, r: int, ty: TypeId|
            0 <= a < archs0.len() && 0 <= r < archs0[a].ids_view().len() && archs0[a].types_view().contains(ty) && !(
            locations@.contains(Some(Location { archetype: a as u32, index: r as u32 })) && query.writes(
                archs0[a].types_view().to_set(),
                ty,
            )) implies #[trigger] after_borrow(archetypes)@[a].components(r)[ty] == archs0[a].components(r)[ty] by {
            if touched@.contains(a as usize) {
                let t = choose|t: int| 0 <= t < touched@.len() && touched@[t] == a as usize;
                assert(*final(refs[t]) == after_borrow(archetypes)@[a]);
                assert(final(refs[t]).components(r)[ty] == archs0[a].components(r)[ty]);
            }
        }
        assert forall|i: int, k: int|
            0 <= i < locations@.len() && locations@[i] is Some && 0 <= k < query.leaves().len() implies (
            #[trigger] slots@[i]->0@[k] matches Some(Fetched::Unique(x)) ==> *final(x)
                == after_borrow(archetypes)@[locations@[i]->0.archetype as int].components(
                locations@[i]->0.index as int,
            )[query.leaves()[k].ty]) by {
            let a = locations@[i]->0.archetype;
            assert(touched@.contains(a as usize));
            let t = choose|t: int| 0 <= t < touched@.len() && touched@[t] == a as usize;
            assert(*final(refs[t]) == after_borrow(archetypes)@[a as int]);
        }
        assert forall|i: int| 0 <= i < locations@.len() && (#[trigger] locations@[i]) is Some implies {
            let loc = locations@[i]->0;
            &&& slots@[i] is Some
            &&& current_values(slots@[i]->0@) == query.items(archs0[loc.archetype as int].components(loc.index as int))
            &&& as_asked(*query, slots@[i]->0@)
        } by {
            let a = locations@[i]->0.archetype;
            assert(touched@.contains(a as usize));
            let t = choose|t: int| 0 <= t < touched@.len() && touched@[t] == a as usize;
            assert(touched@[t] == a);
        }
    }
    slots
}

/// The rows of the locations at the given positions.
fn rows_at(locations: &Vec<Option<Location>>, positions: &Vec<usize>) -> (r: Vec<usize>)
    requires
        forall|x: int|
            0 <= x < positions@.len() ==> (#[trigger] positions@[x]) < locations@.len() && locations@[positions@[x] as int] is Some,
    ensures
        r@.len() == positions@.len(),
        forall|x: int| 0 <= x < r@.len() ==> #[trigger] r@[x] == locations@[positions@[x] as int]->0.index,
{
    let mut r: Vec<usize> = Vec::new();
    for i in 0..positions.len()
        invariant
            r@.len() == i,
            forall|x: int|
                0 <= x < positions@.len() ==> (#[trigger] positions@[x]) < locations@.len() && locations@[positions@[x] as int] is Some,
            forall|x: int| 0 <= x < i ==> #[trigger] r@[x] == locations@[positions@[x] as int]->0.index,
    {
        if let Some(location) = locations[positions[i]] {
            r.push(location.index as usize);
        }
    }
    r
}

impl<V> World<V> {
    /// All but the components in the rows is the same.
    spec fn same_but_values(&self, before: &World<V>) -> bool {
        &&& self.id == before.id
        &&& self.graph == before.graph
        &&& self.entities == before.entities
        &&& self.archetypes.entries() == before.archetypes.entries()
        &&& self.archetypes.archs().len() == before.archetypes.archs().len()
        &&& forall|a: int|
            0 <= a < self.archetypes.archs().len() ==> {
                &&& (#[trigger] self.archetypes.archs()[a]).wf()
                &&& self.archetypes.archs()[a].types_view() == before.archetypes.archs()[a].types_view()
                &&& self.archetypes.archs()[a].ids_view() == before.archetypes.archs()[a].ids_view()
            }
    }

    /// Writing components changes nothing else.
    proof fn lemma_rewritten(&self, before: &World<V>)
        requires
            before.wf(),
            self.same_but_values(before),
        ensures
            self.wf(),
            self.model() == (WorldModel { live: self.model().live, ..before.model() }),
            self.model().live.dom() == before.model().live.dom(),
            forall|e: Entity| #[trigger]
                self.model().live.contains_key(e) ==> self.model().live[e].dom() == before.model().live[e].dom(),
            self.unmoved(before),
    {
        assert(self.layout() =~= before.layout());
        self.archetypes.lemma_same_types(&before.archetypes);
        let archs0 = before.archetypes.archs();
        let archs1 = self.archetypes.archs();
        let metas = self.entities.metas();
        assert forall|a: int, r: int| 0 <= a < archs1.len() && 0 <= r < archs1[a].ids_view().len() implies {
            let id = #[trigger] archs1[a].ids_view()[r];
            &&& id < metas.len()
            &&& metas[id as int].location == (Location { archetype: a as u32, index: r as u32 })
        } by {
            assert(archs0[a].ids_view()[r] == archs1[a].ids_view()[r]);
        }
        assert(self.model().live.dom() =~= before.model().live.dom());
        assert forall|e: Entity| #[trigger] self.model().live.contains_key(e) implies self.model().live[e].dom()
            == before.model().live[e].dom() by {
            let a = metas[e.id as int].location.archetype as int;
            assert(self.model().live[e].dom() =~= archs1[a].types_view().to_set());
            assert(before.model().live[e].dom() =~= archs0[a].types_view().to_set());
        }
    }

    /// Query a single entity in a uniquely borrowed world.
    ///
    /// Like `query_one`, but on success this returns the query's results directly, and components
    /// queried with `Query::Unique` can be written.
    pub fn query_one_mut<'a>(&'a mut self, entity: Entity, query: &Query) -> (r: Result<
        Vec<Option<Fetched<'a, V>>>,
        QueryOneError,
    >)
        requires
            old(self).wf(),
            query.borrows(),
        ensures
            final(self).wf(),
            final(self).model() == after(old(self).model(), Step::Write { live: final(self).model().live }),
            final(self).model() == (WorldModel { live: final(self).model().live, ..old(self).model() }),
            final(self).unmoved(old(self)),
            final(self).model().live.dom() == old(self).model().live.dom(),
            forall|e: Entity| #[trigger]
                old(self).model().live.contains_key(e) && e != entity ==> final(self).model().live[e] == old(self).model().live[e],
            match r {
                Err(QueryOneError::NoSuchEntity) => !old(self).model().contains(entity),
                Err(QueryOneError::Unsatisfied) => old(self).model().contains(entity) && !query.satisfied(
                    old(self).model().components(entity).dom(),
                ),
                Ok(items) => {
                    &&& old(self).model().contains(entity)
                    &&& query.satisfied(old(self).model().components(entity).dom())
                    &&& current_values(items@) == query.items(old(self).model().components(entity))
                    &&& as_asked(*query, items@)
                },
            },
            r is Err ==> final(self).model() == old(self).model(),
            final(self).model().components(entity).dom() == old(self).model().components(entity).dom(),
            r matches Ok(items) ==> forall|k: int|
                0 <= k < query.leaves().len() ==> (#[trigger] items@[k] matches Some(Fetched::Unique(x)) ==> *final(x)
                    == final(self).model().components(entity)[query.leaves()[k].ty]),
            r is Ok ==> forall|ty: TypeId|
                old(self).model().components(entity).contains_key(ty) && !query.writes(
                    old(self).model().components(entity).dom(),
                    ty,
                ) ==> #[trigger] final(self).model().components(entity)[ty] == old(self).model().components(entity)[ty],
    {
        let ghost before = *self;
        proof {
            self.lemma_wf();
        }
        let loc: Location = match self.entities.get(entity) {
            Ok(loc) => loc,
            Err(e) => {
                return Err(QueryOneError::from(e));
            },
        };
        let archetype = &self.archetypes.all()[loc.archetype as usize];
        let ghost types = archetype.types_view();
        proof {
            archetype.lemma_shape();
            if loc.index == u32::MAX {
                assert(types.to_set() =~= Set::<TypeId>::empty());
                assert(before.model().components(entity).dom() =~= types.to_set());
            }
            assert(before.model().components(entity).dom() =~= types.to_set());
        }
        let plan = match query.prepare(archetype.types()) {
            Some(plan) => plan,
            None => {
                return Err(QueryOneError::Unsatisfied);
            },
        };
        if loc.index == u32::MAX {
            let r = nothing(plan.len());
            proof {
                let items = query.items(before.model().components(entity));
                assert forall|k: int| 0 <= k < plan@.len() implies current_values(r@)[k] == items[k] by {
                    assert(plan@[k] is None);
                }
                assert(current_values(r@) =~= items);
            }
            return Ok(r);
        }
        let mut positions: Vec<usize> = Vec::new();
        positions.push(loc.index as usize);
        let mut rows = query_rows(query, &plan, self.archetypes.at_mut(loc.archetype), &positions);
        proof {
            after_borrow(self).lemma_rewritten(&before);
        }
        match rows.pop() {
            Some(items) => Ok(items),
            None => Err(QueryOneError::Unsatisfied),
        }
    }

    /// Borrow a single component of `entity` without the overhead of a query.
    pub fn get_unchecked(&mut self, entity: Entity, ty: TypeId) -> (r: Result<&mut V, ComponentError>)
        requires
            old(self).wf(),
        ensures
            final(self).wf(),
            final(self).model() == after(old(self).model(), Step::Write { live: final(self).model().live }),
            final(self).unmoved(old(self)),
            match r {
                Err(ComponentError::NoSuchEntity) => !old(self).model().contains(entity),
                Err(ComponentError::MissingComponent(x)) => old(self).model().contains(entity) && !old(self).model().components(
                    entity,
                ).contains_key(ty) && x.ty == ty,
                Ok(x) => {
                    &&& old(self).model().components(entity).contains_key(ty)
                    &&& *x == old(self).model().components(entity)[ty]
                },
            },
            r is Err ==> final(self).model() == old(self).model(),
            r matches Ok(x) ==> final(self).model() == old(self).model().with_entity(
                entity,
                old(self).model().components(entity).insert(ty, *final(x)),
            ),
    {
        let ghost before = *self;
        proof {
            self.lemma_wf();
        }
        let loc: Location = match self.entities.get(entity) {
            Ok(loc) => loc,
            Err(e) => {
                return Err(ComponentError::from(e));
            },
        };
        if loc.index == u32::MAX {
            return Err(ComponentError::from(MissingComponent { ty }));
        }
        let ghost types = self.archetypes.archs()[loc.archetype as int].types_view();
        assert(before.model().components(entity).dom() =~= types.to_set());
        proof {
            self.archetypes.archs()[loc.archetype as int].lemma_shape();
        }
        match self.archetypes.at_mut(loc.archetype).get_dynamic_mut(ty, loc.index) {
            Some(x) => {
                proof {
                    let after = *after_borrow(self);
                    after.lemma_rewritten(&before);
                    let m = before.model().components(entity);
                    let archs0 = before.archetypes.archs();
                    let archs1 = after.archetypes.archs();
                    let metas = before.entities.metas();
                    assert forall|e: Entity| #[trigger] before.model().live.contains_key(e) && e != entity implies after.model().live[e]
                        == before.model().live[e] by {
                        let l = metas[e.id as int].location;
                        assert(archs0[l.archetype as int].ids_view()[l.index as int] == e.id);
                        archs0[l.archetype as int].lemma_shape();
                        if l.archetype == loc.archetype {
                            assert(archs1[l.archetype as int].rows()[l.index as int]
                                == archs0[l.archetype as int].rows()[l.index as int]);
                        }
                    }
                    assert(after.model().live[entity] =~= m.insert(ty, *final(x)));
                    assert(after.model().live =~= before.model().live.insert(entity, m.insert(ty, *final(x))));
                }
                Ok(x)
            },
            None => {
                proof {
                    assert(after_borrow(self).archetypes.archs() =~= before.archetypes.archs());
                    after_borrow(self).lemma_rewritten(&before);
                }
                Err(ComponentError::from(MissingComponent { ty }))
            },
        }
    }

    /// Query a uniquely borrowed world.
    ///
    /// Like `query`, but components queried with `Query::Unique` can be written. Note that, unlike
    /// `query`, this returns something that can be passed directly to a `for` loop.
    pub fn query_mut<'a>(&'a mut self, query: &Query) -> (r: Vec<(Entity, Vec<Option<Fetched<'a, V>>>)>)
        requires
            old(self).wf(),
            query.borrows(),
        ensures
            final(self).wf(),
            final(self).model() == after(old(self).model(), Step::Write { live: final(self).model().live }),
            final(self).model() == (WorldModel { live: final(self).model().live, ..old(self).model() }),
            final(self).unmoved(old(self)),
            final(self).model().live.dom() == old(self).model().live.dom(),
            forall|e: Entity| #[trigger]
                old(self).model().live.contains_key(e) ==> final(self).model().live[e].dom() == old(self).model().live[e].dom(),
            enumerates(current_entries(r@), old(self).model().matches(*query)),
            forall|i: int| 0 <= i < r@.len() ==> as_asked(*query, (#[trigger] r@[i]).1@),
            forall|i: int, k: int|
                0 <= i < r@.len() && 0 <= k < query.leaves().len() ==> (#[trigger] r@[i].1@[k] matches Some(Fetched::Unique(x))
                    ==> *final(x) == final(self).model().live[r@[i].0][query.leaves()[k].ty]),
            forall|e: Entity, ty: TypeId|
                old(self).model().live.contains_key(e) && old(self).model().live[e].contains_key(ty) && !(
                query.satisfied(old(self).model().live[e].dom()) && query.writes(old(self).model().live[e].dom(), ty))
                    ==> #[trigger] final(self).model().live[e][ty] == old(self).model().live[e][ty],
    {
        let ghost before = *self;
        let ghost archs0 = self.archetypes.archs();
        let ghost metas = self.entities.metas();
        let ghost matches = self.model().matches(*query);
        let entities = &self.entities;
        let archetypes = each_mut(self.archetypes.all_mut().as_mut_slice());
        let ghost refs = archetypes@;
        let ghost mut places: Seq<(int, int)> = Seq::empty();
        let mut out: Vec<(Entity, Vec<Option<Fetched<'a, V>>>)> = Vec::new();
        for archetype in it: archetypes
            invariant
                it.seq() == refs,
                before.wf(),
                query.borrows(),
                *entities == before.entities,
                archs0 == before.archetypes.archs(),
                refs.len() == archs0.len(),
                forall|a: int| 0 <= a < refs.len() ==> *(#[trigger] refs[a]) == archs0[a],
                forall|a: int|
                    0 <= a < it.index() ==> {
                        &&& final(#[trigger] refs[a]).wf()
                        &&& final(refs[a]).types_view() == archs0[a].types_view()
                        &&& final(refs[a]).ids_view() == archs0[a].ids_view()
                    },
                forall|a: int, r: int, ty: TypeId|
                    0 <= a < it.index() && 0 <= r < archs0[a].ids_view().len() && archs0[a].types_view().contains(ty) && !(
                    query.satisfied(archs0[a].types_view().to_set()) && query.writes(archs0[a].types_view().to_set(), ty))
                        ==> #[trigger] final(refs[a]).components(r)[ty] == archs0[a].components(r)[ty],
                places.len() == out@.len(),
                forall|j: int|
                    0 <= j < out@.len() ==> {
                        let (a, r) = #[trigger] places[j];
                        &&& 0 <= a < it.index()
                        &&& 0 <= r < archs0[a].ids_view().len()
                        &&& query.satisfied(archs0[a].types_view().to_set())
                        &&& out@[j].0 == entities.handle(archs0[a].ids_view()[r])
                        &&& current_values(out@[j].1@) == query.items(archs0[a].components(r))
                        &&& as_asked(*query, out@[j].1@)
                    },
                forall|j: int, k: int|
                    0 <= j < out@.len() && 0 <= k < query.leaves().len() ==> (#[trigger] out@[j].1@[k] matches Some(
                        Fetched::Unique(x),
                    ) ==> *final(x) == final(refs[places[j].0]).components(places[j].1)[query.leaves()[k].ty]),
                forall|i: int, j: int| 0 <= i < j < places.len() ==> #[trigger] places[i] != #[trigger] places[j],
                forall|a: int, r: int|
                    0 <= a < it.index() && 0 <= r < archs0[a].ids_view().len() && query.satisfied(archs0[a].types_view().to_set())
                        ==> #[trigger] places.contains((a, r)),
        {
            let ghost a = it.index() as int;
            proof {
                archs0[a].lemma_shape();
                assert(known_rows(*entities, archs0[a]));
            }
            if let Some(plan) = query.prepare(archetype.types()) {
                let mut list = query_archetype(query, &plan, entities, archetype);
                let ghost given = list@;
                let ghost out0 = out@;
                let ghost places0 = places;
                out.append(&mut list);
                proof {
                    let n = archs0[a].ids_view().len();
                    places = places0 + Seq::new(n, |r: int| (a, r));
                    assert forall|b: int, r: int|
                        0 <= b < a + 1 && 0 <= r < archs0[b].ids_view().len() && query.satisfied(archs0[b].types_view().to_set()) implies #[trigger] places.contains(
                        (b, r),
                    ) by {
                        if b == a {
                            assert(places[places0.len() + r] == (a, r));
                        } else {
                            assert(places0.contains((b, r)));
                            let j = choose|j: int| 0 <= j < places0.len() && places0[j] == (b, r);
                            assert(places[j] == (b, r));
                        }
                    }
                    assert forall|j: int| 0 <= j < out@.len() implies #[trigger] out@[j] == (if j < out0.len() {
                        out0[j]
                    } else {
                        given[j - out0.len()]
                    }) by {}
                    assert forall|j: int, k: int| 0 <= j < out@.len() && 0 <= k < query.leaves().len() implies (#[trigger] out@[j].1@[k] matches Some(
                        Fetched::Unique(x),
                    ) ==> *final(x) == final(refs[places[j].0]).components(places[j].1)[query.leaves()[k].ty]) by {
                        if j < out0.len() {
                            assert(out@[j].1@[k] == out0[j].1@[k]);
                            assert(places[j] == places0[j]);
                        } else {
                            assert(out@[j].1@[k] == given[j - out0.len()].1@[k]);
                            assert(places[j] == (a, j - out0.len()));
                        }
                    }
                }
            }
        }
        proof {
            let after = *after_borrow(self);
            let archs1 = after.archetypes.archs();
            assert forall|a: int| 0 <= a < archs1.len() implies {
                &&& (#[trigger] archs1[a]).wf()
                &&& archs1[a].types_view() == archs0[a].types_view()
                &&& archs1[a].ids_view() == archs0[a].ids_view()
            } by {
                assert(*final(refs[a]) == archs1[a]);
            }
            after.lemma_rewritten(&before);
            let entries = current_entries(out@);
            assert forall|j: int| 0 <= j < out@.len() implies {
                let e = (#[trigger] out@[j]).0;
                &&& matches.contains_key(e)
                &&& matches[e] == current_values(out@[j].1@)
                &&& metas[e.id as int].location == (Location { archetype: places[j].0 as u32, index: places[j].1 as u32 })
            } by {
                let (a, r) = places[j];
                archs0[a].lemma_shape();
                before.lemma_archetype_types(a);
                assert(archs0[a].ids_view()[r] == out@[j].0.id);
                assert(before.model().live.contains_key(out@[j].0));
            }
            assert forall|i: int, j: int| 0 <= i < j < entries.len() implies (#[trigger] entries[i]).0 != (#[trigger] entries[j]).0 by {
                assert(out@[i].0 == entries[i].0);
                assert(out@[j].0 == entries[j].0);
                archs0[places[i].0].lemma_shape();
                archs0[places[j].0].lemma_shape();
                assert(places[i] != places[j]);
            }
            assert forall|i: int| 0 <= i < entries.len() implies matches.contains_key((#[trigger] entries[i]).0)
                && matches[entries[i].0] == entries[i].1 by {
                assert(out@[i].0 == entries[i].0);
            }
            assert forall|e: Entity| #[trigger] matches.contains_key(e) implies exists|i: int|
                0 <= i < entries.len() && (#[trigger] entries[i]).0 == e by {
                let loc = metas[e.id as int].location;
                let (a, r) = (loc.archetype as int, loc.index as int);
                before.lemma_archetype_types(a);
                assert(archs0[a].ids_view()[r] == e.id);
                assert(places.contains((a, r)));
                let j = choose|j: int| 0 <= j < places.len() && places[j] == (a, r);
                assert(entries[j].0 == e);
            }
            assert forall|i: int, k: int| 0 <= i < out@.len() && 0 <= k < query.leaves().len() implies (#[trigger] out@[i].1@[k] matches Some(
                Fetched::Unique(x),
            ) ==> *final(x) == after.model().live[out@[i].0][query.leaves()[k].ty]) by {
                let (a, r) = places[i];
                assert(matches.contains_key(out@[i].0));
                archs0[a].lemma_shape();
                assert(*final(refs[a]) == archs1[a]);
            }
            assert forall|e: Entity, ty: TypeId|
                before.model().live.contains_key(e) && before.model().live[e].contains_key(ty) && !(query.satisfied(
                    before.model().live[e].dom(),
                ) && query.writes(before.model().live[e].dom(), ty)) implies #[trigger] after.model().live[e][ty]
                == before.model().live[e][ty] by {
                let loc = metas[e.id as int].location;
                let (a, r) = (loc.archetype as int, loc.index as int);
                before.lemma_archetype_types(a);
                assert(archs0[a].ids_view()[r] == e.id);
                assert(*final(refs[a]) == archs1[a]);
                assert(final(refs[a]).components(r)[ty] == archs0[a].components(r)[ty]);
            }
        }
        out
    }

    /// The locations of distinct live entities are distinct rows.
    proof fn lemma_places(&self, entities: Seq<Entity>, locations: Seq<Option<Location>>, query: Query)
        requires
            self.wf(),
            entities.no_duplicates(),
            locations.len() == entities.len(),
            forall|i: int|
                0 <= i < locations.len() && (#[trigger] locations[i]) is Some ==> {
                    &&& self.model().live.contains_key(entities[i])
                    &&& locations[i] == Some(self.entities.metas()[entities[i].id as int].location)
                    &&& query.satisfied(self.model().live[entities[i]].dom())
                },
        ensures
            placed(locations, self.archetypes.archs(), query),
    {
        let archs = self.archetypes.archs();
        assert forall|i: int| 0 <= i < locations.len() && (#[trigger] locations[i]) is Some implies {
            let loc = locations[i]->0;
            &&& loc.archetype < archs.len()
            &&& loc.index < archs[loc.archetype as int].ids_view().len()
            &&& query.satisfied(archs[loc.archetype as int].types_view().to_set())
        } by {
            let loc = locations[i]->0;
            assert(archs[loc.archetype as int].ids_view()[loc.index as int] == entities[i].id);
            self.lemma_archetype_types(loc.archetype as int);
        }
        assert forall|i: int, j: int|
            0 <= i < j < locations.len() && (#[trigger] locations[i]) is Some && (#[trigger] locations[j]) is Some implies locations[i]
            != locations[j] by {
            let loc = locations[i]->0;
            assert(archs[loc.archetype as int].ids_view()[loc.index as int] == entities[i].id);
            assert(entities[i] != entities[j]);
        }
    }

    /// Where a query is to fetch from, if the entity satisfies it; nowhere for a reserved entity.
    fn decide(&self, entity: Entity, query: &Query) -> (r: Result<Option<Location>, QueryOneError>)
        requires
            self.wf(),
        ensures
            match r {
                Err(QueryOneError::NoSuchEntity) => !self.model().contains(entity),
                Err(QueryOneError::Unsatisfied) => self.model().contains(entity) && !query.satisfied(
                    self.model().components(entity).dom(),
                ),
                Ok(place) => {
                    &&& self.model().contains(entity)
                    &&& query.satisfied(self.model().components(entity).dom())
                    &&& place == (if self.model().live.contains_key(entity) {
                        Some(self.entities.metas()[entity.id as int].location)
                    } else {
                        None
                    })
                },
            },
    {
        proof {
            self.lemma_wf();
        }
        let loc: Location = match self.entities.get(entity) {
            Ok(loc) => loc,
            Err(e) => {
                return Err(QueryOneError::from(e));
            },
        };
        let archetype = &self.archetypes.all()[loc.archetype as usize];
        proof {
            archetype.lemma_shape();
            if loc.index == u32::MAX {
                assert(archetype.types_view().to_set() =~= Set::<TypeId>::empty());
            }
            assert(self.model().components(entity).dom() =~= archetype.types_view().to_set());
        }
        match query.prepare(archetype.types()) {
            Some(_) => if loc.index == u32::MAX {
                Ok(None)
            } else {
                Ok(Some(loc))
            },
            None => Err(QueryOneError::Unsatisfied),
        }
    }

    /// Query a number of distinct entities in a uniquely borrowed world.
    ///
    /// Like `query_one_mut`, but for multiple entities, which would otherwise be forbidden by the
    /// unique borrow.
    pub fn query_many_mut<'a>(&'a mut self, entities: &[Entity], query: &Query) -> (r: Vec<
        Result<Vec<Option<Fetched<'a, V>>>, QueryOneError>,
    >)
        requires
            old(self).wf(),
            query.borrows(),
            entities@.no_duplicates(),
        ensures
            final(self).wf(),
            final(self).model() == after(old(self).model(), Step::Write { live: final(self).model().live }),
            final(self).model() == (WorldModel { live: final(self).model().live, ..old(self).model() }),
            final(self).unmoved(old(self)),
            final(self).model().live.dom() == old(self).model().live.dom(),
            forall|e: Entity| #[trigger]
                old(self).model().live.contains_key(e) ==> final(self).model().live[e].dom() == old(self).model().live[e].dom(),
            r@.len() == entities@.len(),
            forall|i: int|
                0 <= i < r@.len() ==> match #[trigger] r@[i] {
                    Err(QueryOneError::NoSuchEntity) => !old(self).model().contains(entities@[i]),
                    Err(QueryOneError::Unsatisfied) => old(self).model().contains(entities@[i]) && !query.satisfied(
                        old(self).model().components(entities@[i]).dom(),
                    ),
                    Ok(items) => {
                        &&& old(self).model().contains(entities@[i])
                        &&& query.satisfied(old(self).model().components(entities@[i]).dom())
                        &&& current_values(items@) == query.items(old(self).model().components(entities@[i]))
                        &&& as_asked(*query, items@)
                    },
                },
            forall|i: int, k: int|
                0 <= i < r@.len() && r@[i] is Ok && 0 <= k < query.leaves().len() ==> (#[trigger] r@[i]->Ok_0@[k] matches Some(
                    Fetched::Unique(x),
                ) ==> *final(x) == final(self).model().components(entities@[i])[query.leaves()[k].ty]),
            forall|e: Entity, ty: TypeId|
                old(self).model().live.contains_key(e) && old(self).model().live[e].contains_key(ty) && !(entities@.contains(e)
                    && query.satisfied(old(self).model().live[e].dom()) && query.writes(old(self).model().live[e].dom(), ty))
                    ==> #[trigger] final(self).model().live[e][ty] == old(self).model().live[e][ty],
    {
        let ghost before = *self;
        let ghost model = self.model();
        let ghost metas = self.entities.metas();
        let ghost archs0 = self.archetypes.archs();
        let (errors, locations) = self.decide_all(entities, query);
        proof {
            self.lemma_wf();
            assert forall|i: int| 0 <= i < locations@.len() && (#[trigger] locations@[i]) is Some implies {
                &&& model.live.contains_key(entities@[i])
                &&& locations@[i] == Some(metas[entities@[i].id as int].location)
                &&& query.satisfied(model.live[entities@[i]].dom())
            } by {
                assert(errors@[i] is None);
            }
            before.lemma_places(entities@, locations@, *query);
        }
        let slots = query_places(query, self.archetypes.all_mut(), &locations);
        let ghost given = slots@;
        let leaves: usize = query.list().len();
        let mut r: Vec<Result<Vec<Option<Fetched<'a, V>>>, QueryOneError>> = Vec::new();
        for slot in it: slots
            invariant
                it.seq() == given,
                given.len() == errors@.len(),
                leaves == query.leaves().len(),
                r@.len() == it.index(),
                forall|i: int|
                    0 <= i < it.index() ==> match #[trigger] errors@[i] {
                        Some(e) => r@[i] == Err::<Vec<Option<Fetched<'a, V>>>, QueryOneError>(e),
                        None => match given[i] {
                            Some(items) => r@[i] == Ok::<Vec<Option<Fetched<'a, V>>>, QueryOneError>(items),
                            None => r@[i] is Ok && r@[i]->Ok_0@.len() == leaves && forall|k: int|
                                0 <= k < leaves ==> (#[trigger] r@[i]->Ok_0@[k]) is None,
                        },
                    },
        {
            match errors[r.len()] {
                Some(e) => r.push(Err(e)),
                None => match slot {
                    Some(items) => r.push(Ok(items)),
                    None => r.push(Ok(nothing(leaves))),
                },
            }
        }
        proof {
            let after = *after_borrow(self);
            let archs1 = after.archetypes.archs();
            after.lemma_rewritten(&before);
            assert forall|i: int| 0 <= i < r@.len() implies match #[trigger] r@[i] {
                Err(QueryOneError::NoSuchEntity) => !model.contains(entities@[i]),
                Err(QueryOneError::Unsatisfied) => model.contains(entities@[i]) && !query.satisfied(
                    model.components(entities@[i]).dom(),
                ),
                Ok(items) => {
                    &&& model.contains(entities@[i])
                    &&& query.satisfied(model.components(entities@[i]).dom())
                    &&& current_values(items@) == query.items(model.components(entities@[i]))
                    &&& as_asked(*query, items@)
                },
            } by {
                let e = entities@[i];
                if errors@[i] is None && locations@[i] is None {
                    lemma_present(*query, Set::empty());
                    assert(model.components(e).dom() =~= Set::<TypeId>::empty());
                    assert(current_values(r@[i]->Ok_0@) =~= query.items(model.components(e)));
                }
            }
            assert forall|i: int, k: int| 0 <= i < r@.len() && r@[i] is Ok && 0 <= k < query.leaves().len() implies (
            #[trigger] r@[i]->Ok_0@[k] matches Some(Fetched::Unique(x)) ==> *final(x) == after.model().components(
                entities@[i],
            )[query.leaves()[k].ty]) by {
                assert(errors@[i] is None);
                if locations@[i] is Some {
                    assert(r@[i]->Ok_0@[k] == given[i]->0@[k]);
                }
            }
            assert forall|e: Entity, ty: TypeId|
                model.live.contains_key(e) && model.live[e].contains_key(ty) && !(entities@.contains(e) && query.satisfied(
                    model.live[e].dom(),
                ) && query.writes(model.live[e].dom(), ty)) implies #[trigger] after.model().live[e][ty] == model.live[e][ty] by {
                let loc = metas[e.id as int].location;
                let (a, r) = (loc.archetype as int, loc.index as int);
                before.lemma_archetype_types(a);
                assert(archs0[a].ids_view()[r] == e.id);
                if locations@.contains(Some(loc)) {
                    let i = choose|i: int| 0 <= i < locations@.len() && locations@[i] == Some(loc);
                    let x = entities@[i];
                    assert(archs0[a].ids_view()[r] == x.id);
                    assert(x == e);
                }
                assert(archs1[a].components(r)[ty] == archs0[a].components(r)[ty]);
            }
        }
        r
    }

    /// Where a query is to fetch from each entity, or what stands in the way.
    fn decide_all(&self, entities: &[Entity], query: &Query) -> (r: (Vec<Option<QueryOneError>>, Vec<Option<Location>>))
        requires
            self.wf(),
        ensures
            r.0@.len() == entities@.len(),
            r.1@.len() == entities@.len(),
            forall|k: int|
                0 <= k < entities@.len() ==> match #[trigger] r.0@[k] {
                    Some(QueryOneError::NoSuchEntity) => !self.model().contains(entities@[k]) && r.1@[k] is None,
                    Some(QueryOneError::Unsatisfied) => self.model().contains(entities@[k]) && !query.satisfied(
                        self.model().components(entities@[k]).dom(),
                    ) && r.1@[k] is None,
                    None => {
                        &&& self.model().contains(entities@[k])
                        &&& query.satisfied(self.model().components(entities@[k]).dom())
                        &&& r.1@[k] == (if self.model().live.contains_key(entities@[k]) {
                            Some(self.entities.metas()[entities@[k].id as int].location)
                        } else {
                            None
                        })
                    },
                },
    {
        let mut errors: Vec<Option<QueryOneError>> = Vec::new();
        let mut locations: Vec<Option<Location>> = Vec::new();
        for i in 0..entities.len()
            invariant
                self.wf(),
                errors@.len() == i,
                locations@.len() == i,
                forall|k: int|
                    0 <= k < i ==> match #[trigger] errors@[k] {
                        Some(QueryOneError::NoSuchEntity) => !self.model().contains(entities@[k]) && locations@[k] is None,
                        Some(QueryOneError::Unsatisfied) => self.model().contains(entities@[k]) && !query.satisfied(
                            self.model().components(entities@[k]).dom(),
                        ) && locations@[k] is None,
                        None => {
                            &&& self.model().contains(entities@[k])
                            &&& query.satisfied(self.model().components(entities@[k]).dom())
                            &&& locations@[k] == (if self.model().live.contains_key(entities@[k]) {
                                Some(self.entities.metas()[entities@[k].id as int].location)
                            } else {
                                None
                            })
                        },
                    },
        {
            match self.decide(entities[i], query) {
                Ok(place) => {
                    errors.push(None);
                    locations.push(place);
                },
                Err(e) => {
                    errors.push(Some(e));
                    locations.push(None);
                },
            }
        }
        (errors, locations)
    }

    /// Provide random access to any entity for a given query on a uniquely borrowed world.
    pub fn view_mut<'a, 'q>(&'a mut self, query: &'q Query) -> (r: ViewMut<'a, 'q, V>)
        requires
            old(self).wf(),
            query.borrows(),
        ensures
            r.wf(),
            *r.world == *old(self),
            *final(self) == *final(r.world),
            r.query == query,
    {
        ViewMut { world: self, query }
    }
}

} // verus!

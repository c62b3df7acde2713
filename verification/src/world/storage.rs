//! Giving entities a row in an archetype and taking it away.
use vstd::prelude::*;

use super::{consistent, live_map, World};
use crate::archetype::Archetype;
use crate::entities::{ids_of, nowhere, Entities, Entity, EntityMeta, Location, NoSuchEntity};
use crate::layout::{grown, lemma_nothing_dropped, row_dropped, rows_added};
use crate::maps::BundleKey;
use crate::model::{lemma_id_count, swap_removed, WorldModel};
use crate::types::{increasing, row_map, TypeId};

verus! {

/// An archetype has no more rows than there are live entities.
pub(super) proof fn lemma_row_count<V>(entities: Entities, archs: Seq<Archetype<V>>, limbo: Set<u32>, a: int)
    requires
        entities.wf(limbo),
        consistent(entities.metas(), archs),
        0 <= a < archs.len(),
        archs[a].ids_view().len() <= u32::MAX,
    ensures
        archs[a].ids_view().len() <= entities.live().len(),
{
    let ids = archs[a].ids_view();
    let handles = ids.map_values(|id: u32| entities.handle(id));
    assert forall|r: int| 0 <= r < ids.len() implies entities.live().contains(#[trigger] handles[r]) && handles[r].id == ids[r]
        && entities.metas()[ids[r] as int].location.index == r by {
        assert(archs[a].ids_view()[r] == ids[r]);
    }
    assert forall|i: int, j: int| 0 <= i < handles.len() && 0 <= j < handles.len() && i != j implies handles[i] != handles[j] by {}
    handles.unique_seq_to_set();
    assert(handles.to_set().subset_of(entities.live()));
    vstd::set_lib::lemma_len_subset(handles.to_set(), entities.live());
}

/// Records of IDs without a location say nothing about rows.
pub(super) proof fn lemma_same_rows<V>(before: Entities, after: Entities, archs: Seq<Archetype<V>>)
    requires
        consistent(before.metas(), archs),
        forall|a: int| 0 <= a < archs.len() ==> (#[trigger] archs[a]).wf(),
        forall|id: int|
            0 <= id < after.metas().len() && (#[trigger] after.metas()[id]).location.index != u32::MAX ==> id
                < before.metas().len() && after.metas()[id] == before.metas()[id],
        forall|id: int|
            0 <= id < before.metas().len() && (#[trigger] before.metas()[id]).location.index != u32::MAX ==> id
                < after.metas().len() && after.metas()[id] == before.metas()[id],
    ensures
        consistent(after.metas(), archs),
        after.live() == before.live(),
        live_map(after, archs) == live_map(before, archs),
{
    assert forall|a: int, r: int| 0 <= a < archs.len() && 0 <= r < archs[a].ids_view().len() implies {
        let id = #[trigger] archs[a].ids_view()[r];
        &&& id < after.metas().len()
        &&& after.metas()[id as int].location == (Location { archetype: a as u32, index: r as u32 })
    } by {
        let id = archs[a].ids_view()[r];
        archs[a].lemma_shape();
        assert(before.metas()[id as int].location.index != u32::MAX);
    }
    assert forall|e: Entity| after.located(e) <==> before.located(e) by {
        if after.located(e) {
            assert(after.metas()[e.id as int] == before.metas()[e.id as int]);
        }
        if before.located(e) {
            assert(after.metas()[e.id as int] == before.metas()[e.id as int]);
        }
    }
    assert(after.live() =~= before.live());
    assert forall|e: Entity| before.live().contains(e) implies live_map(after, archs)[e] == live_map(before, archs)[e] by {
        assert(after.metas()[e.id as int] == before.metas()[e.id as int]);
    }
    assert(live_map(after, archs) =~= live_map(before, archs));
}

/// Archetypes with the same entities and components are as good as the same.
pub(super) proof fn lemma_same_contents<V>(
    entities: Entities,
    before: Seq<Archetype<V>>,
    after: Seq<Archetype<V>>,
)
    requires
        consistent(entities.metas(), before),
        before.len() == after.len(),
        forall|i: int|
            0 <= i < before.len() ==> {
                &&& (#[trigger] after[i]).types_view() == before[i].types_view()
                &&& after[i].ids_view() == before[i].ids_view()
                &&& after[i].rows() == before[i].rows()
            },
    ensures
        consistent(entities.metas(), after),
        live_map(entities, after) == live_map(entities, before),
{
    assert forall|a: int, r: int| 0 <= a < after.len() && 0 <= r < after[a].ids_view().len() implies {
        let id = #[trigger] after[a].ids_view()[r];
        &&& id < entities.metas().len()
        &&& entities.metas()[id as int].location == (Location { archetype: a as u32, index: r as u32 })
    } by {
        assert(before[a].ids_view()[r] == after[a].ids_view()[r]);
    }
    assert forall|e: Entity| entities.live().contains(e) implies live_map(entities, after)[e] == live_map(entities, before)[e] by {
        let loc = entities.metas()[e.id as int].location;
        assert(after[loc.archetype as int].rows() == before[loc.archetype as int].rows());
    }
    assert(live_map(entities, after) =~= live_map(entities, before));
}

/// Archetypes without entities add no row.
pub(super) proof fn lemma_more_archetypes<V>(
    entities: Entities,
    before: Seq<Archetype<V>>,
    after: Seq<Archetype<V>>,
)
    requires
        consistent(entities.metas(), before),
        before.len() <= after.len(),
        forall|i: int| 0 <= i < before.len() ==> after[i] == #[trigger] before[i],
        forall|i: int| before.len() <= i < after.len() ==> (#[trigger] after[i]).ids_view().len() == 0,
    ensures
        consistent(entities.metas(), after),
        live_map(entities, after) == live_map(entities, before),
{
    assert forall|a: int, r: int| 0 <= a < after.len() && 0 <= r < after[a].ids_view().len() implies {
        let id = #[trigger] after[a].ids_view()[r];
        &&& id < entities.metas().len()
        &&& entities.metas()[id as int].location == (Location { archetype: a as u32, index: r as u32 })
    } by {
        assert(after[a] == before[a]);
        assert(before[a].ids_view()[r] == after[a].ids_view()[r]);
    }
    assert forall|e: Entity| entities.live().contains(e) implies live_map(entities, after)[e] == live_map(entities, before)[e] by {
        let loc = entities.metas()[e.id as int].location;
        assert(after[loc.archetype as int] == before[loc.archetype as int]);
    }
    assert(live_map(entities, after) =~= live_map(entities, before));
}

impl<V> World<V> {
    /// Gives an allocated ID a row.
    pub(super) fn attach(&mut self, id: u32, archetype: u32, row: Vec<V>, Ghost(limbo): Ghost<Set<u32>>)
        requires
            old(self).inv(limbo),
            limbo.contains(id),
            archetype < old(self).archetypes.archs().len(),
            row@.len() == old(self).archetypes.archs()[archetype as int].types_view().len(),
        ensures
            final(self).inv(limbo.remove(id)),
            final(self).same_but_rows(old(self)),
            final(self).model().live == old(self).model().live.insert(
                old(self).entities.handle(id),
                row_map(old(self).archetypes.archs()[archetype as int].types_view(), row@),
            ),
            forall|b: int|
                0 <= b < old(self).archetypes.archs().len() && b != archetype ==> final(self).archetypes.archs()[b]
                    == #[trigger] old(self).archetypes.archs()[b],
            final(self).archetypes.archs()[archetype as int].ids_view()
                == old(self).archetypes.archs()[archetype as int].ids_view().push(id),
            final(self).archetypes.archs()[archetype as int].rows()
                == old(self).archetypes.archs()[archetype as int].rows().push(row@),
            final(self).layout() == rows_added(old(self).layout(), archetype as int, seq![id]),
    {
        let ghost before = *self;
        let ghost a = archetype as int;
        let ghost archs0 = self.archetypes.archs();
        let ghost metas0 = self.entities.metas();
        proof {
            archs0[a].lemma_shape();
            lemma_row_count(self.entities, archs0, limbo, a);
            assert(limbo.len() >= 1) by {
                assert(limbo.remove(id).len() + 1 == limbo.len());
            }
        }
        let index: u32 = self.archetypes.at_mut(archetype).allocate(id, row);
        self.entities.locate(id, Location { archetype, index }, Ghost(limbo));
        proof {
            let archs1 = self.archetypes.archs();
            let metas1 = self.entities.metas();
            self.archetypes.lemma_same_types(&before.archetypes);
            assert forall|k: int| 0 <= k < metas1.len() && (#[trigger] metas1[k]).location.index != u32::MAX implies {
                let loc = metas1[k].location;
                &&& loc.archetype < archs1.len()
                &&& loc.index < archs1[loc.archetype as int].ids_view().len()
                &&& archs1[loc.archetype as int].ids_view()[loc.index as int] == k
            } by {
                if k != id {
                    assert(metas1[k] == metas0[k]);
                }
            }
            assert forall|b: int, r: int| 0 <= b < archs1.len() && 0 <= r < archs1[b].ids_view().len() implies {
                let k = #[trigger] archs1[b].ids_view()[r];
                &&& k < metas1.len()
                &&& metas1[k as int].location == (Location { archetype: b as u32, index: r as u32 })
            } by {
                let k = archs1[b].ids_view()[r];
                archs0[b].lemma_shape();
                if b != a || r != index {
                    assert(archs0[b].ids_view()[r] == k);
                    assert(metas0[k as int].location.index != u32::MAX);
                }
            }
            let e = before.entities.handle(id);
            let live0 = before.model().live;
            let live1 = self.model().live;
            assert forall|x: Entity| #[trigger] live1.contains_key(x) implies live1[x] == live0.insert(
                e,
                row_map(archs0[a].types_view(), row@),
            )[x] by {
                let loc = metas1[x.id as int].location;
                if x == e {
                    assert(archs1[a].rows()[index as int] == row@);
                } else {
                    assert(metas1[x.id as int] == metas0[x.id as int]);
                    assert(archs0[loc.archetype as int].ids_view()[loc.index as int] == x.id);
                    archs0[loc.archetype as int].lemma_shape();
                    assert(archs1[loc.archetype as int].rows()[loc.index as int] == archs0[loc.archetype as int].rows()[loc.index as int]);
                }
            }
            assert(live1.dom() =~= live0.insert(e, row_map(archs0[a].types_view(), row@)).dom());
            assert(live1 =~= live0.insert(e, row_map(archs0[a].types_view(), row@)));
            assert(archs0[a].ids_view().push(id) =~= archs0[a].ids_view() + seq![id]);
            assert(self.layout() =~= rows_added(before.layout(), a, seq![id]));
        }
    }

    /// Takes a live entity's row away; returns its components in the order of the archetype's types.
    pub(super) fn detach(&mut self, id: u32, Ghost(limbo): Ghost<Set<u32>>) -> (row: Vec<V>)
        requires
            old(self).inv(limbo),
            id < old(self).entities.metas().len(),
            old(self).entities.metas()[id as int].location.index != u32::MAX,
        ensures
            final(self).inv(limbo.insert(id)),
            !limbo.contains(id),
            final(self).same_but_rows(old(self)),
            old(self).model().live.contains_key(old(self).entities.handle(id)),
            final(self).model().live == old(self).model().live.remove(old(self).entities.handle(id)),
            ({
                let loc = old(self).entities.metas()[id as int].location;
                let types = old(self).archetypes.archs()[loc.archetype as int].types_view();
                &&& loc.archetype < old(self).archetypes.archs().len()
                &&& row@.len() == types.len()
                &&& row_map(types, row@) == old(self).model().live[old(self).entities.handle(id)]
                &&& forall|b: int|
                    0 <= b < old(self).archetypes.archs().len() && b != loc.archetype ==> final(self).archetypes.archs()[b]
                        == #[trigger] old(self).archetypes.archs()[b]
                &&& final(self).archetypes.archs()[loc.archetype as int].ids_view() == swap_removed(
                    old(self).archetypes.archs()[loc.archetype as int].ids_view(),
                    loc.index as int,
                )
                &&& final(self).archetypes.archs()[loc.archetype as int].rows() == swap_removed(
                    old(self).archetypes.archs()[loc.archetype as int].rows(),
                    loc.index as int,
                )
            }),
            final(self).layout() == row_dropped(old(self).layout(), id),
    {
        let ghost before = *self;
        let ghost archs0 = self.archetypes.archs();
        let ghost metas0 = self.entities.metas();
        let ghost e = self.entities.handle(id);
        let ghost loc = metas0[id as int].location;
        let ghost a = loc.archetype as int;
        let ghost r0 = loc.index as int;
        let ghost last = archs0[a].ids_view().len() - 1;
        assert(before.model().live.contains_key(e));
        proof {
            archs0[a].lemma_shape();
        }
        let location: Location = self.entities.meta_location(id);
        let (row, moved) = self.archetypes.at_mut(location.archetype).remove(location.index);
        self.entities.unlocate(id, Ghost(limbo));
        if let Some(m) = moved {
            proof {
                assert(archs0[a].ids_view()[last] == m);
                assert(metas0[m as int].location == (Location { archetype: a as u32, index: last as u32 }));
            }
            self.entities.relocate(m, location.index, Ghost(limbo.insert(id)));
        }
        proof {
            let archs1 = self.archetypes.archs();
            let metas1 = self.entities.metas();
            self.archetypes.lemma_same_types(&before.archetypes);
            // Of all entities, only the one in the last row changes its place.
            assert forall|k: int| 0 <= k < metas1.len() && k != id implies #[trigger] metas1[k] == (if metas0[k].location.index
                != u32::MAX && metas0[k].location.archetype == a && metas0[k].location.index == last {
                EntityMeta {
                    generation: metas0[k].generation,
                    location: Location { archetype: a as u32, index: r0 as u32 },
                }
            } else {
                metas0[k]
            }) by {
                if metas0[k].location.index != u32::MAX && metas0[k].location.archetype == a && metas0[k].location.index
                    == last {
                    assert(archs0[a].ids_view()[last] == k);
                    assert(last != r0);
                } else {
                    if moved is Some {
                        assert(archs0[a].ids_view()[last] == moved->0);
                        assert(metas0[moved->0 as int].location == (Location { archetype: a as u32, index: last as u32 }));
                        assert(moved->0 != k);
                    }
                }
            }
            assert forall|k: int| 0 <= k < metas1.len() && (#[trigger] metas1[k]).location.index != u32::MAX implies {
                let l = metas1[k].location;
                &&& l.archetype < archs1.len()
                &&& l.index < archs1[l.archetype as int].ids_view().len()
                &&& archs1[l.archetype as int].ids_view()[l.index as int] == k
            } by {
                assert(k != id);
                let l0 = metas0[k].location;
                assert(archs0[l0.archetype as int].ids_view()[l0.index as int] == k);
                if l0.archetype == a && l0.index == r0 {
                    assert(archs0[a].ids_view()[r0] == id);
                }
            }
            assert forall|b: int, r: int| 0 <= b < archs1.len() && 0 <= r < archs1[b].ids_view().len() implies {
                let k = #[trigger] archs1[b].ids_view()[r];
                &&& k < metas1.len()
                &&& metas1[k as int].location == (Location { archetype: b as u32, index: r as u32 })
            } by {
                let k = archs1[b].ids_view()[r];
                archs0[b].lemma_shape();
                let old_r = if b == a && r == r0 { last } else { r };
                assert(archs0[b].ids_view()[old_r] == k);
                assert(metas0[k as int].location == (Location { archetype: b as u32, index: old_r as u32 }));
                assert(k != id) by {
                    if k == id {
                        assert(old_r == r0 && b == a);
                    }
                }
                assert(metas1[k as int] == metas1[k as int]);
            }
            let live0 = before.model().live;
            let live1 = self.model().live;
            assert(live1.dom() =~= live0.remove(e).dom());
            assert forall|x: Entity| #[trigger] live1.contains_key(x) implies live1[x] == live0[x] by {
                let l0 = metas0[x.id as int].location;
                let l1 = metas1[x.id as int].location;
                assert(x.id != id) by {
                    if x.id == id {
                        assert(metas1[id as int].location == nowhere());
                    }
                }
                assert(archs0[l0.archetype as int].ids_view()[l0.index as int] == x.id);
                archs0[l0.archetype as int].lemma_shape();
                assert(metas1[x.id as int] == metas1[x.id as int]);
                if l0.archetype == a && l0.index == r0 {
                    assert(archs0[a].ids_view()[r0] == id);
                }
                assert(archs1[l1.archetype as int].rows()[l1.index as int] == archs0[l0.archetype as int].rows()[l0.index as int]);
            }
            assert(live1 =~= live0.remove(e));
            before.lemma_place(limbo, id);
            assert(self.layout() =~= row_dropped(before.layout(), id));
        }
        row
    }

    /// All but the locations of entities and the rows of archetypes is the same.
    pub(super) open spec fn same_but_rows(&self, before: &World<V>) -> bool {
        &&& self.id == before.id
        &&& self.graph == before.graph
        &&& self.archetypes.type_sets() == before.archetypes.type_sets()
        &&& self.archetypes.type_lists() == before.archetypes.type_lists()
        &&& self.archetypes.archs().len() == before.archetypes.archs().len()
        &&& self.entities.same_but_locations(&before.entities)
        &&& self.entities.count() == before.entities.count()
    }

    /// An ID is listed in the row where it is located, and nowhere else.
    pub(super) proof fn lemma_place(&self, limbo: Set<u32>, id: u32)
        requires
            self.inv(limbo),
        ensures
            self.layout().len() == self.archetypes.archs().len(),
            forall|a: int|
                0 <= a < self.layout().len() ==> ((#[trigger] self.layout()[a]).contains(id) <==> {
                    &&& id < self.entities.metas().len()
                    &&& self.entities.metas()[id as int].location.index != u32::MAX
                    &&& self.entities.metas()[id as int].location.archetype == a
                }),
            forall|a: int|
                0 <= a < self.layout().len() && (#[trigger] self.layout()[a]).contains(id) ==> self.layout()[a].index_of(id)
                    == self.entities.metas()[id as int].location.index,
    {
        let archs = self.archetypes.archs();
        let metas = self.entities.metas();
        assert forall|a: int, r: int|
            0 <= a < archs.len() && 0 <= r < archs[a].ids_view().len() && #[trigger] archs[a].ids_view()[r] == id implies {
            &&& id < metas.len()
            &&& metas[id as int].location.index == r
            &&& r != u32::MAX
            &&& metas[id as int].location.archetype == a
        } by {
            archs[a].lemma_shape();
        }
        assert forall|a: int| 0 <= a < archs.len() && (#[trigger] self.layout()[a]).contains(id) implies {
            &&& id < metas.len()
            &&& metas[id as int].location.index == self.layout()[a].index_of(id)
            &&& metas[id as int].location.index != u32::MAX
            &&& metas[id as int].location.archetype == a
        } by {
            let r = self.layout()[a].index_of(id);
            assert(archs[a].ids_view()[r] == id);
        }
        assert forall|a: int|
            0 <= a < archs.len() && id < metas.len() && metas[id as int].location.index != u32::MAX
                && metas[id as int].location.archetype == a implies (#[trigger] self.layout()[a]).contains(id) by {
            assert(archs[a].ids_view()[metas[id as int].location.index as int] == id);
        }
    }

    /// The archetype of these types is listed once.
    pub(super) proof fn lemma_archetype_index(&self, limbo: Set<u32>, a: int, types: Set<TypeId>)
        requires
            self.inv(limbo),
            0 <= a < self.archetypes.archs().len(),
            self.archetypes.archs()[a].types_view().to_set() == types,
        ensures
            self.model().archetypes.len() == self.archetypes.archs().len(),
            self.model().archetypes.index_of(types) == a,
    {
        self.archetypes.lemma_type_sets();
        let sets = self.model().archetypes;
        assert(sets[a] == types);
        assert(sets.contains(types));
    }

    /// Archetypes without entities add no row.
    pub(super) proof fn lemma_grown_layout(&self, before: &World<V>)
        requires
            before.archetypes.archs().len() <= self.archetypes.archs().len(),
            forall|i: int|
                0 <= i < before.archetypes.archs().len() ==> self.archetypes.archs()[i]
                    == #[trigger] before.archetypes.archs()[i],
            forall|i: int|
                before.archetypes.archs().len() <= i < self.archetypes.archs().len() ==> (
                #[trigger] self.archetypes.archs()[i]).ids_view().len() == 0,
            self.archetypes.wf(),
        ensures
            self.layout() == grown(before.layout(), self.model().archetypes.len()),
    {
        self.archetypes.lemma_type_sets();
        assert forall|i: int| 0 <= i < self.layout().len() implies #[trigger] self.layout()[i] == grown(
            before.layout(),
            self.model().archetypes.len(),
        )[i] by {
            if i < before.layout().len() {
                assert(self.archetypes.archs()[i] == before.archetypes.archs()[i]);
            } else {
                assert(self.archetypes.archs()[i].ids_view() =~= Seq::<u32>::empty());
            }
        }
        assert(self.layout() =~= grown(before.layout(), self.model().archetypes.len()));
    }

    /// Moving rows changes nothing but the components of live entities.
    pub(super) proof fn lemma_same_but_rows(&self, before: &World<V>, limbo: Set<u32>)
        requires
            before.inv(limbo),
            self.same_but_rows(before),
        ensures
            self.model() == (WorldModel { live: self.model().live, ..before.model() }),
    {
        self.entities.lemma_same_handles(&before.entities, limbo);
    }

    /// Find the archetype of these types, or add it.
    pub(super) fn archetype_of(
        &mut self,
        key: Option<BundleKey>,
        types: &Vec<TypeId>,
        Ghost(limbo): Ghost<Set<u32>>,
    ) -> (r: u32)
        requires
            old(self).inv(limbo),
            increasing(types@),
            old(self).model().can_hold(types@.to_set()),
        ensures
            final(self).inv(limbo),
            final(self).entities == old(self).entities,
            final(self).model() == old(self).model().with_archetype(types@.to_set()),
            r < final(self).archetypes.archs().len(),
            final(self).archetypes.archs()[r as int].types_view() == types@,
            old(self).archetypes.archs().len() <= final(self).archetypes.archs().len(),
            forall|i: int|
                0 <= i < old(self).archetypes.archs().len() ==> final(self).archetypes.archs()[i]
                    == #[trigger] old(self).archetypes.archs()[i],
            forall|i: int|
                old(self).archetypes.archs().len() <= i < final(self).archetypes.archs().len() ==> (
                #[trigger] final(self).archetypes.archs()[i]).ids_view().len() == 0,
            r == final(self).model().archetypes.index_of(types@.to_set()),
            final(self).layout() == grown(old(self).layout(), final(self).model().archetypes.len()),
            final(self).records() == old(self).records().with_bundle(key, r),
    {
        let r: u32 = self.graph.bundle_archetype(&mut self.archetypes, key, types);
        proof {
            lemma_more_archetypes(self.entities, old(self).archetypes.archs(), self.archetypes.archs());
            self.lemma_archetype_index(limbo, r as int, types@.to_set());
            self.lemma_grown_layout(old(self));
        }
        r
    }

    /// Allocates an ID for an entity that is about to be given a row.
    pub(super) fn alloc_entity(&mut self) -> (e: Entity)
        requires
            old(self).wf(),
            old(self).entities.flushed(),
            old(self).model().has_room(1),
        ensures
            final(self).inv(set![e.id]),
            final(self).entities.flushed(),
            final(self).archetypes == old(self).archetypes,
            e == old(self).model().next_entity(),
            final(self).entities.handle(e.id) == e,
            final(self).model() == old(self).model().advanced(),
            final(self).graph == old(self).graph,
    {
        let ghost before = *self;
        proof {
            assert(self.model().live.dom() =~= self.entities.live());
            assert(self.entities.freelist_view().len() == self.entities.pending_ids().len());
            self.lemma_wf();
            lemma_id_count(self.model());
        }
        let e: Entity = self.entities.alloc_one(Ghost(Set::empty()));
        proof {
            assert(Set::<u32>::empty().insert(e.id) =~= set![e.id]);
            lemma_same_rows(before.entities, self.entities, self.archetypes.archs());
            let f0 = before.entities.freelist_view();
            let f1 = self.entities.freelist_view();
            if before.entities.pending_ids().len() > 0 {
                assert(f1 =~= f0.drop_last());
                assert(f0.last() == e);
            } else {
                assert(f1 =~= f0);
            }
            assert(self.entities.reserved_view() =~= before.entities.reserved_view());
        }
        e
    }

    /// The location of a live entity, when none is reserved.
    pub(super) fn find(&self, e: Entity) -> (r: Result<Location, NoSuchEntity>)
        requires
            self.wf(),
            self.entities.flushed(),
        ensures
            r == (if self.model().live.contains_key(e) {
                Ok::<Location, NoSuchEntity>(self.entities.metas()[e.id as int].location)
            } else {
                Err(NoSuchEntity)
            }),
            r matches Ok(loc) ==> {
                let archs = self.archetypes.archs();
                &&& loc.archetype < archs.len()
                &&& archs[loc.archetype as int].wf()
                &&& loc.index < archs[loc.archetype as int].ids_view().len()
                &&& self.model().live[e] == archs[loc.archetype as int].components(loc.index as int)
                &&& self.model().live[e].dom() == archs[loc.archetype as int].types_view().to_set()
                &&& self.entities.handle(e.id) == e
                &&& loc.index != u32::MAX
            },
    {
        let r = self.entities.get(e);
        proof {
            assert(self.entities.reserved_view() =~= Seq::<Entity>::empty());
            if r is Ok {
                let loc = r->Ok_0;
                assert(self.model().live[e].dom() =~= self.archetypes.archs()[loc.archetype as int].types_view().to_set());
            }
        }
        r
    }

    /// Allocates the ID of `e` under the generation of `e`, after taking away the row of the entity
    /// that uses it, if one does.
    pub(super) fn claim(&mut self, e: Entity, Ghost(limbo): Ghost<Set<u32>>)
        requires
            old(self).inv(limbo),
            old(self).entities.flushed(),
            !limbo.contains(e.id),
            old(self).model().uses(e.id) || old(self).entities.count() < u32::MAX,
        ensures
            final(self).inv(limbo.insert(e.id)),
            final(self).entities.flushed(),
            final(self).entities.handle(e.id) == e,
            forall|id: u32| limbo.contains(id) ==> #[trigger] final(self).entities.handle(id) == old(self).entities.handle(id),
            final(self).entities.count() == (if old(self).model().uses(e.id) {
                old(self).entities.count()
            } else {
                old(self).entities.count() + 1
            }),
            final(self).model() == old(self).model().vacated(e.id).claimed(e),
            final(self).archetypes.type_lists() == old(self).archetypes.type_lists(),
            final(self).archetypes.archs().len() == old(self).archetypes.archs().len(),
            final(self).layout() == row_dropped(old(self).layout(), e.id),
            final(self).graph == old(self).graph,
    {
        let ghost before = *self;
        let ghost metas0 = self.entities.metas();
        let ghost pending0 = self.entities.pending_ids();
        assert(self.model().uses(e.id) <==> (e.id < metas0.len() && metas0[e.id as int].location.index != u32::MAX)) by {
            if e.id < metas0.len() && metas0[e.id as int].location.index != u32::MAX {
                assert(self.model().live.contains_key(self.entities.handle(e.id)));
            }
        }
        assert(ids_of(self.entities.freelist_view()) =~= pending0);
        match self.entities.location(e.id) {
            Some(_) => {
                let ghost gone = self.entities.handle(e.id);
                let _ = self.detach(e.id, Ghost(limbo));
                let ghost middle = *self;
                proof {
                    self.lemma_same_but_rows(&before, limbo);
                    self.entities.lemma_same_handles(&before.entities, limbo);
                    assert(!pending0.contains(e.id));
                }
                self.entities.set_generation(e, Ghost(limbo.insert(e.id)));
                proof {
                    lemma_same_rows(middle.entities, self.entities, self.archetypes.archs());
                    assert(self.entities.freelist_view() =~= middle.entities.freelist_view());
                    assert(self.entities.reserved_view() =~= middle.entities.reserved_view());
                    assert(before.model().vacated(e.id).live =~= before.model().live.remove(gone)) by {
                        assert forall|x: Entity| #[trigger] before.model().live.contains_key(x) && x.id == e.id implies x == gone by {}
                    }
                }
            },
            None => {
                self.entities.alloc_at(e, Ghost(limbo));
                proof {
                    before.lemma_place(limbo, e.id);
                    lemma_nothing_dropped(before.layout(), e.id);
                    lemma_same_rows(before.entities, self.entities, self.archetypes.archs());
                    assert(before.model().vacated(e.id).live =~= before.model().live) by {
                        assert forall|x: Entity| #[trigger] before.model().live.contains_key(x) implies x.id != e.id by {
                            if x.id == e.id {
                                assert(before.model().uses(e.id));
                            }
                        }
                    }
                    let wanted = before.model().vacated(e.id).claimed(e);
                    assert(self.entities.freelist_view() =~= wanted.freelist) by {
                        let f1 = self.entities.freelist_view();
                        if e.id < metas0.len() {
                            let at = pending0.index_of(e.id);
                            assert forall|j: int| 0 <= j < f1.len() implies f1[j] == wanted.freelist[j] by {
                                let p = if j == at { pending0[pending0.len() - 1] } else { pending0[j] };
                                assert(self.entities.pending_ids()[j] == p);
                                assert(p != e.id) by {
                                    assert(pending0[at] == e.id);
                                }
                            }
                        } else {
                            let n = metas0.len() as int;
                            assert forall|j: int| 0 <= j < f1.len() implies f1[j] == wanted.freelist[j] by {
                                if j < pending0.len() {
                                    assert(self.entities.pending_ids()[j] == pending0[j]);
                                } else {
                                    assert(self.entities.pending_ids()[j] == n + j - pending0.len());
                                }
                            }
                        }
                    }
                    assert(self.entities.reserved_view() =~= before.entities.reserved_view());
                }
            },
        }
    }

    /// Replaces components of a live entity, all of which it has, where they are.
    ///
    /// Returns the replaced values, in the order of `types`.
    pub(super) fn overwrite(&mut self, e: Entity, types: &Vec<TypeId>, values: Vec<V>) -> (r: Vec<V>)
        requires
            old(self).wf(),
            old(self).model().live.contains_key(e),
            types@.no_duplicates(),
            values@.len() == types@.len(),
            types@.to_set().subset_of(old(self).model().live[e].dom()),
        ensures
            final(self).wf(),
            final(self).model() == old(self).model().with_entity(
                e,
                old(self).model().live[e].union_prefer_right(row_map(types@, values@)),
            ),
            r@.len() == types@.len(),
            forall|k: int| 0 <= k < types@.len() ==> r@[k] == old(self).model().live[e][#[trigger] types@[k]],
            final(self).layout() == old(self).layout(),
            final(self).graph == old(self).graph,
    {
        let ghost before = *self;
        let ghost archs0 = self.archetypes.archs();
        let ghost metas = self.entities.metas();
        let ghost values0 = values@;
        let location: Location = self.entities.meta_location(e.id);
        let ghost a = location.archetype as int;
        proof {
            assert(archs0[a].ids_view()[location.index as int] == e.id);
            assert(self.model().live[e].dom() =~= archs0[a].types_view().to_set());
        }
        let r = self.archetypes.at_mut(location.archetype).put_dynamic(types, values, location.index);
        proof {
            let archs1 = self.archetypes.archs();
            self.archetypes.lemma_same_types(&before.archetypes);
            assert forall|b: int, q: int| 0 <= b < archs1.len() && 0 <= q < archs1[b].ids_view().len() implies {
                let id = #[trigger] archs1[b].ids_view()[q];
                &&& id < metas.len()
                &&& metas[id as int].location == (Location { archetype: b as u32, index: q as u32 })
            } by {
                assert(archs0[b].ids_view()[q] == archs1[b].ids_view()[q]);
            }
            let wanted = before.model().live.insert(e, before.model().live[e].union_prefer_right(row_map(types@, values0)));
            assert forall|x: Entity| #[trigger] self.model().live.contains_key(x) implies self.model().live[x] == wanted[x] by {
                let loc = metas[x.id as int].location;
                assert(archs0[loc.archetype as int].ids_view()[loc.index as int] == x.id);
                archs0[loc.archetype as int].lemma_shape();
                if x != e {
                    assert(x.id != e.id);
                    assert(archs1[loc.archetype as int].rows()[loc.index as int]
                        == archs0[loc.archetype as int].rows()[loc.index as int]);
                }
            }
            assert(self.model().live =~= wanted);
            assert(self.layout() =~= before.layout());
        }
        r
    }
}

} // verus!

//! What a world holds, as a mathematical value, and what each operation makes of it.
use vstd::prelude::*;
use vstd::relations::*;
use vstd::seq_lib::*;
use vstd::set_lib::*;

use crate::archetype::Archetype;
use crate::archetype_set::with_types;
use crate::entities::{fresh_entities, ids_of, next_generation, Entity};
use crate::query::Query;
use crate::types::TypeId;

verus! {

/// The sequence without its element at `i`, whose place the last one takes.
pub open spec fn swap_removed<A>(s: Seq<A>, i: int) -> Seq<A> {
    s.update(i, s.last()).drop_last()
}

/// The contents of a world.
#[verifier::ext_equal]
pub struct WorldModel<V> {
    /// Number of the world.
    pub id: u64,
    /// The live entities and their components.
    pub live: Map<Entity, Map<TypeId, V>>,
    /// The handles that were given out for entities yet to be created.
    pub reserved: Set<Entity>,
    /// The handles to be used again, the last one first.
    pub freelist: Seq<Entity>,
    /// The first entity ID that was never used.
    pub next_id: nat,
    /// The sets of component types for which there is an archetype, in order of creation.
    pub archetypes: Seq<Set<TypeId>>,
}

impl<V> WorldModel<V> {
    /// A world without entities.
    pub open spec fn empty(id: u64) -> Self {
        WorldModel {
            id,
            live: Map::empty(),
            reserved: Set::empty(),
            freelist: Seq::empty(),
            next_id: 0,
            archetypes: seq![Set::<TypeId>::empty()],
        }
    }

    /// Whether the entity is live or reserved.
    pub open spec fn contains(self, e: Entity) -> bool {
        self.live.contains_key(e) || self.reserved.contains(e)
    }

    /// The components of an entity; a reserved one has none yet.
    pub open spec fn components(self, e: Entity) -> Map<TypeId, V> {
        if self.live.contains_key(e) {
            self.live[e]
        } else {
            Map::empty()
        }
    }

    /// Number of live entities.
    pub open spec fn len(self) -> nat {
        self.live.dom().len()
    }

    /// Whether a live entity uses the ID.
    pub open spec fn uses(self, id: u32) -> bool {
        exists|e: Entity| #[trigger] self.live.contains_key(e) && e.id == id
    }

    /// Whether `count` more entities can be given IDs and be counted.
    pub open spec fn has_room(self, count: nat) -> bool {
        self.len() + self.reserved.len() + count <= u32::MAX
    }

    /// Whether a live or reserved entity uses the ID, or one more entity can be counted.
    pub open spec fn can_claim(self, id: u32) -> bool {
        self.len() + self.reserved.len() < u32::MAX || self.occupied(id)
    }

    /// Whether there is an archetype of these types, or one can be added and counted.
    pub open spec fn can_hold(self, types: Set<TypeId>) -> bool {
        self.archetypes.contains(types) || self.archetypes.len() < u32::MAX
    }

    /// With an archetype of these types.
    pub open spec fn with_archetype(self, types: Set<TypeId>) -> Self {
        WorldModel { archetypes: with_types(self.archetypes, types), ..self }
    }

    /// With all reserved entities created, without components.
    pub open spec fn flushed(self) -> Self {
        WorldModel {
            live: self.live.union_prefer_right(
                Map::new(|e: Entity| self.reserved.contains(e), |e: Entity| Map::<TypeId, V>::empty()),
            ),
            reserved: Set::empty(),
            ..self
        }
    }

    /// The handle of the entity that is created next.
    pub open spec fn next_entity(self) -> Entity {
        if self.freelist.len() > 0 {
            self.freelist.last()
        } else {
            Entity { id: self.next_id as u32, generation: 1 }
        }
    }

    /// With the next handle used.
    pub open spec fn advanced(self) -> Self {
        if self.freelist.len() > 0 {
            WorldModel { freelist: self.freelist.drop_last(), ..self }
        } else {
            WorldModel { next_id: self.next_id + 1, ..self }
        }
    }

    /// How many of `count` handles that are used at once are used again.
    pub open spec fn recycling(self, count: nat) -> nat {
        if count <= self.freelist.len() {
            count
        } else {
            self.freelist.len()
        }
    }

    /// The handles of `count` entities that are created at once: those that became free last, in
    /// the order in which they did, and then new ones.
    pub open spec fn next_handles(self, count: nat) -> Seq<Entity> {
        let k = self.recycling(count);
        self.freelist.subrange(self.freelist.len() - k, self.freelist.len() as int) + fresh_entities(
            self.next_id,
            (count - k) as nat,
        )
    }

    /// With `count` handles used at once.
    pub open spec fn advanced_many(self, count: nat) -> Self {
        let k = self.recycling(count);
        WorldModel {
            freelist: self.freelist.subrange(0, self.freelist.len() - k),
            next_id: (self.next_id + count - k) as nat,
            ..self
        }
    }

    /// With `e` live and having these components.
    pub open spec fn with_entity(self, e: Entity, components: Map<TypeId, V>) -> Self {
        WorldModel { live: self.live.insert(e, components), ..self }
    }

    /// With a new entity that has these components.
    pub open spec fn spawned(self, components: Map<TypeId, V>) -> Self {
        self.advanced().with_entity(self.next_entity(), components).with_archetype(components.dom())
    }

    /// With a new entity for each of these sets of components, created one after the other.
    pub open spec fn spawned_all(self, list: Seq<Map<TypeId, V>>) -> Self
        decreases list.len(),
    {
        if list.len() == 0 {
            self
        } else {
            self.spawned_all(list.drop_last()).spawned(list.last())
        }
    }

    /// The handle of the entity that is created after `i` others.
    pub open spec fn nth_entity(self, i: int) -> Entity {
        if i < self.freelist.len() {
            self.freelist[self.freelist.len() - 1 - i]
        } else {
            Entity { id: (self.next_id + i - self.freelist.len()) as u32, generation: 1 }
        }
    }

    /// With each of `handles` live and having the components listed at the same position.
    pub open spec fn with_entities(self, handles: Seq<Entity>, list: Seq<Map<TypeId, V>>) -> Self
        decreases handles.len(),
    {
        if handles.len() == 0 {
            self
        } else {
            self.with_entities(handles.drop_last(), list.drop_last()).with_entity(handles.last(), list.last())
        }
    }

    /// With the ID of each of `handles` in use, whatever entities had it.
    pub open spec fn claimed_all(self, handles: Seq<Entity>) -> Self
        decreases handles.len(),
    {
        if handles.len() == 0 {
            self
        } else {
            self.claimed_all(handles.drop_last()).vacated(handles.last().id).claimed(handles.last())
        }
    }

    /// How many of `handles` have IDs that no live or reserved entity uses.
    pub open spec fn newcomers(self, handles: Seq<Entity>) -> nat
        decreases handles.len(),
    {
        if handles.len() == 0 {
            0
        } else {
            self.newcomers(handles.drop_last()) + if self.occupied(handles.last().id) {
                0nat
            } else {
                1nat
            }
        }
    }

    /// Whether a live or reserved entity uses the ID.
    pub open spec fn occupied(self, id: u32) -> bool {
        exists|e: Entity| #[trigger] self.contains(e) && e.id == id
    }

    /// Without the entity that uses the ID.
    pub open spec fn vacated(self, id: u32) -> Self {
        WorldModel { live: self.live.filter_keys(|e: Entity| e.id != id), ..self }
    }

    /// With the ID of `e` in use, and all IDs before it free if they were never used.
    pub open spec fn claimed(self, e: Entity) -> Self {
        if e.id >= self.next_id {
            WorldModel {
                freelist: self.freelist + fresh_entities(self.next_id, (e.id - self.next_id) as nat),
                next_id: (e.id + 1) as nat,
                ..self
            }
        } else if ids_of(self.freelist).contains(e.id) {
            WorldModel {
                freelist: swap_removed(self.freelist, ids_of(self.freelist).index_of(e.id)),
                ..self
            }
        } else {
            self
        }
    }

    /// With `e` live, in the place of whatever entity had its ID, and having these components.
    pub open spec fn spawned_at(self, e: Entity, components: Map<TypeId, V>) -> Self {
        self.vacated(e.id).claimed(e).with_entity(e, components).with_archetype(components.dom())
    }

    /// Without the live entity `e`, whose ID is free for an entity of the next generation.
    pub open spec fn despawned(self, e: Entity) -> Self {
        WorldModel {
            live: self.live.remove(e),
            freelist: self.freelist.push(
                Entity { id: e.id, generation: next_generation(e.generation) },
            ),
            ..self
        }
    }

    /// With the components of the live entity `e` replaced.
    pub open spec fn changed(self, e: Entity, components: Map<TypeId, V>) -> Self {
        self.with_entity(e, components).with_archetype(components.dom())
    }

    /// With more components of the live entity `e`; one of a type that it had before is replaced.
    pub open spec fn inserted(self, e: Entity, components: Map<TypeId, V>) -> Self {
        self.changed(e, self.live[e].union_prefer_right(components))
    }

    /// Without the components of the live entity `e` that have these types.
    pub open spec fn removed(self, e: Entity, types: Set<TypeId>) -> Self {
        self.changed(e, self.live[e].remove_keys(types))
    }

    /// Whether the IDs of `list`, each listed once, are those that no entity uses, up to the largest
    /// ID that is used or listed.
    pub open spec fn accepts_freelist(self, list: Seq<Entity>) -> bool {
        let ids = ids_of(list);
        &&& self.reserved == Set::<Entity>::empty()
        &&& ids.no_duplicates()
        &&& forall|i: int| 0 <= i < ids.len() ==> !self.uses(#[trigger] ids[i])
        &&& forall|x: u32, id: u32|
            id <= x && (#[trigger] self.uses(x) || ids.contains(x)) ==> #[trigger] self.uses(id) || ids.contains(id)
    }

    /// With other handles to be used again.
    pub open spec fn with_freelist(self, list: Seq<Entity>) -> Self {
        WorldModel { freelist: list, next_id: self.len() + list.len(), ..self }
    }

    /// Whether the archetypes hold the live entities, each in one row, and nothing else.
    pub open spec fn stored_in(self, archs: Seq<Archetype<V>>) -> bool {
        &&& archs.len() == self.archetypes.len()
        &&& forall|a: int|
            0 <= a < archs.len() ==> (#[trigger] archs[a]).wf() && archs[a].types_view().to_set() == self.archetypes[a]
        &&& forall|a: int, r: int|
            0 <= a < archs.len() && 0 <= r < (#[trigger] archs[a]).ids_view().len() ==> #[trigger] self.has_row(archs[a], r)
        &&& forall|e: Entity| #[trigger]
            self.live.contains_key(e) ==> exists|a: int, r: int|
                0 <= a < archs.len() && 0 <= r < archs[a].ids_view().len() && #[trigger] archs[a].ids_view()[r] == e.id
        &&& forall|a: int, r: int, b: int, q: int|
            #![trigger archs[a].ids_view()[r], archs[b].ids_view()[q]]
            0 <= a < archs.len() && 0 <= r < archs[a].ids_view().len() && 0 <= b < archs.len() && 0 <= q
                < archs[b].ids_view().len() && archs[a].ids_view()[r] == archs[b].ids_view()[q] ==> a == b && r == q
    }

    /// Whether a row is that of a live entity, with its components.
    pub open spec fn has_row(self, arch: Archetype<V>, r: int) -> bool {
        exists|e: Entity|
            {
                &&& #[trigger] self.live.contains_key(e)
                &&& e.id == arch.ids_view()[r]
                &&& self.live[e] == arch.components(r)
            }
    }

    /// Whether each live entity has one row, in the archetype of its component types, and each row is
    /// that of a live entity.
    pub open spec fn laid_out(self, layout: Seq<Seq<u32>>) -> bool {
        &&& layout.len() == self.archetypes.len()
        &&& forall|e: Entity| #[trigger]
            self.live.contains_key(e) ==> layout[self.archetypes.index_of(self.live[e].dom())].contains(e.id)
        &&& forall|a: int, r: int|
            0 <= a < layout.len() && 0 <= r < layout[a].len() ==> self.in_archetype(#[trigger] layout[a][r], a)
        &&& forall|a: int, r: int, b: int, q: int|
            #![trigger layout[a][r], layout[b][q]]
            0 <= a < layout.len() && 0 <= r < layout[a].len() && 0 <= b < layout.len() && 0 <= q < layout[b].len()
                && layout[a][r] == layout[b][q] ==> a == b && r == q
    }

    /// Whether the ID is that of a live entity with the component types of an archetype.
    pub open spec fn in_archetype(self, id: u32, a: int) -> bool {
        exists|e: Entity| #[trigger] self.live.contains_key(e) && e.id == id && self.live[e].dom() == self.archetypes[a]
    }

    /// The live entities that satisfy a query, with what it fetches from each.
    pub open spec fn matches(self, query: Query) -> Map<Entity, Seq<Option<V>>> {
        Map::new(
            |e: Entity| self.live.contains_key(e) && query.satisfied(self.live[e].dom()),
            |e: Entity| query.items(self.live[e]),
        )
    }

    /// Without any entity; all IDs count as never used.
    pub open spec fn cleared(self) -> Self {
        WorldModel {
            live: Map::empty(),
            reserved: Set::empty(),
            freelist: Seq::empty(),
            next_id: 0,
            ..self
        }
    }

    /// Every ID below `next_id` belongs to exactly one handle that is live, reserved or free, and
    /// the components of every live entity match an archetype.
    pub open spec fn wf(self) -> bool {
        &&& self.live.dom().finite()
        &&& self.reserved.finite()
        &&& self.next_id <= 0x1_0000_0000
        &&& self.len() + self.reserved.len() <= u32::MAX
        &&& forall|a: Entity, b: Entity|
            #[trigger] self.contains(a) && #[trigger] self.contains(b) && a.id == b.id ==> a == b
        &&& forall|e: Entity| #[trigger] self.live.contains_key(e) ==> !self.reserved.contains(e)
        &&& forall|e: Entity| #[trigger] self.contains(e) ==> e.id < self.next_id
        &&& forall|i: int| 0 <= i < self.freelist.len() ==> (#[trigger] self.freelist[i]).id < self.next_id
        &&& forall|i: int, j: int| 0 <= i < j < self.freelist.len() ==> self.freelist[i].id != self.freelist[j].id
        &&& forall|i: int, e: Entity|
            0 <= i < self.freelist.len() && #[trigger] self.contains(e) ==> (#[trigger] self.freelist[i]).id != e.id
        &&& forall|id: u32|
            id < self.next_id ==> #[trigger] ids_of(self.freelist).contains(id) || self.occupied(id)
        &&& 1 <= self.archetypes.len() <= u32::MAX
        &&& self.archetypes[0] == Set::<TypeId>::empty()
        &&& self.archetypes.no_duplicates()
        &&& forall|e: Entity| #[trigger] self.live.contains_key(e) ==> self.archetypes.contains(self.live[e].dom())
    }
}

/// All IDs that were ever used belong to live, reserved or free handles, so that the next new ID is
/// their number.
pub proof fn lemma_id_count<V>(m: WorldModel<V>)
    requires
        m.wf(),
    ensures
        m.next_id == m.len() + m.reserved.len() + m.freelist.len(),
{
    let number = |e: Entity| e.id as int;
    let live = m.live.dom().map(number);
    let reserved = m.reserved.map(number);
    let free = m.freelist.to_set().map(number);
    let all = set_int_range(0, m.next_id as int);
    assert(m.freelist.no_duplicates());
    m.freelist.unique_seq_to_set();
    seq_to_set_is_finite(m.freelist);
    assert(injective_on(number, m.live.dom())) by {
        assert forall|a: Entity, b: Entity|
            m.live.dom().contains(a) && m.live.dom().contains(b) && #[trigger] number(a) == #[trigger] number(b) implies a == b by {
            assert(m.contains(a) && m.contains(b));
        }
    }
    assert(injective_on(number, m.reserved)) by {
        assert forall|a: Entity, b: Entity|
            m.reserved.contains(a) && m.reserved.contains(b) && #[trigger] number(a) == #[trigger] number(b) implies a == b by {
            assert(m.contains(a) && m.contains(b));
        }
    }
    assert(injective_on(number, m.freelist.to_set())) by {
        assert forall|a: Entity, b: Entity|
            m.freelist.to_set().contains(a) && m.freelist.to_set().contains(b) && #[trigger] number(a) == #[trigger] number(b) implies a
            == b by {
            let i = choose|i: int| 0 <= i < m.freelist.len() && m.freelist[i] == a;
            let j = choose|j: int| 0 <= j < m.freelist.len() && m.freelist[j] == b;
        }
    }
    lemma_map_size(m.live.dom(), live, number);
    lemma_map_size(m.reserved, reserved, number);
    lemma_map_size(m.freelist.to_set(), free, number);
    assert(live.disjoint(reserved)) by {
        assert forall|n: int| live.contains(n) implies !reserved.contains(n) by {
            let a = choose|a: Entity| m.live.dom().contains(a) && number(a) == n;
            if reserved.contains(n) {
                let b = choose|b: Entity| m.reserved.contains(b) && number(b) == n;
                assert(m.contains(a) && m.contains(b));
                assert(m.live.contains_key(a));
            }
        }
    }
    assert(live.union(reserved).disjoint(free)) by {
        assert forall|n: int| live.union(reserved).contains(n) implies !free.contains(n) by {
            if free.contains(n) {
                let f = choose|f: Entity| m.freelist.to_set().contains(f) && number(f) == n;
                let i = choose|i: int| 0 <= i < m.freelist.len() && m.freelist[i] == f;
                if live.contains(n) {
                    let a = choose|a: Entity| m.live.dom().contains(a) && number(a) == n;
                    assert(m.contains(a));
                    assert(m.freelist[i].id != a.id);
                } else {
                    let b = choose|b: Entity| m.reserved.contains(b) && number(b) == n;
                    assert(m.contains(b));
                    assert(m.freelist[i].id != b.id);
                }
            }
        }
    }
    lemma_set_disjoint_lens(live, reserved);
    lemma_set_disjoint_lens(live.union(reserved), free);
    assert(live.union(reserved).union(free) =~= all) by {
        assert forall|n: int| live.union(reserved).union(free).contains(n) implies all.contains(n) by {
            if live.contains(n) {
                let a = choose|a: Entity| m.live.dom().contains(a) && number(a) == n;
                assert(m.contains(a));
            } else if reserved.contains(n) {
                let b = choose|b: Entity| m.reserved.contains(b) && number(b) == n;
                assert(m.contains(b));
            } else {
                let f = choose|f: Entity| m.freelist.to_set().contains(f) && number(f) == n;
                let i = choose|i: int| 0 <= i < m.freelist.len() && m.freelist[i] == f;
                assert(m.freelist[i].id < m.next_id);
            }
        }
        assert forall|n: int| all.contains(n) implies live.union(reserved).union(free).contains(n) by {
            let id = n as u32;
            if ids_of(m.freelist).contains(id) {
                let i = choose|i: int| 0 <= i < ids_of(m.freelist).len() && ids_of(m.freelist)[i] == id;
                assert(m.freelist.to_set().contains(m.freelist[i]));
                assert(number(m.freelist[i]) == n);
            } else {
                let e = choose|e: Entity| #[trigger] m.contains(e) && e.id == id;
                assert(number(e) == n);
                if m.live.contains_key(e) {
                    assert(m.live.dom().contains(e));
                }
            }
        }
    }
    lemma_int_range(0, m.next_id as int);
}

} // verus!

//! What holds of worlds as a whole, whatever they contain.
use vstd::prelude::*;

use crate::archetype_set::with_types;
use crate::entities::{ids_of, next_generation, Entity};
use crate::iter::enumerates;
use crate::model::{lemma_id_count, WorldModel};
use crate::query::Query;
use crate::types::{row_map, TypeId};
use crate::world::{lemma_claimed_all, lemma_none_missing, lemma_spawned_all, lemma_with_entities, removal};

pub mod batches;
pub mod changes;
pub mod contents;
pub mod places;
pub mod queries;
pub mod records;
pub mod sharing;

verus! {

/// The generation after `count` reuses of an ID.
pub open spec fn later_generation(generation: u32, count: nat) -> u32
    decreases count,
{
    if count == 0 {
        generation
    } else {
        next_generation(later_generation(generation, (count - 1) as nat))
    }
}

/// Generations are never zero, and follow each other in a circle of all other numbers.
proof fn lemma_later_generation(generation: u32, count: nat)
    requires
        generation >= 1,
    ensures
        later_generation(generation, count) >= 1,
        later_generation(generation, count) == (generation - 1 + count) % (u32::MAX as int) + 1,
    decreases count,
{
    let m = u32::MAX as int;
    if count == 0 {
        assert((generation - 1) % m == generation - 1) by (nonlinear_arith)
            requires
                0 <= generation - 1 < m,
        ;
    } else {
        lemma_later_generation(generation, (count - 1) as nat);
        let x = generation - 1 + count - 1;
        let r = x % m;
        if r + 1 == m {
            assert((x + 1) % m == 0) by (nonlinear_arith)
                requires
                    x >= 0,
                    m > 0,
                    x % m == m - 1,
            ;
        } else {
            assert((x + 1) % m == r + 1) by (nonlinear_arith)
                requires
                    x >= 0,
                    m > 0,
                    r == x % m,
                    r + 1 < m,
            ;
        }
    }
}

/// The handle of a despawned entity does not collide with a later one of the same ID until the ID
/// was reused billions of times: all generations but zero come first.
pub proof fn law_collisions_are_rare(generation: u32, count: nat)
    requires
        generation >= 1,
        0 < count < u32::MAX,
    ensures
        later_generation(generation, count) != generation,
        later_generation(generation, u32::MAX as nat) == generation,
{
    let m = u32::MAX as int;
    let g = generation - 1;
    lemma_later_generation(generation, count);
    lemma_later_generation(generation, u32::MAX as nat);
    assert((g + count) % m != g) by (nonlinear_arith)
        requires
            0 <= g < m,
            0 < count < m,
    ;
    assert((g + m) % m == g) by (nonlinear_arith)
        requires
            0 <= g < m,
    ;
}

/// Creating the reserved entities changes neither which entities exist nor their components, and
/// there is nothing left to create afterwards.
pub proof fn law_flush<V>(m: WorldModel<V>)
    ensures
        forall|e: Entity| #[trigger] m.flushed().contains(e) <==> m.contains(e),
        m.wf() ==> forall|e: Entity| #[trigger] m.flushed().components(e) == m.components(e),
        m.flushed().flushed() == m.flushed(),
        forall|e: Entity| #[trigger] m.reserved.contains(e) ==> m.flushed().live.contains_key(e) && m.flushed().live[e]
            == Map::<TypeId, V>::empty(),
        m.flushed().next_entity() == m.next_entity(),
{
    if m.wf() {
        assert forall|e: Entity| #[trigger] m.flushed().components(e) == m.components(e) by {
            if m.live.contains_key(e) {
                assert(!m.reserved.contains(e));
            }
        }
    }
    assert(m.flushed().flushed().live =~= m.flushed().live);
    assert(m.flushed().flushed().reserved =~= m.flushed().reserved);
}

/// A new entity has a handle that no entity had, and exactly the components it was given; all other
/// entities stay as they were.
pub proof fn law_spawn<V>(m: WorldModel<V>, components: Map<TypeId, V>)
    requires
        m.wf(),
        m.has_room(1),
    ensures
        ({
            let e = m.next_entity();
            let after = m.flushed().spawned(components);
            &&& !m.contains(e)
            &&& !m.occupied(e.id)
            &&& after.live.contains_key(e)
            &&& after.live[e] == components
            &&& after.len() == m.len() + m.reserved.len() + 1
            &&& forall|x: Entity| x != e ==> (#[trigger] after.contains(x) <==> m.contains(x)) && after.components(x) == m.components(x)
        }),
{
    let e = m.next_entity();
    let after = m.flushed().spawned(components);
    law_flush(m);
    lemma_id_count(m);
    assert(!m.occupied(e.id)) by {
        if m.occupied(e.id) {
            let x = choose|x: Entity| #[trigger] m.contains(x) && x.id == e.id;
            if m.freelist.len() > 0 {
                assert(m.freelist[m.freelist.len() - 1].id != x.id);
            } else {
                assert(x.id < m.next_id);
            }
        }
    }
    lemma_flushed_len(m);
    assert(!m.flushed().contains(e));
    assert(after.live.dom() =~= m.flushed().live.dom().insert(e));
    assert forall|x: Entity| x != e implies (#[trigger] after.contains(x) <==> m.contains(x)) && after.components(x) == m.components(x) by {
        assert(m.flushed().contains(x) <==> m.contains(x));
        assert(m.flushed().components(x) == m.components(x));
    }
}

/// Creating the reserved entities makes them count.
proof fn lemma_flushed_len<V>(m: WorldModel<V>)
    requires
        m.wf(),
    ensures
        m.flushed().live.dom().finite(),
        m.flushed().len() == m.len() + m.reserved.len(),
{
    assert(m.flushed().live.dom() =~= m.live.dom().union(m.reserved));
    assert(m.live.dom().disjoint(m.reserved)) by {
        assert forall|e: Entity| m.live.dom().contains(e) implies !m.reserved.contains(e) by {
            assert(m.live.contains_key(e));
        }
    }
    vstd::set_lib::lemma_set_disjoint_lens(m.live.dom(), m.reserved);
}

/// A despawned entity is gone, and nothing else is. Its ID is used again by the next entity that is
/// created, under another handle, so that the old handle stays invalid.
pub proof fn law_despawn<V>(m: WorldModel<V>, e: Entity, components: Map<TypeId, V>)
    requires
        m.wf(),
        m.contains(e),
    ensures
        ({
            let after = m.flushed().despawned(e);
            let next = after.next_entity();
            &&& !after.contains(e)
            &&& after.len() + 1 == m.len() + m.reserved.len()
            &&& forall|x: Entity| x != e ==> (#[trigger] after.contains(x) <==> m.contains(x)) && after.components(x) == m.components(x)
            &&& next.id == e.id
            &&& next.generation == next_generation(e.generation)
            &&& next != e
            &&& !after.spawned(components).contains(e)
            &&& after.spawned(components).contains(next)
        }),
{
    let after = m.flushed().despawned(e);
    law_flush(m);
    lemma_flushed_len(m);
    assert(m.flushed().live.contains_key(e));
    assert(after.live.dom() =~= m.flushed().live.dom().remove(e));
    assert forall|x: Entity| x != e implies (#[trigger] after.contains(x) <==> m.contains(x)) && after.components(x) == m.components(x) by {
        assert(m.flushed().contains(x) <==> m.contains(x));
        assert(m.flushed().components(x) == m.components(x));
    }
    assert(after.freelist.last() == (Entity { id: e.id, generation: next_generation(e.generation) }));
}

/// After an entity is created at a handle, the handle is valid, any other entity that had its ID is
/// gone, and all other entities stay as they were.
pub proof fn law_spawn_at<V>(m: WorldModel<V>, e: Entity, components: Map<TypeId, V>)
    requires
        m.wf(),
    ensures
        ({
            let after = m.flushed().spawned_at(e, components);
            &&& after.live.contains_key(e)
            &&& after.live[e] == components
            &&& forall|x: Entity| x.id == e.id && x != e ==> !(#[trigger] after.contains(x))
            &&& forall|x: Entity| x.id != e.id ==> (#[trigger] after.contains(x) <==> m.contains(x)) && after.components(x)
                == m.components(x)
        }),
{
    let after = m.flushed().spawned_at(e, components);
    law_flush(m);
    assert forall|x: Entity| x.id != e.id implies (#[trigger] after.contains(x) <==> m.contains(x)) && after.components(x)
        == m.components(x) by {
        assert(m.flushed().contains(x) <==> m.contains(x));
        assert(m.flushed().components(x) == m.components(x));
    }
}

/// A handle can be brought back: despawning an entity and creating one at its handle leaves the
/// handle valid, with the components it was given last, and all other entities as they were.
pub proof fn law_resurrection<V>(m: WorldModel<V>, e: Entity, components: Map<TypeId, V>)
    requires
        m.wf(),
        m.contains(e),
    ensures
        m.flushed().despawned(e).spawned_at(e, components).live == m.flushed().live.insert(e, components),
{
    let gone = m.flushed().despawned(e);
    law_flush(m);
    assert(m.flushed().live.contains_key(e));
    assert(gone.vacated(e.id).live =~= gone.live) by {
        assert forall|x: Entity| #[trigger] gone.live.contains_key(x) implies x.id != e.id by {
            assert(m.contains(x));
        }
    }
    assert(gone.spawned_at(e, components).live =~= m.flushed().live.insert(e, components));
}

/// Clearing a world makes handles repeat: they are given out as in a world that never held an entity.
pub proof fn law_clear_repeats<V>(m: WorldModel<V>, i: int, count: nat)
    ensures
        m.cleared().len() == 0,
        m.cleared().nth_entity(i) == WorldModel::<V>::empty(m.id).nth_entity(i),
        m.cleared().next_handles(count) == WorldModel::<V>::empty(m.id).next_handles(count),
        forall|e: Entity| !(#[trigger] m.cleared().contains(e)),
{
}

/// The free handles are yielded by future spawns, the last one first, and then new ones in order.
pub proof fn law_freelist_yields<V>(m: WorldModel<V>, list: Seq<Map<TypeId, V>>, i: int)
    requires
        0 <= i <= list.len(),
    ensures
        m.spawned_all(list.take(i)).next_entity() == m.nth_entity(i),
        i < m.freelist.len() ==> m.nth_entity(i) == m.freelist[m.freelist.len() - 1 - i],
        i >= m.freelist.len() ==> m.nth_entity(i) == (Entity {
            id: (m.next_id + i - m.freelist.len()) as u32,
            generation: 1,
        }),
{
    lemma_spawned_all(m, list.take(i));
}

/// Worlds with the same live entities and the same free handles give out the same handles.
pub proof fn law_deterministic<V, W>(m: WorldModel<V>, n: WorldModel<W>, i: int, count: nat)
    requires
        m.wf(),
        n.wf(),
        m.reserved == Set::<Entity>::empty(),
        n.reserved == Set::<Entity>::empty(),
        m.live.dom() == n.live.dom(),
        m.freelist == n.freelist,
    ensures
        m.next_id == n.next_id,
        m.nth_entity(i) == n.nth_entity(i),
        m.next_handles(count) == n.next_handles(count),
{
    lemma_id_count(m);
    lemma_id_count(n);
}

/// The free handles of a world suit every world with the same live entities, and then both give out
/// the same handles.
pub proof fn law_freelist_transfer<V, W>(m: WorldModel<V>, n: WorldModel<W>, i: int, count: nat)
    requires
        m.wf(),
        m.reserved == Set::<Entity>::empty(),
        n.reserved == Set::<Entity>::empty(),
        m.live.dom() == n.live.dom(),
    ensures
        n.accepts_freelist(m.freelist),
        n.with_freelist(m.freelist).next_id == m.next_id,
        n.with_freelist(m.freelist).nth_entity(i) == m.nth_entity(i),
        n.with_freelist(m.freelist).next_handles(count) == m.next_handles(count),
{
    lemma_freelist_accepted(m, n);
}

/// Whether free handles suit a world depends on its live entities alone.
proof fn lemma_freelist_accepted<V, W>(m: WorldModel<V>, n: WorldModel<W>)
    requires
        m.wf(),
        m.reserved == Set::<Entity>::empty(),
        n.reserved == Set::<Entity>::empty(),
        m.live.dom() == n.live.dom(),
    ensures
        n.accepts_freelist(m.freelist),
        n.with_freelist(m.freelist).next_id == m.next_id,
{
    let ids = ids_of(m.freelist);
    lemma_id_count(m);
    assert forall|id: u32| #[trigger] n.uses(id) <==> m.uses(id) by {
        if m.uses(id) {
            let e = choose|e: Entity| #[trigger] m.live.contains_key(e) && e.id == id;
            assert(n.live.dom().contains(e));
            assert(n.live.contains_key(e));
        }
        if n.uses(id) {
            let e = choose|e: Entity| #[trigger] n.live.contains_key(e) && e.id == id;
            assert(m.live.dom().contains(e));
            assert(m.live.contains_key(e));
        }
    }
    assert(ids.no_duplicates()) by {
        assert forall|i: int, j: int| 0 <= i < ids.len() && 0 <= j < ids.len() && i != j implies ids[i] != ids[j] by {
            if i < j {
                assert(m.freelist[i].id != m.freelist[j].id);
            } else {
                assert(m.freelist[j].id != m.freelist[i].id);
            }
        }
    }
    assert forall|i: int| 0 <= i < ids.len() implies !n.uses(#[trigger] ids[i]) by {
        if m.uses(ids[i]) {
            let e = choose|e: Entity| #[trigger] m.live.contains_key(e) && e.id == ids[i];
            assert(m.contains(e));
            assert(m.freelist[i].id != e.id);
        }
    }
    assert forall|x: u32, id: u32|
        id <= x && (#[trigger] n.uses(x) || ids.contains(x)) implies #[trigger] n.uses(id) || ids.contains(id) by {
        assert(x < m.next_id) by {
            if ids.contains(x) {
                let i = choose|i: int| 0 <= i < ids.len() && ids[i] == x;
                assert(m.freelist[i].id < m.next_id);
            } else {
                let e = choose|e: Entity| #[trigger] m.live.contains_key(e) && e.id == x;
                assert(m.contains(e));
            }
        }
        if !ids.contains(id) {
            assert(m.occupied(id));
            let e = choose|e: Entity| #[trigger] m.contains(e) && e.id == id;
            assert(m.live.contains_key(e));
            assert(m.uses(id));
        }
    }
}

/// Inserted components are read back, components of other types are kept, and other entities stay
/// as they were.
pub proof fn law_insert<V>(m: WorldModel<V>, e: Entity, components: Map<TypeId, V>)
    requires
        m.wf(),
        m.contains(e),
    ensures
        ({
            let after = m.flushed().inserted(e, components);
            &&& after.live.contains_key(e)
            &&& after.live[e].dom() == m.components(e).dom().union(components.dom())
            &&& forall|ty: TypeId| #[trigger] components.contains_key(ty) ==> after.live[e][ty] == components[ty]
            &&& forall|ty: TypeId| #[trigger]
                m.components(e).contains_key(ty) && !components.contains_key(ty) ==> after.live[e][ty] == m.components(e)[ty]
            &&& forall|x: Entity| x != e ==> (#[trigger] after.contains(x) <==> m.contains(x)) && after.components(x) == m.components(x)
            &&& after.freelist == m.freelist
            &&& after.next_id == m.next_id
        }),
{
    let after = m.flushed().inserted(e, components);
    law_flush(m);
    assert(m.flushed().components(e) == m.components(e));
    assert(m.flushed().contains(e));
    assert(after.live[e].dom() =~= m.components(e).dom().union(components.dom()));
    assert forall|x: Entity| x != e implies (#[trigger] after.contains(x) <==> m.contains(x)) && after.components(x) == m.components(x) by {
        assert(m.flushed().contains(x) <==> m.contains(x));
        assert(m.flushed().components(x) == m.components(x));
    }
}

/// Removing components takes exactly them away. The entity itself is not removed, even if no
/// components remain, and other entities stay as they were.
pub proof fn law_remove<V>(m: WorldModel<V>, e: Entity, types: Set<TypeId>)
    requires
        m.wf(),
        m.contains(e),
    ensures
        ({
            let after = m.flushed().removed(e, types);
            &&& after.live.contains_key(e)
            &&& after.live[e].dom() == m.components(e).dom().difference(types)
            &&& forall|ty: TypeId| #[trigger] after.live[e].contains_key(ty) ==> after.live[e][ty] == m.components(e)[ty]
            &&& forall|x: Entity| x != e ==> (#[trigger] after.contains(x) <==> m.contains(x)) && after.components(x) == m.components(x)
            &&& after.freelist == m.freelist
            &&& after.next_id == m.next_id
        }),
{
    let after = m.flushed().removed(e, types);
    law_flush(m);
    assert(m.flushed().components(e) == m.components(e));
    assert(m.flushed().contains(e));
    assert(after.live[e].dom() =~= m.components(e).dom().difference(types));
    assert forall|x: Entity| x != e implies (#[trigger] after.contains(x) <==> m.contains(x)) && after.components(x) == m.components(x) by {
        assert(m.flushed().contains(x) <==> m.contains(x));
        assert(m.flushed().components(x) == m.components(x));
    }
}

/// Removing what was inserted brings back the entities as they were, if the entity had no
/// components of those types before.
pub proof fn law_remove_undoes_insert<V>(m: WorldModel<V>, e: Entity, components: Map<TypeId, V>)
    requires
        m.wf(),
        m.contains(e),
        m.components(e).dom().disjoint(components.dom()),
    ensures
        ({
            let inserted = m.flushed().inserted(e, components);
            let back = inserted.flushed().removed(e, components.dom());
            &&& inserted.contains(e)
            &&& inserted.can_hold(inserted.components(e).dom().difference(components.dom()))
            &&& back == (WorldModel { archetypes: inserted.archetypes, ..m.flushed() })
            &&& forall|x: Entity| #[trigger] back.contains(x) <==> m.contains(x)
            &&& forall|x: Entity| #[trigger] back.components(x) == m.components(x)
        }),
{
    let old = m.components(e);
    let inserted = m.flushed().inserted(e, components);
    let back = inserted.flushed().removed(e, components.dom());
    law_flush(m);
    assert(m.flushed().contains(e));
    assert(m.flushed().components(e) == old);
    assert(m.flushed().live[e] == old);
    assert(inserted.flushed() =~= inserted);
    assert(inserted.live[e] == old.union_prefer_right(components));
    assert(inserted.live[e].remove_keys(components.dom()) =~= old);
    assert(inserted.components(e).dom().difference(components.dom()) =~= old.dom());
    law_archetypes_generation(m, old.union_prefer_right(components).dom());
    assert(inserted.archetypes.contains(old.dom())) by {
        assert(m.archetypes.contains(old.dom())) by {
            if !m.live.contains_key(e) {
                assert(old.dom() =~= m.archetypes[0]);
            }
        }
        let a = m.archetypes.index_of(old.dom());
        assert(inserted.archetypes.take(m.archetypes.len() as int)[a] == old.dom());
        assert(inserted.archetypes[a] == old.dom());
    }
    assert(back.live =~= m.flushed().live);
    assert(back =~= (WorldModel { archetypes: inserted.archetypes, ..m.flushed() }));
    assert forall|x: Entity| #[trigger] back.contains(x) <==> m.contains(x) by {
        assert(m.flushed().contains(x) <==> m.contains(x));
    }
    assert forall|x: Entity| #[trigger] back.components(x) == m.components(x) by {
        assert(m.flushed().components(x) == m.components(x));
    }
}

/// Inserting what a removal returned brings back every entity and its components as they were. It can
/// always be done: the archetype that the entity came from is still there, so that none is added.
pub proof fn law_insert_undoes_remove<V>(m: WorldModel<V>, e: Entity, fields: Seq<TypeId>)
    requires
        m.wf(),
        fields.no_duplicates(),
        removal(m, e, fields) is Ok,
    ensures
        ({
            let removed = m.flushed().removed(e, fields.to_set());
            let returned = row_map(fields, removal(m, e, fields)->Ok_0);
            let back = removed.flushed().inserted(e, returned);
            &&& removed.contains(e)
            &&& removed.can_hold(removed.components(e).dom().union(returned.dom()))
            &&& back == (WorldModel { archetypes: removed.archetypes, ..m.flushed() })
            &&& forall|x: Entity| #[trigger] back.contains(x) <==> m.contains(x)
            &&& forall|x: Entity| #[trigger] back.components(x) == m.components(x)
        }),
{
    let types = fields.to_set();
    let old = m.components(e);
    let removed = m.flushed().removed(e, types);
    let values = removal(m, e, fields)->Ok_0;
    let returned = row_map(fields, values);
    let back = removed.flushed().inserted(e, returned);
    law_flush(m);
    lemma_none_missing(fields, old.dom());
    assert(m.flushed().contains(e));
    assert(m.flushed().components(e) == old);
    assert(m.flushed().live[e] == old);
    assert(returned =~= old.restrict(types)) by {
        assert forall|ty: TypeId| #[trigger] returned.contains_key(ty) <==> old.restrict(types).contains_key(ty) by {
            assert(fields.contains(ty) <==> types.contains(ty));
        }
        assert forall|ty: TypeId| #[trigger] returned.contains_key(ty) implies returned[ty] == old[ty] by {
            assert(values[fields.index_of(ty)] == old[fields[fields.index_of(ty)]]);
        }
    }
    assert(removed.flushed() =~= removed);
    assert(removed.live[e] == old.remove_keys(types));
    assert(old.remove_keys(types).union_prefer_right(returned) =~= old);
    assert(removed.components(e).dom().union(returned.dom()) =~= old.dom());
    law_archetypes_generation(m, old.remove_keys(types).dom());
    assert(removed.archetypes.contains(old.dom())) by {
        assert(m.archetypes.contains(old.dom())) by {
            if !m.live.contains_key(e) {
                assert(old.dom() =~= m.archetypes[0]);
            }
        }
        let a = m.archetypes.index_of(old.dom());
        assert(removed.archetypes.take(m.archetypes.len() as int)[a] == old.dom());
        assert(removed.archetypes[a] == old.dom());
    }
    assert(back.live =~= m.flushed().live);
    assert(back =~= (WorldModel { archetypes: removed.archetypes, ..m.flushed() }));
    assert forall|x: Entity| #[trigger] back.contains(x) <==> m.contains(x) by {
        assert(m.flushed().contains(x) <==> m.contains(x));
    }
    assert forall|x: Entity| #[trigger] back.components(x) == m.components(x) by {
        assert(m.flushed().components(x) == m.components(x));
    }
}

/// Components that are taken from one world and given to a new entity of another are the same there.
pub proof fn law_move_between_worlds<V>(from: WorldModel<V>, to: WorldModel<V>, e: Entity)
    requires
        from.wf(),
        to.wf(),
        from.contains(e),
        to.has_room(1),
    ensures
        ({
            let components = from.components(e);
            let moved = to.flushed().spawned(components);
            &&& !from.flushed().despawned(e).contains(e)
            &&& moved.components(to.next_entity()) == from.components(e)
        }),
{
    law_despawn(from, e, from.components(e));
    law_spawn(to, from.components(e));
}

/// The number of archetypes tells whether archetypes were added: none ever changes its types or its
/// place.
pub proof fn law_archetypes_generation<V>(m: WorldModel<V>, types: Set<TypeId>)
    ensures
        ({
            let after = m.with_archetype(types);
            &&& after.archetypes.contains(types)
            &&& m.archetypes.len() <= after.archetypes.len()
            &&& after.archetypes.take(m.archetypes.len() as int) == m.archetypes
            &&& after.archetypes.len() == m.archetypes.len() <==> after.archetypes == m.archetypes
        }),
{
    let after = m.with_archetype(types);
    if !m.archetypes.contains(types) {
        assert(after.archetypes[m.archetypes.len() as int] == types);
    }
    assert(after.archetypes.take(m.archetypes.len() as int) =~= m.archetypes);
}

/// Handles that are given out for entities yet to be created belong to no entity, and are not given
/// out again. The entities exist from then on, without components, but no query and no iteration
/// over the world meets them.
pub proof fn law_reserve<V>(m: WorldModel<V>, query: Query)
    requires
        m.wf(),
        m.has_room(1),
    ensures
        ({
            let e = m.next_entity();
            let after = WorldModel { reserved: m.reserved.insert(e), ..m.advanced() };
            &&& !m.contains(e)
            &&& after.contains(e)
            &&& after.components(e) == Map::<TypeId, V>::empty()
            &&& after.has_room(1) ==> after.next_entity() != e
            &&& after.matches(query) == m.matches(query)
            &&& after.live == m.live
            &&& after.flushed().live.contains_key(e)
        }),
{
    let e = m.next_entity();
    let after = WorldModel { reserved: m.reserved.insert(e), ..m.advanced() };
    law_spawn(m, Map::empty());
    lemma_id_count(m);
    if m.freelist.len() > 1 {
        let n = m.freelist.len() as int;
        assert(m.freelist[n - 2].id != m.freelist[n - 1].id);
        assert(after.next_entity() == m.freelist[n - 2]);
    } else if m.freelist.len() == 1 {
        assert(m.freelist[0].id < m.next_id);
    }
    assert(after.matches(query) =~= m.matches(query));
}

/// The handles that entities are given one after the other belong to no entity yet, and are all
/// different.
proof fn lemma_nth_entities<V>(m: WorldModel<V>, count: nat)
    requires
        m.wf(),
        m.has_room(count),
    ensures
        forall|i: int| 0 <= i < count ==> !m.contains(#[trigger] m.nth_entity(i)),
        forall|i: int, j: int| 0 <= i < j < count ==> #[trigger] m.nth_entity(i) != #[trigger] m.nth_entity(j),
{
    lemma_id_count(m);
    let f = m.freelist.len() as int;
    assert forall|i: int| 0 <= i < count implies !m.contains(#[trigger] m.nth_entity(i)) by {
        let e = m.nth_entity(i);
        if m.contains(e) {
            if i < f {
                assert(m.freelist[f - 1 - i].id != e.id);
            } else {
                assert(e.id < m.next_id);
            }
        }
    }
    assert forall|i: int, j: int| 0 <= i < j < count implies #[trigger] m.nth_entity(i) != #[trigger] m.nth_entity(j) by {
        if j < f {
            assert(m.freelist[f - 1 - j].id != m.freelist[f - 1 - i].id);
        } else if i < f {
            assert(m.freelist[f - 1 - i].id < m.next_id);
        }
    }
}

/// What is live after entities are created one after the other.
proof fn lemma_spawned_all_live<V>(m: WorldModel<V>, rows: Seq<Map<TypeId, V>>)
    ensures
        m.spawned_all(rows) == (WorldModel {
            live: m.with_entities(Seq::new(rows.len(), |i: int| m.nth_entity(i)), rows).live,
            ..m.spawned_all(rows)
        }),
    decreases rows.len(),
{
    let handles = Seq::new(rows.len(), |i: int| m.nth_entity(i));
    if rows.len() > 0 {
        let fewer = rows.drop_last();
        lemma_spawned_all_live(m, fewer);
        lemma_spawned_all(m, fewer);
        assert(handles.drop_last() =~= Seq::new(fewer.len(), |i: int| m.nth_entity(i)));
    }
}

/// Every entity of a batch is created, whether or not its handle is ever taken from the iterator that
/// the batch returns: after `taken` handles were, those left to be taken are those of the other rows,
/// in order. The handle at a position is that of the row at the same position; the handles are all
/// different and belonged to no entity, and all other entities stay as they were.
pub proof fn law_batch_creates_all<V>(m: WorldModel<V>, types: Set<TypeId>, rows: Seq<Map<TypeId, V>>, taken: nat)
    requires
        m.wf(),
        m.has_room(rows.len()),
        taken <= rows.len(),
    ensures
        ({
            let handles = Seq::new(rows.len(), |i: int| m.nth_entity(i));
            let left = handles.skip(taken as int);
            let after = m.flushed().with_archetype(types).spawned_all(rows);
            &&& after.len() == m.len() + m.reserved.len() + rows.len()
            &&& handles.no_duplicates()
            &&& forall|i: int|
                0 <= i < rows.len() ==> {
                    &&& !m.contains(#[trigger] handles[i])
                    &&& after.live.contains_key(handles[i])
                    &&& after.live[handles[i]] == rows[i]
                }
            &&& left.len() == rows.len() - taken
            &&& forall|i: int| 0 <= i < left.len() ==> after.live.contains_key(#[trigger] left[i]) && after.live[left[i]] == rows[taken + i]
            &&& forall|x: Entity|
                !handles.contains(x) ==> (#[trigger] after.contains(x) <==> m.contains(x)) && after.components(x) == m.components(x)
        }),
{
    let base = m.flushed().with_archetype(types);
    let handles = Seq::new(rows.len(), |i: int| m.nth_entity(i));
    let after = base.spawned_all(rows);
    law_flush(m);
    lemma_flushed_len(m);
    lemma_nth_entities(m, rows.len());
    lemma_spawned_all_live(base, rows);
    assert(handles =~= Seq::new(rows.len(), |i: int| base.nth_entity(i)));
    lemma_spawned_all(base, rows);
    lemma_created(m, base, after, handles, rows);
}

/// Every entity of a column batch is created, as `law_batch_creates_all` says of other batches.
pub proof fn law_column_batch_creates_all<V>(m: WorldModel<V>, types: Set<TypeId>, rows: Seq<Map<TypeId, V>>, taken: nat)
    requires
        m.wf(),
        m.has_room(rows.len()),
        taken <= rows.len(),
    ensures
        ({
            let handles = m.next_handles(rows.len());
            let left = handles.skip(taken as int);
            let after = m.flushed().advanced_many(rows.len()).with_entities(handles, rows).with_archetype(types);
            &&& after.len() == m.len() + m.reserved.len() + rows.len()
            &&& handles.len() == rows.len()
            &&& handles.no_duplicates()
            &&& forall|i: int|
                0 <= i < rows.len() ==> {
                    &&& !m.contains(#[trigger] handles[i])
                    &&& after.live.contains_key(handles[i])
                    &&& after.live[handles[i]] == rows[i]
                }
            &&& left.len() == rows.len() - taken
            &&& forall|i: int| 0 <= i < left.len() ==> after.live.contains_key(#[trigger] left[i]) && after.live[left[i]] == rows[taken + i]
            &&& forall|x: Entity|
                !handles.contains(x) ==> (#[trigger] after.contains(x) <==> m.contains(x)) && after.components(x) == m.components(x)
        }),
{
    let n = rows.len();
    let k = m.recycling(n) as int;
    let handles = m.next_handles(n);
    let base = m.flushed().advanced_many(n);
    let after = base.with_entities(handles, rows).with_archetype(types);
    law_flush(m);
    lemma_flushed_len(m);
    lemma_nth_entities(m, n);
    assert forall|i: int| 0 <= i < n implies #[trigger] handles[i] == m.nth_entity(if i < k { k - 1 - i } else { i }) by {}
    assert forall|i: int, j: int| 0 <= i < n && 0 <= j < n && i != j implies handles[i] != handles[j] by {
        let p = if i < k { k - 1 - i } else { i };
        let q = if j < k { k - 1 - j } else { j };
        if p < q {
            assert(m.nth_entity(p) != m.nth_entity(q));
        } else {
            assert(m.nth_entity(q) != m.nth_entity(p));
        }
    }
    lemma_with_entities(base, handles, rows);
    lemma_created(m, base, after, handles, rows);
}

/// What is there once some handles that belonged to no entity have their components.
proof fn lemma_created<V>(
    m: WorldModel<V>,
    base: WorldModel<V>,
    after: WorldModel<V>,
    handles: Seq<Entity>,
    rows: Seq<Map<TypeId, V>>,
)
    requires
        m.wf(),
        base.live == m.flushed().live,
        base.reserved == Set::<Entity>::empty(),
        after.live == base.with_entities(handles, rows).live,
        after.reserved == Set::<Entity>::empty(),
        handles.no_duplicates(),
        handles.len() == rows.len(),
        forall|i: int| 0 <= i < handles.len() ==> !m.contains(#[trigger] handles[i]),
    ensures
        after.len() == m.len() + m.reserved.len() + rows.len(),
        forall|i: int|
            0 <= i < rows.len() ==> after.live.contains_key(#[trigger] handles[i]) && after.live[handles[i]] == rows[i],
        forall|x: Entity|
            !handles.contains(x) ==> (#[trigger] after.contains(x) <==> m.contains(x)) && after.components(x) == m.components(x),
{
    law_flush(m);
    lemma_flushed_len(m);
    lemma_with_entities(base, handles, rows);
    assert forall|i: int| 0 <= i < handles.len() implies after.live.contains_key(#[trigger] handles[i]) by {
        assert(handles.to_set().contains(handles[i]));
        assert(after.live.dom().contains(handles[i]));
    }
    handles.unique_seq_to_set();
    vstd::seq_lib::seq_to_set_is_finite(handles);
    assert(base.live.dom().disjoint(handles.to_set())) by {
        assert forall|x: Entity| base.live.dom().contains(x) implies !handles.to_set().contains(x) by {
            if handles.contains(x) {
                let i = choose|i: int| 0 <= i < handles.len() && handles[i] == x;
                assert(!m.contains(handles[i]));
                assert(m.flushed().contains(x));
            }
        }
    }
    vstd::set_lib::lemma_set_disjoint_lens(base.live.dom(), handles.to_set());
    assert forall|x: Entity| !handles.contains(x) implies (#[trigger] after.contains(x) <==> m.contains(x)) && after.components(x)
        == m.components(x) by {
        assert(m.flushed().contains(x) <==> m.contains(x));
        assert(m.flushed().components(x) == m.components(x));
        assert(after.live.dom().contains(x) <==> base.live.dom().contains(x));
    }
}

/// What a batch creates is what creating its entities one after the other does.
pub proof fn law_batch_is_repeated_spawn<V>(m: WorldModel<V>, types: Set<TypeId>, rows: Seq<Map<TypeId, V>>)
    requires
        rows.len() > 0,
        forall|i: int| 0 <= i < rows.len() ==> (#[trigger] rows[i]).dom() == types,
    ensures
        m.with_archetype(types).spawned_all(rows) == m.spawned_all(rows),
    decreases rows.len(),
{
    let fewer = rows.drop_last();
    assert(rows[rows.len() - 1].dom() == types);
    if fewer.len() == 0 {
        assert(m.with_archetype(types).spawned_all(fewer) == m.with_archetype(types));
        assert(m.spawned_all(fewer) == m);
        law_archetypes_generation(m, types);
        assert(with_types(with_types(m.archetypes, types), types) == with_types(m.archetypes, types));
        assert(m.with_archetype(types).spawned_all(rows) =~= m.spawned_all(rows));
    } else {
        assert forall|i: int| 0 <= i < fewer.len() implies (#[trigger] fewer[i]).dom() == types by {
            assert(rows[i] == fewer[i]);
        }
        law_batch_is_repeated_spawn(m, types, fewer);
    }
}

/// Creating entities at some handles, one after the other.
pub open spec fn spawned_at_each<V>(m: WorldModel<V>, handles: Seq<Entity>, rows: Seq<Map<TypeId, V>>) -> WorldModel<V>
    decreases handles.len(),
{
    if handles.len() == 0 {
        m
    } else {
        spawned_at_each(m, handles.drop_last(), rows.drop_last()).spawned_at(handles.last(), rows.last())
    }
}

/// Creating a batch at some handles is what creating its entities at these handles one after the
/// other does.
pub proof fn law_column_batch_at_is_repeated_spawn_at<V>(
    m: WorldModel<V>,
    types: Set<TypeId>,
    handles: Seq<Entity>,
    rows: Seq<Map<TypeId, V>>,
)
    requires
        handles.len() > 0,
        rows.len() == handles.len(),
        ids_of(handles).no_duplicates(),
        forall|i: int| 0 <= i < rows.len() ==> (#[trigger] rows[i]).dom() == types,
    ensures
        m.claimed_all(handles).with_entities(handles, rows).with_archetype(types) == spawned_at_each(m, handles, rows),
    decreases handles.len(),
{
    let fewer = handles.drop_last();
    let less = rows.drop_last();
    let e = handles.last();
    let c = rows.last();
    assert(rows[rows.len() - 1].dom() == types);
    assert forall|i: int, j: int| 0 <= i < fewer.len() && 0 <= j < fewer.len() && i != j implies ids_of(fewer)[i] != ids_of(fewer)[j] by {
        assert(ids_of(handles)[i] != ids_of(handles)[j]);
    }
    assert forall|i: int| 0 <= i < fewer.len() implies (#[trigger] fewer[i]).id != e.id by {
        assert(ids_of(handles)[i] != ids_of(handles)[handles.len() - 1]);
    }
    assert(fewer.no_duplicates()) by {
        assert forall|i: int, j: int| 0 <= i < fewer.len() && 0 <= j < fewer.len() && i != j implies fewer[i] != fewer[j] by {
            assert(ids_of(fewer)[i] != ids_of(fewer)[j]);
        }
    }
    let claimed = m.claimed_all(fewer);
    let batch = m.claimed_all(handles).with_entities(handles, rows);
    assert(m.claimed_all(handles) == claimed.vacated(e.id).claimed(e));
    lemma_with_entities(claimed, fewer, less);
    lemma_with_entities(claimed.vacated(e.id).claimed(e), fewer, less);
    let before = claimed.with_entities(fewer, less);
    let middle = claimed.vacated(e.id).claimed(e).with_entities(fewer, less);
    assert(middle.live =~= before.vacated(e.id).live) by {
        assert forall|x: Entity| middle.live.contains_key(x) <==> before.vacated(e.id).live.contains_key(x) by {
            if fewer.contains(x) {
                let i = choose|i: int| 0 <= i < fewer.len() && fewer[i] == x;
                assert(fewer[i].id != e.id);
            }
        }
        assert forall|x: Entity| middle.live.contains_key(x) implies middle.live[x] == before.vacated(e.id).live[x] by {
            if fewer.contains(x) {
                let i = choose|i: int| 0 <= i < fewer.len() && fewer[i] == x;
                assert(middle.live[fewer[i]] == less[i]);
                assert(before.live[fewer[i]] == less[i]);
            }
        }
    }
    assert(middle == before.vacated(e.id).claimed(e));
    assert(batch == middle.with_entity(e, c));
    assert(spawned_at_each(m, handles, rows) == spawned_at_each(m, fewer, less).spawned_at(e, c));
    if fewer.len() == 0 {
        assert(before == m);
        assert(spawned_at_each(m, fewer, less) == m);
        assert(c.dom() == types);
        assert(batch.with_archetype(types) =~= m.spawned_at(e, c));
    } else {
        assert forall|i: int| 0 <= i < less.len() implies (#[trigger] less[i]).dom() == types by {
            assert(rows[i] == less[i]);
        }
        law_column_batch_at_is_repeated_spawn_at(m, types, fewer, less);
        law_archetypes_generation(m, types);
        assert(with_types(with_types(m.archetypes, types), types) == with_types(m.archetypes, types));
        lemma_claimed_all(m, fewer);
        assert(batch.with_archetype(types) =~= before.with_archetype(types).spawned_at(e, c));
    }
}

/// A list that has each live entity once is as long as there are live entities.
pub proof fn law_iteration_length<T>(list: Seq<(Entity, T)>, map: Map<Entity, T>)
    requires
        enumerates(list, map),
    ensures
        map.dom().finite(),
        list.len() == map.dom().len(),
{
    let entities = list.map_values(|x: (Entity, T)| x.0);
    assert forall|i: int, j: int| 0 <= i < entities.len() && 0 <= j < entities.len() && i != j implies entities[i] != entities[j] by {
        assert(entities[i] == list[i].0);
        assert(entities[j] == list[j].0);
        if i < j {
            assert(list[i].0 != list[j].0);
        } else {
            assert(list[j].0 != list[i].0);
        }
    }
    entities.unique_seq_to_set();
    assert(entities.to_set() =~= map.dom()) by {
        assert forall|e: Entity| entities.contains(e) <==> map.dom().contains(e) by {
            if entities.contains(e) {
                let i = choose|i: int| 0 <= i < entities.len() && entities[i] == e;
                assert(list[i].0 == e);
            }
            if map.dom().contains(e) {
                assert(map.contains_key(e));
                let i = choose|i: int| 0 <= i < list.len() && (#[trigger] list[i]).0 == e;
                assert(entities[i] == e);
            }
        }
    }
}

/// The handles of entities that are created at once are those that as many entities would be given
/// one after the other, if in another order.
pub proof fn law_same_handles_at_once<V>(m: WorldModel<V>, count: nat, e: Entity)
    ensures
        m.next_handles(count).len() == count,
        m.next_handles(count).contains(e) <==> exists|i: int| 0 <= i < count && #[trigger] m.nth_entity(i) == e,
{
    let k = m.recycling(count) as int;
    let f = m.freelist.len() as int;
    let handles = m.next_handles(count);
    assert forall|i: int| 0 <= i < count implies handles[if i < k { k - 1 - i } else { i }] == #[trigger] m.nth_entity(i) by {}
    if handles.contains(e) {
        let j = choose|j: int| 0 <= j < handles.len() && handles[j] == e;
        assert(m.nth_entity(if j < k { k - 1 - j } else { j }) == e);
    }
    if exists|i: int| 0 <= i < count && #[trigger] m.nth_entity(i) == e {
        let i = choose|i: int| 0 <= i < count && #[trigger] m.nth_entity(i) == e;
        assert(handles[if i < k { k - 1 - i } else { i }] == e);
    }
}

/// What is live after entities are created at some handles with different IDs in an empty world.
proof fn lemma_spawned_at_each<V>(id: u64, handles: Seq<Entity>, rows: Seq<Map<TypeId, V>>)
    requires
        rows.len() == handles.len(),
        ids_of(handles).no_duplicates(),
    ensures
        ({
            let after = spawned_at_each(WorldModel::<V>::empty(id), handles, rows);
            &&& after.reserved == Set::<Entity>::empty()
            &&& after.live.dom() == handles.to_set()
            &&& forall|i: int| 0 <= i < handles.len() ==> after.live[#[trigger] handles[i]] == rows[i]
        }),
    decreases handles.len(),
{
    let after = spawned_at_each(WorldModel::<V>::empty(id), handles, rows);
    if handles.len() == 0 {
        assert(after.live.dom() =~= handles.to_set());
    } else {
        let fewer = handles.drop_last();
        let e = handles.last();
        let before = spawned_at_each(WorldModel::<V>::empty(id), fewer, rows.drop_last());
        assert forall|i: int, j: int| 0 <= i < fewer.len() && 0 <= j < fewer.len() && i != j implies ids_of(fewer)[i] != ids_of(fewer)[j] by {
            assert(ids_of(handles)[i] != ids_of(handles)[j]);
        }
        lemma_spawned_at_each(id, fewer, rows.drop_last());
        assert forall|x: Entity| before.live.contains_key(x) implies x.id != e.id by {
            assert(fewer.to_set().contains(x));
            let i = choose|i: int| 0 <= i < fewer.len() && fewer[i] == x;
            assert(ids_of(handles)[i] != ids_of(handles)[handles.len() - 1]);
        }
        assert forall|x: Entity| handles.contains(x) <==> fewer.contains(x) || x == e by {
            if fewer.contains(x) {
                let i = choose|i: int| 0 <= i < fewer.len() && fewer[i] == x;
                assert(handles[i] == x);
            }
            if handles.contains(x) && x != e {
                let i = choose|i: int| 0 <= i < handles.len() && handles[i] == x;
                assert(fewer[i] == x);
            }
            assert(handles[handles.len() - 1] == e);
        }
        assert(after.live.dom() =~= handles.to_set()) by {
            assert forall|x: Entity| after.live.dom().contains(x) <==> handles.contains(x) by {
                assert(before.live.dom().contains(x) <==> fewer.to_set().contains(x));
            }
        }
        assert forall|i: int| 0 <= i < handles.len() implies after.live[#[trigger] handles[i]] == rows[i] by {
            if i < fewer.len() {
                assert(fewer[i] == handles[i]);
                assert(before.live[fewer[i]] == rows[i]);
                assert(fewer.to_set().contains(fewer[i]));
                assert(before.live.contains_key(fewer[i]));
            }
        }
    }
}

/// A world can be rebuilt: creating its entities at their handles in a new world, in any order, and
/// handing over the free handles gives the same entities with the same components, and the same
/// handles to entities created from then on.
pub proof fn law_rebuild<V>(m: WorldModel<V>, id: u64, list: Seq<(Entity, Map<TypeId, V>)>, i: int, count: nat)
    requires
        m.wf(),
        m.reserved == Set::<Entity>::empty(),
        enumerates(list, m.live),
    ensures
        ({
            let handles = list.map_values(|x: (Entity, Map<TypeId, V>)| x.0);
            let rows = list.map_values(|x: (Entity, Map<TypeId, V>)| x.1);
            let entities = spawned_at_each(WorldModel::<V>::empty(id), handles, rows);
            let rebuilt = entities.with_freelist(m.freelist);
            &&& entities.accepts_freelist(m.freelist)
            &&& rebuilt.live == m.live
            &&& rebuilt.freelist == m.freelist
            &&& rebuilt.next_id == m.next_id
            &&& rebuilt.nth_entity(i) == m.nth_entity(i)
            &&& rebuilt.next_handles(count) == m.next_handles(count)
        }),
{
    let handles = list.map_values(|x: (Entity, Map<TypeId, V>)| x.0);
    let rows = list.map_values(|x: (Entity, Map<TypeId, V>)| x.1);
    let entities = spawned_at_each(WorldModel::<V>::empty(id), handles, rows);
    assert(ids_of(handles).no_duplicates()) by {
        assert forall|a: int, b: int| 0 <= a < handles.len() && 0 <= b < handles.len() && a != b implies ids_of(handles)[a]
            != ids_of(handles)[b] by {
            assert(m.contains(list[a].0) && m.contains(list[b].0));
            if a < b {
                assert(list[a].0 != list[b].0);
            } else {
                assert(list[b].0 != list[a].0);
            }
        }
    }
    lemma_spawned_at_each(id, handles, rows);
    assert(entities.live =~= m.live) by {
        assert forall|e: Entity| entities.live.contains_key(e) <==> m.live.contains_key(e) by {
            assert(entities.live.dom().contains(e) <==> handles.to_set().contains(e));
            if m.live.contains_key(e) {
                let a = choose|a: int| 0 <= a < list.len() && (#[trigger] list[a]).0 == e;
                assert(handles[a] == e);
            }
            if handles.contains(e) {
                let a = choose|a: int| 0 <= a < handles.len() && handles[a] == e;
                assert(list[a].0 == e);
            }
        }
        assert forall|e: Entity| m.live.contains_key(e) implies entities.live[e] == m.live[e] by {
            let a = choose|a: int| 0 <= a < list.len() && (#[trigger] list[a]).0 == e;
            assert(handles[a] == e);
            assert(rows[a] == list[a].1);
        }
    }
    lemma_freelist_accepted(m, entities);
}

} // verus!

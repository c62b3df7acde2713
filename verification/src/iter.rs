//! Iterators over entities.
use vstd::prelude::*;

use crate::archetype::Archetype;
use crate::entities::{Entities, Entity};
use crate::entity_ref::EntityRef;
use crate::types::TypeId;

verus! {

/// Entity IDs created by `World::spawn_batch`.
pub struct SpawnBatchIter {
    entities: Vec<Entity>,
    next: usize,
}

impl SpawnBatchIter {
    /// The entities yet to be yielded.
    pub closed spec fn remaining(&self) -> Seq<Entity> {
        self.entities@.skip(self.next as int)
    }

    #[verifier::type_invariant]
    spec fn wf(&self) -> bool {
        self.next <= self.entities@.len()
    }

    pub fn new(entities: Vec<Entity>) -> (r: Self)
        ensures
            r.remaining() == entities@,
    {
        let r = SpawnBatchIter { entities, next: 0 };
        assert(r.remaining() =~= entities@);
        r
    }

    pub fn next(&mut self) -> (r: Option<Entity>)
        ensures
            match r {
                Some(e) => old(self).remaining().len() > 0 && e == old(self).remaining()[0]
                    && final(self).remaining() == old(self).remaining().drop_first(),
                None => old(self).remaining().len() == 0 && final(self).remaining() == old(self).remaining(),
            },
    {
        proof {
            use_type_invariant(&*self);
        }
        let at: usize = self.next;
        if at < self.entities.len() {
            let e: Entity = self.entities[at];
            self.next = at + 1;
            assert(self.remaining() =~= old(self).remaining().drop_first());
            Some(e)
        } else {
            None
        }
    }

    pub fn size_hint(&self) -> (r: (usize, Option<usize>))
        ensures
            r.0 == self.remaining().len(),
            r.1 == Some(r.0),
    {
        (self.len(), Some(self.len()))
    }

    pub fn len(&self) -> (r: usize)
        ensures
            r == self.remaining().len(),
    {
        proof {
            use_type_invariant(self);
        }
        self.entities.len() - self.next
    }

    /// The entities yet to be yielded.
    pub fn collect(self) -> (r: Vec<Entity>)
        ensures
            r@ == self.remaining(),
    {
        proof {
            use_type_invariant(&self);
        }
        let mut it = self;
        let mut r: Vec<Entity> = Vec::new();
        let ghost all = self.remaining();
        assert(all.subrange(0, 0) =~= r@);
        assert(all.skip(0) =~= all);
        loop
            invariant
                r@.len() <= all.len(),
                r@ == all.subrange(0, r@.len() as int),
                it.remaining() == all.skip(r@.len() as int),
            ensures
                r@ == all,
            decreases all.len() - r@.len(),
        {
            match it.next() {
                Some(e) => {
                    let ghost n = r@.len() as int;
                    r.push(e);
                    assert(r@ =~= all.subrange(0, n + 1));
                    assert(it.remaining() =~= all.skip(n + 1));
                },
                None => {
                    assert(r@ =~= all);
                    break;
                },
            }
        }
        r
    }
}

/// Iterator over entities spawned by `World::spawn_column_batch`.
pub struct SpawnColumnBatchIter {
    inner: SpawnBatchIter,
}

impl SpawnColumnBatchIter {
    /// The entities yet to be yielded.
    pub closed spec fn remaining(&self) -> Seq<Entity> {
        self.inner.remaining()
    }

    pub fn new(entities: Vec<Entity>) -> (r: Self)
        ensures
            r.remaining() == entities@,
    {
        SpawnColumnBatchIter { inner: SpawnBatchIter::new(entities) }
    }

    pub fn next(&mut self) -> (r: Option<Entity>)
        ensures
            match r {
                Some(e) => old(self).remaining().len() > 0 && e == old(self).remaining()[0]
                    && final(self).remaining() == old(self).remaining().drop_first(),
                None => old(self).remaining().len() == 0 && final(self).remaining() == old(self).remaining(),
            },
    {
        self.inner.next()
    }

    pub fn size_hint(&self) -> (r: (usize, Option<usize>))
        ensures
            r.0 == self.remaining().len(),
            r.1 == Some(r.0),
    {
        self.inner.size_hint()
    }

    pub fn len(&self) -> (r: usize)
        ensures
            r == self.remaining().len(),
    {
        self.inner.len()
    }

    /// The entities yet to be yielded.
    pub fn collect(self) -> (r: Vec<Entity>)
        ensures
            r@ == self.remaining(),
    {
        self.inner.collect()
    }
}

/// Whether `list` has each entry of `map` once, and nothing else.
pub open spec fn enumerates<T>(list: Seq<(Entity, T)>, map: Map<Entity, T>) -> bool {
    &&& forall|i: int, j: int| 0 <= i < j < list.len() ==> (#[trigger] list[i]).0 != (#[trigger] list[j]).0
    &&& forall|i: int|
        0 <= i < list.len() ==> map.contains_key((#[trigger] list[i]).0) && map[list[i].0] == list[i].1
    &&& forall|e: Entity| #[trigger] map.contains_key(e) ==> exists|i: int| 0 <= i < list.len() && (#[trigger] list[i]).0 == e
}

/// The entities of an archetype from row `from` on, with their components.
pub open spec fn rows_from<V>(entities: Entities, archetype: Archetype<V>, from: int) -> Seq<(Entity, Map<TypeId, V>)> {
    Seq::new(
        (archetype.ids_view().len() - from) as nat,
        |i: int| (entities.handle(archetype.ids_view()[from + i]), archetype.components(from + i)),
    )
}

/// The entities of the archetypes from position `from` on, with their components.
pub open spec fn entities_from<V>(
    entities: Entities,
    archetypes: Seq<Archetype<V>>,
    from: int,
) -> Seq<(Entity, Map<TypeId, V>)>
    decreases archetypes.len() - from,
{
    if from >= archetypes.len() {
        Seq::empty()
    } else {
        rows_from(entities, archetypes[from], 0) + entities_from(entities, archetypes, from + 1)
    }
}

/// Whether every row of the archetype belongs to a known ID.
pub open spec fn known_rows<V>(entities: Entities, archetype: Archetype<V>) -> bool {
    &&& archetype.wf()
    &&& forall|r: int| 0 <= r < archetype.ids_view().len() ==> #[trigger] archetype.ids_view()[r] < entities.metas().len()
}

/// Iterator over all of a world's entities.
pub struct Iter<'a, V> {
    archetypes: &'a Vec<Archetype<V>>,
    /// Position of the archetype to go on with after the current one.
    next_archetype: usize,
    entities: &'a Entities,
    current: Option<&'a Archetype<V>>,
    index: u32,
}

impl<'a, V> Iter<'a, V> {
    /// The entities yet to be yielded, with their components.
    pub closed spec fn remaining(&self) -> Seq<(Entity, Map<TypeId, V>)> {
        match self.current {
            Some(archetype) => rows_from(*self.entities, *archetype, self.index as int) + entities_from(
                *self.entities,
                self.archetypes@,
                self.next_archetype as int,
            ),
            None => entities_from(*self.entities, self.archetypes@, self.next_archetype as int),
        }
    }

    /// Number of live entities.
    pub closed spec fn total(&self) -> nat {
        self.entities.count()
    }

    #[verifier::type_invariant]
    spec fn wf(&self) -> bool {
        &&& forall|a: int| 0 <= a < self.archetypes@.len() ==> known_rows(*self.entities, #[trigger] self.archetypes@[a])
        &&& self.next_archetype <= self.archetypes@.len()
        &&& self.current matches Some(archetype) ==> known_rows(*self.entities, *archetype) && self.index
            <= archetype.ids_view().len()
    }

    /// Iterates over the rows of the archetypes, one archetype after the other.
    pub fn new(archetypes: &'a Vec<Archetype<V>>, entities: &'a Entities) -> (r: Self)
        requires
            forall|a: int| 0 <= a < archetypes@.len() ==> known_rows(*entities, #[trigger] archetypes@[a]),
        ensures
            r.remaining() == entities_from(*entities, archetypes@, 0),
            r.total() == entities.count(),
    {
        Iter { archetypes, next_archetype: 0, entities, current: None, index: 0 }
    }

    /// The next entity.
    pub fn next(&mut self) -> (r: Option<EntityRef<'a, V>>)
        ensures
            final(self).total() == old(self).total(),
            match r {
                Some(e) => {
                    &&& old(self).remaining().len() > 0
                    &&& (e.entity_view(), e.components()) == old(self).remaining()[0]
                    &&& final(self).remaining() == old(self).remaining().drop_first()
                },
                None => old(self).remaining().len() == 0 && final(self).remaining().len() == 0,
            },
    {
        proof {
            use_type_invariant(&*self);
        }
        loop
            invariant
                self.wf(),
                self.remaining() == old(self).remaining(),
                self.total() == old(self).total(),
            decreases
                    self.archetypes@.len() - self.next_archetype,
                    if self.current is Some {
                        1int
                    } else {
                        0int
                    },
        {
            let ghost before = *self;
            match self.current {
                None => {
                    let at: usize = self.next_archetype;
                    if at >= self.archetypes.len() {
                        return None;
                    }
                    self.index = 0;
                    self.next_archetype = at + 1;
                    self.current = Some(&self.archetypes[at]);
                },
                Some(current) => {
                    if self.index == current.len() {
                        self.current = None;
                        assert(self.remaining() =~= before.remaining());
                        continue;
                    }
                    let index: u32 = self.index;
                    self.index = index + 1;
                    let id: u32 = current.entity_id(index);
                    let e: Entity = Entity { id, generation: self.entities.generation(id) };
                    assert(self.remaining() =~= before.remaining().drop_first());
                    return Some(EntityRef::new(current, e, index));
                },
            }
        }
    }

    /// Number of live entities, however many were yielded already; as a lower and an upper bound.
    pub fn size_hint(&self) -> (r: (usize, Option<usize>))
        ensures
            r.0 == self.total(),
            r.1 == Some(r.0),
    {
        (self.len(), Some(self.len()))
    }

    /// Number of live entities, however many were yielded already.
    pub fn len(&self) -> (r: usize)
        ensures
            r == self.total(),
    {
        self.entities.len() as usize
    }
}

} // verus!

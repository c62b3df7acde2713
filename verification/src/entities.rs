//! Allocation of entity IDs and the record of where each entity's components are stored.
use vstd::prelude::*;
use vstd::relations::injective_on;
use vstd::set_lib::{
    lemma_int_range, lemma_len_subset, lemma_map_size, lemma_set_disjoint_lens, lemma_subset_equality,
    set_int_range,
};

verus! {

/// Lightweight unique ID, or handle, of an entity.
///
/// An ID is used again once its entity is despawned; the generation then tells the new entity's
/// handle from those of its predecessors.
#[derive(Debug, Clone, Copy, PartialEq, Eq, PartialOrd, Ord, Hash, Structural)]
pub struct Entity {
    pub id: u32,
    pub generation: u32,
}

impl Entity {
    /// A handle that no world hands out, usable as a placeholder.
    pub fn dangling() -> (r: Entity)
        ensures
            r.id == u32::MAX,
            r.generation == u32::MAX,
    {
        Entity { id: u32::MAX, generation: u32::MAX }
    }

    /// The ID: unique among the entities that are live at one time.
    pub fn id(self) -> (r: u32)
        ensures
            r == self.id,
    {
        self.id
    }
}

/// Error indicating that no entity with a particular handle exists.
#[derive(Debug, Clone, Copy, PartialEq, Eq, Hash, Structural)]
pub struct NoSuchEntity;

/// Where the components of an entity are stored.
#[derive(Debug, Clone, Copy, PartialEq, Eq, Structural)]
pub struct Location {
    /// Position of the archetype.
    pub archetype: u32,
    /// Row within the archetype; `u32::MAX` for an ID that has none.
    pub index: u32,
}

/// What is known of an ID.
#[derive(Debug, Clone, Copy, PartialEq, Eq, Structural)]
pub struct EntityMeta {
    pub generation: u32,
    pub location: Location,
}

/// The location of an ID without components.
pub open spec fn nowhere() -> Location {
    Location { archetype: 0, index: u32::MAX }
}

/// The record of an ID that was never used.
pub open spec fn unused() -> EntityMeta {
    EntityMeta { generation: 1, location: nowhere() }
}

/// The generation that follows `generation`; zero is skipped.
pub open spec fn next_generation(generation: u32) -> u32 {
    if generation == u32::MAX {
        1
    } else {
        (generation + 1) as u32
    }
}

/// The handles of `count` IDs from `first` on that were never used before.
pub open spec fn fresh_entities(first: nat, count: nat) -> Seq<Entity> {
    Seq::new(count, |i: int| Entity { id: (first + i) as u32, generation: 1 })
}

/// The IDs of handles.
pub open spec fn ids_of(list: Seq<Entity>) -> Seq<u32> {
    list.map_values(|e: Entity| e.id)
}

/// Distinct IDs below a bound are no more than the bound.
pub proof fn lemma_distinct_bounded(ids: Seq<u32>, bound: nat)
    requires
        ids.no_duplicates(),
        forall|i: int| 0 <= i < ids.len() ==> #[trigger] ids[i] < bound,
    ensures
        ids.len() <= bound,
{
    let numbers = ids.map_values(|id: u32| id as int);
    assert forall|i: int, j: int| 0 <= i < numbers.len() && 0 <= j < numbers.len() && i != j implies numbers[i] != numbers[j] by {
        assert(ids[i] != ids[j]);
    }
    numbers.unique_seq_to_set();
    lemma_int_range(0, bound as int);
    assert(numbers.to_set().subset_of(set_int_range(0, bound as int)));
    lemma_len_subset(numbers.to_set(), set_int_range(0, bound as int));
}

/// Allocator of entity IDs.
///
/// `pending` holds the IDs that are free, and behind them those that were free and are now
/// reserved, `free_cursor` being where the second kind begins. A negative cursor says that all of
/// `pending` is reserved, and so are as many IDs beyond the end of `meta`.
pub struct Entities {
    meta: Vec<EntityMeta>,
    pending: Vec<u32>,
    free_cursor: i64,
    len: u32,
}

impl Entities {
    pub closed spec fn metas(&self) -> Seq<EntityMeta> {
        self.meta@
    }

    pub closed spec fn pending_ids(&self) -> Seq<u32> {
        self.pending@
    }

    pub closed spec fn cursor(&self) -> int {
        self.free_cursor as int
    }

    pub closed spec fn count(&self) -> nat {
        self.len as nat
    }

    /// Number of IDs that are free.
    pub open spec fn free_count(&self) -> nat {
        if self.cursor() < 0 {
            0
        } else {
            self.cursor() as nat
        }
    }

    /// Number of reserved IDs beyond the end of `meta`.
    pub open spec fn fresh_count(&self) -> nat {
        if self.cursor() < 0 {
            (-self.cursor()) as nat
        } else {
            0
        }
    }

    /// The first ID that was never used.
    pub open spec fn next_id(&self) -> nat {
        self.metas().len() + self.fresh_count()
    }

    /// The current handle of an ID.
    pub open spec fn handle(&self, id: u32) -> Entity {
        Entity { id, generation: self.metas()[id as int].generation }
    }

    /// The handles that will be given to entities, the last one first.
    pub open spec fn freelist_view(&self) -> Seq<Entity> {
        Seq::new(self.free_count(), |i: int| self.handle(self.pending_ids()[i]))
    }

    /// The reserved handles whose IDs are in use again.
    pub open spec fn recycled(&self) -> Seq<Entity> {
        Seq::new(
            (self.pending_ids().len() - self.free_count()) as nat,
            |i: int| self.handle(self.pending_ids()[self.free_count() + i]),
        )
    }

    /// The handles that were reserved and await `flush`.
    pub open spec fn reserved_view(&self) -> Seq<Entity> {
        fresh_entities(self.metas().len(), self.fresh_count()) + self.recycled()
    }

    /// Whether the components of the entity are stored somewhere.
    pub open spec fn located(&self, e: Entity) -> bool {
        &&& e.id < self.metas().len()
        &&& self.metas()[e.id as int].generation == e.generation
        &&& self.metas()[e.id as int].location.index != u32::MAX
    }

    pub open spec fn live(&self) -> Set<Entity> {
        Set::new(|e: Entity| self.located(e))
    }

    /// Nothing is reserved.
    pub open spec fn flushed(&self) -> bool {
        self.cursor() == self.pending_ids().len()
    }

    /// Every ID has a location, is pending, or is in limbo: allocated, and about to be located.
    pub open spec fn wf(&self, limbo: Set<u32>) -> bool {
        &&& self.pending_ids().no_duplicates()
        &&& forall|i: int| 0 <= i < self.pending_ids().len() ==> {
            let id = #[trigger] self.pending_ids()[i];
            &&& id < self.metas().len()
            &&& self.metas()[id as int].location == nowhere()
            &&& !limbo.contains(id)
        }
        &&& forall|id: u32| #[trigger] limbo.contains(id) ==> {
            &&& id < self.metas().len()
            &&& self.metas()[id as int].location == nowhere()
        }
        &&& forall|id: u32|
            id < self.metas().len() && (#[trigger] self.metas()[id as int]).location.index == u32::MAX ==> {
                &&& self.metas()[id as int].location == nowhere()
                &&& self.pending_ids().contains(id) || limbo.contains(id)
            }
        &&& self.cursor() <= self.pending_ids().len()
        &&& self.next_id() <= 0x1_0000_0000
        &&& limbo.finite()
        &&& self.live().finite()
        &&& self.count() == self.live().len() + limbo.len()
        &&& self.count() + self.pending_ids().len() - self.cursor() <= u32::MAX
    }

    /// Apart from `limbo`, the two agree on every ID.
    pub open spec fn same_but_locations(&self, other: &Entities) -> bool {
        &&& self.metas().len() == other.metas().len()
        &&& self.pending_ids() == other.pending_ids()
        &&& self.cursor() == other.cursor()
        &&& forall|id: int| 0 <= id < self.metas().len() ==> (#[trigger] self.metas()[id]).generation == other.metas()[id].generation
    }

    /// An allocator that has given out nothing.
    pub fn new() -> (r: Self)
        ensures
            r.wf(Set::empty()),
            r.metas() == Seq::<EntityMeta>::empty(),
            r.pending_ids() == Seq::<u32>::empty(),
            r.cursor() == 0,
            r.count() == 0,
            r.live() == Set::<Entity>::empty(),
    {
        let r = Entities { meta: Vec::new(), pending: Vec::new(), free_cursor: 0, len: 0 };
        assert(r.live() =~= Set::<Entity>::empty());
        r
    }

    /// Number of live entities.
    pub fn len(&self) -> (r: u32)
        ensures
            r == self.count(),
    {
        self.len
    }

    /// Number of handles that can be given out before there are as many as can be counted.
    pub fn room(&self) -> (r: u32)
        requires
            self.wf(Set::empty()),
        ensures
            r == u32::MAX - self.count() - self.reserved_view().len(),
    {
        proof {
            lemma_distinct_bounded(self.pending@, self.meta@.len());
        }
        let reserved: i64 = self.pending.len() as i64 - self.free_cursor;
        u32::MAX - self.len - reserved as u32
    }

    /// The generation of an ID.
    pub fn generation(&self, id: u32) -> (r: u32)
        requires
            id < self.metas().len(),
        ensures
            r == self.metas()[id as int].generation,
    {
        self.meta[id as usize].generation
    }

    /// The location of an ID.
    pub fn meta_location(&self, id: u32) -> (r: Location)
        requires
            id < self.metas().len(),
        ensures
            r == self.metas()[id as int].location,
    {
        self.meta[id as usize].location
    }

    /// Allocates an ID: the one that was freed last, or else a new one.
    pub fn alloc_one(&mut self, Ghost(limbo): Ghost<Set<u32>>) -> (e: Entity)
        requires
            old(self).wf(limbo),
            old(self).flushed(),
            old(self).count() < u32::MAX,
            old(self).pending_ids().len() > 0 || old(self).metas().len() <= u32::MAX,
        ensures
            final(self).wf(limbo.insert(e.id)),
            final(self).flushed(),
            !limbo.contains(e.id),
            e == final(self).handle(e.id),
            final(self).live() == old(self).live(),
            final(self).count() == old(self).count() + 1,
            old(self).pending_ids().len() > 0 ==> {
                &&& e.id == old(self).pending_ids().last()
                &&& final(self).pending_ids() == old(self).pending_ids().drop_last()
                &&& final(self).metas() == old(self).metas()
            },
            old(self).pending_ids().len() == 0 ==> {
                &&& e.id == old(self).metas().len()
                &&& final(self).pending_ids() == old(self).pending_ids()
                &&& final(self).metas() == old(self).metas().push(unused())
            },
    {
        self.len = self.len + 1;
        match self.pending.pop() {
            Some(id) => {
                self.free_cursor = self.pending.len() as i64;
                proof {
                    let p0 = old(self).pending@;
                    assert(p0[p0.len() - 1] == id);
                    assert forall|i: int| 0 <= i < self.pending@.len() implies self.pending@[i] != id by {
                        assert(p0[i] == self.pending@[i]);
                    }
                    assert forall|i: int| 0 <= i < self.pending@.len() implies self.pending@[i] == #[trigger] p0[i] by {}
                    assert forall|k: u32| p0.contains(k) && k != id implies self.pending@.contains(k) by {
                        let i = choose|i: int| 0 <= i < p0.len() && p0[i] == k;
                        assert(self.pending@[i] == k);
                    }
                    assert(self.live() =~= old(self).live());
                    assert(!limbo.contains(id));
                }
                Entity { id, generation: self.meta[id as usize].generation }
            },
            None => {
                let id: u32 = self.meta.len() as u32;
                self.meta.push(
                    EntityMeta { generation: 1, location: Location { archetype: 0, index: u32::MAX } },
                );
                proof {
                    self.lemma_grown_live(old(self));
                    assert(old(self).pending@ =~= Seq::<u32>::empty());
                }
                Entity { id, generation: 1 }
            },
        }
    }

    /// Records without a location add no live entity.
    proof fn lemma_grown_live(&self, other: &Entities)
        requires
            self.metas().len() >= other.metas().len(),
            forall|id: int| 0 <= id < other.metas().len() ==> self.metas()[id] == #[trigger] other.metas()[id],
            forall|id: int| other.metas().len() <= id < self.metas().len() ==> (#[trigger] self.metas()[id]).location.index == u32::MAX,
        ensures
            self.live() == other.live(),
    {
        assert forall|e: Entity| self.located(e) <==> other.located(e) by {
            if (e.id as int) < other.metas().len() {
                assert(self.metas()[e.id as int] == other.metas()[e.id as int]);
            }
        }
        assert(self.live() =~= other.live());
    }

    /// Records where an allocated ID's components are stored.
    pub fn locate(&mut self, id: u32, location: Location, Ghost(limbo): Ghost<Set<u32>>)
        requires
            old(self).wf(limbo),
            limbo.contains(id),
            location.index != u32::MAX,
        ensures
            final(self).wf(limbo.remove(id)),
            final(self).pending_ids() == old(self).pending_ids(),
            final(self).cursor() == old(self).cursor(),
            final(self).count() == old(self).count(),
            final(self).metas() == old(self).metas().update(
                id as int,
                EntityMeta { generation: old(self).metas()[id as int].generation, location },
            ),
            final(self).live() == old(self).live().insert(old(self).handle(id)),
    {
        let generation: u32 = self.meta[id as usize].generation;
        self.meta[id as usize] = EntityMeta { generation, location };
        proof {
            let e = old(self).handle(id);
            assert(!old(self).live().contains(e));
            assert forall|x: Entity| self.located(x) <==> old(self).located(x) || x == e by {
                if x.id != id && (x.id as int) < self.meta@.len() {
                    assert(self.meta@[x.id as int] == old(self).meta@[x.id as int]);
                }
            }
            assert(self.live() =~= old(self).live().insert(e));
        }
    }

    /// Forgets where a live entity's components are stored.
    pub fn unlocate(&mut self, id: u32, Ghost(limbo): Ghost<Set<u32>>)
        requires
            old(self).wf(limbo),
            id < old(self).metas().len(),
            old(self).metas()[id as int].location.index != u32::MAX,
        ensures
            final(self).wf(limbo.insert(id)),
            !limbo.contains(id),
            final(self).pending_ids() == old(self).pending_ids(),
            final(self).cursor() == old(self).cursor(),
            final(self).count() == old(self).count(),
            final(self).metas() == old(self).metas().update(
                id as int,
                EntityMeta { generation: old(self).metas()[id as int].generation, location: nowhere() },
            ),
            final(self).live() == old(self).live().remove(old(self).handle(id)),
    {
        let generation: u32 = self.meta[id as usize].generation;
        self.meta[id as usize] = EntityMeta {
            generation,
            location: Location { archetype: 0, index: u32::MAX },
        };
        proof {
            let e = old(self).handle(id);
            assert(old(self).live().contains(e));
            assert forall|x: Entity| self.located(x) <==> old(self).located(x) && x != e by {
                if x.id != id && (x.id as int) < self.meta@.len() {
                    assert(self.meta@[x.id as int] == old(self).meta@[x.id as int]);
                }
            }
            assert(self.live() =~= old(self).live().remove(e));
            assert forall|k: u32|
                k < self.meta@.len() && (#[trigger] self.meta@[k as int]).location.index == u32::MAX implies {
                &&& self.meta@[k as int].location == nowhere()
                &&& self.pending@.contains(k) || limbo.insert(id).contains(k)
            } by {
                if k != id {
                    assert(self.meta@[k as int] == old(self).meta@[k as int]);
                }
            }
        }
    }

    /// Changes the row of a live entity that stays in its archetype.
    pub fn relocate(&mut self, id: u32, index: u32, Ghost(limbo): Ghost<Set<u32>>)
        requires
            old(self).wf(limbo),
            id < old(self).metas().len(),
            old(self).metas()[id as int].location.index != u32::MAX,
            index != u32::MAX,
        ensures
            final(self).wf(limbo),
            final(self).pending_ids() == old(self).pending_ids(),
            final(self).cursor() == old(self).cursor(),
            final(self).count() == old(self).count(),
            final(self).metas() == old(self).metas().update(
                id as int,
                EntityMeta {
                    generation: old(self).metas()[id as int].generation,
                    location: Location {
                        archetype: old(self).metas()[id as int].location.archetype,
                        index,
                    },
                },
            ),
            final(self).live() == old(self).live(),
    {
        let meta: EntityMeta = self.meta[id as usize];
        self.meta[id as usize] = EntityMeta {
            generation: meta.generation,
            location: Location { archetype: meta.location.archetype, index },
        };
        proof {
            assert forall|x: Entity| self.located(x) <==> old(self).located(x) by {
                if x.id != id && (x.id as int) < self.meta@.len() {
                    assert(self.meta@[x.id as int] == old(self).meta@[x.id as int]);
                }
            }
            assert(self.live() =~= old(self).live());
        }
    }

    /// Makes an ID that is in limbo free, under the next generation.
    pub fn free(&mut self, id: u32, Ghost(limbo): Ghost<Set<u32>>)
        requires
            old(self).wf(limbo),
            old(self).flushed(),
            limbo.contains(id),
        ensures
            final(self).wf(limbo.remove(id)),
            final(self).flushed(),
            final(self).pending_ids() == old(self).pending_ids().push(id),
            final(self).count() == old(self).count() - 1,
            final(self).metas() == old(self).metas().update(
                id as int,
                EntityMeta {
                    generation: next_generation(old(self).metas()[id as int].generation),
                    location: nowhere(),
                },
            ),
            final(self).live() == old(self).live(),
    {
        proof {
            lemma_distinct_bounded(self.pending@.push(id), self.meta@.len());
        }
        let generation: u32 = self.meta[id as usize].generation;
        let next: u32 = if generation == u32::MAX {
            1
        } else {
            generation + 1
        };
        self.meta[id as usize] = EntityMeta {
            generation: next,
            location: Location { archetype: 0, index: u32::MAX },
        };
        self.pending.push(id);
        self.free_cursor = self.pending.len() as i64;
        self.len = self.len - 1;
        proof {
            let p0 = old(self).pending@;
            assert(!p0.contains(id));
            assert forall|x: Entity| self.located(x) <==> old(self).located(x) by {
                if x.id != id && (x.id as int) < self.meta@.len() {
                    assert(self.meta@[x.id as int] == old(self).meta@[x.id as int]);
                }
            }
            assert(self.live() =~= old(self).live());
            assert forall|i: int, j: int| 0 <= i < j < self.pending@.len() implies self.pending@[i] != self.pending@[j] by {
                assert(p0.contains(p0[i]));
            }
            assert forall|i: int| 0 <= i < self.pending@.len() implies {
                let k = #[trigger] self.pending@[i];
                &&& k < self.meta@.len()
                &&& self.meta@[k as int].location == nowhere()
                &&& !limbo.remove(id).contains(k)
            } by {
                if i < p0.len() {
                    assert(p0[i] == self.pending@[i]);
                }
            }
            assert forall|k: u32|
                k < self.meta@.len() && (#[trigger] self.meta@[k as int]).location.index == u32::MAX implies {
                &&& self.meta@[k as int].location == nowhere()
                &&& self.pending@.contains(k) || limbo.remove(id).contains(k)
            } by {
                if k != id {
                    assert(self.meta@[k as int] == old(self).meta@[k as int]);
                    if p0.contains(k) {
                        let i = choose|i: int| 0 <= i < p0.len() && p0[i] == k;
                        assert(self.pending@[i] == k);
                    }
                } else {
                    assert(self.pending@[p0.len() as int] == k);
                }
            }
        }
    }

    /// Where the entity that now uses an ID is stored, if one does.
    pub fn location(&self, id: u32) -> (r: Option<Location>)
        ensures
            r == (if id < self.metas().len() && self.metas()[id as int].location.index != u32::MAX {
                Some(self.metas()[id as int].location)
            } else {
                None
            }),
    {
        if (id as usize) < self.meta.len() {
            let location: Location = self.meta[id as usize].location;
            if location.index != u32::MAX {
                return Some(location);
            }
        }
        None
    }

    /// Overwrites the generation of an ID that is in limbo.
    pub fn set_generation(&mut self, e: Entity, Ghost(limbo): Ghost<Set<u32>>)
        requires
            old(self).wf(limbo),
            limbo.contains(e.id),
        ensures
            final(self).wf(limbo),
            final(self).pending_ids() == old(self).pending_ids(),
            final(self).cursor() == old(self).cursor(),
            final(self).count() == old(self).count(),
            final(self).metas() == old(self).metas().update(
                e.id as int,
                EntityMeta { generation: e.generation, location: nowhere() },
            ),
            final(self).live() == old(self).live(),
    {
        self.meta[e.id as usize] = EntityMeta {
            generation: e.generation,
            location: Location { archetype: 0, index: u32::MAX },
        };
        proof {
            assert forall|x: Entity| self.located(x) <==> old(self).located(x) by {
                if x.id != e.id && (x.id as int) < self.meta@.len() {
                    assert(self.meta@[x.id as int] == old(self).meta@[x.id as int]);
                }
            }
            assert(self.live() =~= old(self).live());
        }
    }

    /// Allocates the ID of `e`, which no entity uses, under the generation of `e`.
    ///
    /// The IDs that are skipped when it is a new one become free.
    pub fn alloc_at(&mut self, e: Entity, Ghost(limbo): Ghost<Set<u32>>)
        requires
            old(self).wf(limbo),
            old(self).flushed(),
            old(self).count() < u32::MAX,
            !limbo.contains(e.id),
            e.id < old(self).metas().len() ==> old(self).metas()[e.id as int].location.index == u32::MAX,
        ensures
            final(self).wf(limbo.insert(e.id)),
            final(self).flushed(),
            final(self).count() == old(self).count() + 1,
            final(self).live() == old(self).live(),
            e.id < old(self).metas().len() ==> {
                &&& old(self).pending_ids().contains(e.id)
                &&& final(self).pending_ids() == old(self).pending_ids().update(
                    old(self).pending_ids().index_of(e.id),
                    old(self).pending_ids().last(),
                ).drop_last()
                &&& final(self).metas() == old(self).metas().update(
                    e.id as int,
                    EntityMeta { generation: e.generation, location: nowhere() },
                )
            },
            e.id >= old(self).metas().len() ==> {
                &&& final(self).pending_ids() == old(self).pending_ids() + Seq::new(
                    (e.id - old(self).metas().len()) as nat,
                    |i: int| (old(self).metas().len() + i) as u32,
                )
                &&& final(self).metas() == old(self).metas() + Seq::new(
                    (e.id - old(self).metas().len()) as nat,
                    |i: int| unused(),
                ).push(EntityMeta { generation: e.generation, location: nowhere() })
            },
    {
        if self.meta.len() <= e.id as usize {
            self.alloc_beyond(e, Ghost(limbo));
        } else {
            self.alloc_pending(e, Ghost(limbo));
        }
    }

    fn alloc_beyond(&mut self, e: Entity, Ghost(limbo): Ghost<Set<u32>>)
        requires
            old(self).wf(limbo),
            old(self).flushed(),
            old(self).count() < u32::MAX,
            e.id >= old(self).metas().len(),
        ensures
            final(self).wf(limbo.insert(e.id)),
            final(self).flushed(),
            final(self).count() == old(self).count() + 1,
            final(self).live() == old(self).live(),
            final(self).pending_ids() == old(self).pending_ids() + Seq::new(
                (e.id - old(self).metas().len()) as nat,
                |i: int| (old(self).metas().len() + i) as u32,
            ),
            final(self).metas() == old(self).metas() + Seq::new(
                (e.id - old(self).metas().len()) as nat,
                |i: int| unused(),
            ).push(EntityMeta { generation: e.generation, location: nowhere() }),
    {
        let ghost n = self.meta@.len() as int;
        let ghost gap = Seq::new((e.id - n) as nat, |i: int| (n + i) as u32);
        let ghost blank = Seq::new((e.id - n) as nat, |i: int| unused());
        while self.meta.len() < e.id as usize
            invariant
                n <= self.meta@.len() <= e.id,
                n == old(self).meta@.len(),
                gap == Seq::new((e.id - n) as nat, |i: int| (n + i) as u32),
                blank == Seq::new((e.id - n) as nat, |i: int| unused()),
                self.meta@ == old(self).meta@ + blank.subrange(0, self.meta@.len() - n),
                self.pending@ == old(self).pending@ + gap.subrange(0, self.meta@.len() - n),
                self.len == old(self).len,
            decreases e.id - self.meta@.len(),
        {
            let ghost k = self.meta@.len() - n;
            let id: u32 = self.meta.len() as u32;
            self.pending.push(id);
            self.meta.push(
                EntityMeta { generation: 1, location: Location { archetype: 0, index: u32::MAX } },
            );
            assert(self.meta@ =~= old(self).meta@ + blank.subrange(0, k + 1));
            assert(self.pending@ =~= old(self).pending@ + gap.subrange(0, k + 1));
        }
        assert(gap.subrange(0, gap.len() as int) =~= gap);
        assert(blank.subrange(0, blank.len() as int) =~= blank);
        self.meta.push(
            EntityMeta {
                generation: e.generation,
                location: Location { archetype: 0, index: u32::MAX },
            },
        );
        proof {
            assert(self.meta@ =~= old(self).meta@ + blank.push(
                EntityMeta { generation: e.generation, location: nowhere() },
            ));
            let p0 = old(self).pending@;
            assert forall|i: int| 0 <= i < self.pending@.len() implies {
                let k = #[trigger] self.pending@[i];
                &&& k < self.meta@.len() - 1
                &&& (i < p0.len() ==> k == p0[i] && k < n)
                &&& (i >= p0.len() ==> k == n + i - p0.len())
            } by {}
            assert forall|i: int, j: int| 0 <= i < j < self.pending@.len() implies self.pending@[i] != self.pending@[j] by {}
            lemma_distinct_bounded(self.pending@, self.meta@.len());
            self.lemma_grown_live(old(self));
            assert forall|id: u32|
                id < self.meta@.len() && (#[trigger] self.meta@[id as int]).location.index == u32::MAX implies {
                &&& self.meta@[id as int].location == nowhere()
                &&& self.pending@.contains(id) || limbo.insert(e.id).contains(id)
            } by {
                if (id as int) < n {
                    assert(self.meta@[id as int] == old(self).meta@[id as int]);
                    if p0.contains(id) {
                        let i = choose|i: int| 0 <= i < p0.len() && p0[i] == id;
                        assert(self.pending@[i] == id);
                    }
                } else if id != e.id {
                    assert(self.pending@[p0.len() + id - n] == id);
                }
            }
        }
        self.free_cursor = self.pending.len() as i64;
        self.len = self.len + 1;
        proof {
            assert(self.live() =~= old(self).live());
        }
    }

    fn alloc_pending(&mut self, e: Entity, Ghost(limbo): Ghost<Set<u32>>)
        requires
            old(self).wf(limbo),
            old(self).flushed(),
            old(self).count() < u32::MAX,
            !limbo.contains(e.id),
            e.id < old(self).metas().len(),
            old(self).metas()[e.id as int].location.index == u32::MAX,
        ensures
            final(self).wf(limbo.insert(e.id)),
            final(self).flushed(),
            final(self).count() == old(self).count() + 1,
            final(self).live() == old(self).live(),
            old(self).pending_ids().contains(e.id),
            final(self).pending_ids() == old(self).pending_ids().update(
                old(self).pending_ids().index_of(e.id),
                old(self).pending_ids().last(),
            ).drop_last(),
            final(self).metas() == old(self).metas().update(
                e.id as int,
                EntityMeta { generation: e.generation, location: nowhere() },
            ),
    {
        assert(self.pending@.contains(e.id)) by {
            assert(self.meta@[e.id as int].location.index == u32::MAX);
        }
        let n: usize = self.pending.len();
        let mut i: usize = 0;
        while self.pending[i] != e.id
            invariant
                i < n,
                n == self.pending@.len(),
                self.pending@.contains(e.id),
                forall|k: int| 0 <= k < i ==> self.pending@[k] != e.id,
            decreases self.pending@.len() - i,
        {
            proof {
                let k = choose|k: int| 0 <= k < self.pending@.len() && self.pending@[k] == e.id;
                assert(k > i);
            }
            i = i + 1;
        }
        let ghost p0 = self.pending@;
        assert(p0.index_of(e.id) == i) by {
            let k = p0.index_of(e.id);
            assert(0 <= k < p0.len() && p0[k] == e.id);
        }
        let _ = self.pending.swap_remove(i);
        proof {
            lemma_distinct_bounded(p0, self.meta@.len());
        }
        self.free_cursor = self.pending.len() as i64;
        self.len = self.len + 1;
        self.meta[e.id as usize] = EntityMeta {
            generation: e.generation,
            location: Location { archetype: 0, index: u32::MAX },
        };
        proof {
            let p1 = self.pending@;
            assert forall|j: int| 0 <= j < p1.len() implies #[trigger] p1[j] == (if j == i {
                p0[p0.len() - 1]
            } else {
                p0[j]
            }) by {}
            assert forall|j: int| 0 <= j < p1.len() implies {
                let k = #[trigger] p1[j];
                &&& k != e.id
                &&& k < self.meta@.len()
                &&& self.meta@[k as int].location == nowhere()
                &&& !limbo.insert(e.id).contains(k)
            } by {}
            assert forall|k: u32| p0.contains(k) && k != e.id implies p1.contains(k) by {
                let j = choose|j: int| 0 <= j < p0.len() && p0[j] == k;
                if j == p0.len() - 1 {
                    assert(p1[i as int] == k);
                } else {
                    assert(p1[j] == k);
                }
            }
            assert forall|x: Entity| self.located(x) <==> old(self).located(x) by {
                if x.id != e.id && (x.id as int) < self.meta@.len() {
                    assert(self.meta@[x.id as int] == old(self).meta@[x.id as int]);
                }
            }
            assert(self.live() =~= old(self).live());
            assert forall|id: u32|
                id < self.meta@.len() && (#[trigger] self.meta@[id as int]).location.index == u32::MAX implies {
                &&& self.meta@[id as int].location == nowhere()
                &&& p1.contains(id) || limbo.insert(e.id).contains(id)
            } by {
                if id != e.id {
                    assert(self.meta@[id as int] == old(self).meta@[id as int]);
                }
            }
        }
    }

    /// Forgets every entity and every ID.
    pub fn clear(&mut self)
        ensures
            final(self).wf(Set::empty()),
            final(self).metas() == Seq::<EntityMeta>::empty(),
            final(self).pending_ids() == Seq::<u32>::empty(),
            final(self).cursor() == 0,
            final(self).count() == 0,
            final(self).live() == Set::<Entity>::empty(),
    {
        self.meta.clear();
        self.pending.clear();
        self.free_cursor = 0;
        self.len = 0;
        assert(self.live() =~= Set::<Entity>::empty());
    }

    /// The reserved handles are distinct, and so are the free ones; none is both, or live.
    pub proof fn lemma_handles_distinct(&self, limbo: Set<u32>)
        requires
            self.wf(limbo),
        ensures
            self.reserved_view().no_duplicates(),
            self.freelist_view().no_duplicates(),
            self.reserved_view().len() == self.pending_ids().len() - self.cursor(),
            forall|i: int, j: int|
                0 <= i < self.reserved_view().len() && 0 <= j < self.freelist_view().len()
                    ==> self.reserved_view()[i].id != self.freelist_view()[j].id,
            forall|i: int, j: int|
                0 <= i < j < self.reserved_view().len() ==> self.reserved_view()[i].id != self.reserved_view()[j].id,
            forall|i: int, j: int|
                0 <= i < j < self.freelist_view().len() ==> self.freelist_view()[i].id != self.freelist_view()[j].id,
            forall|i: int, e: Entity|
                0 <= i < self.reserved_view().len() && self.live().contains(e) ==> (#[trigger] self.reserved_view()[i]).id
                    != (#[trigger] e.id),
            forall|i: int, e: Entity|
                0 <= i < self.freelist_view().len() && self.live().contains(e) ==> (#[trigger] self.freelist_view()[i]).id
                    != (#[trigger] e.id),
            forall|i: int| 0 <= i < self.reserved_view().len() ==> (#[trigger] self.reserved_view()[i]).id < self.next_id(),
            forall|i: int| 0 <= i < self.freelist_view().len() ==> (#[trigger] self.freelist_view()[i]).id < self.next_id(),
    {
        let n = self.metas().len() as int;
        let k = self.fresh_count() as int;
        let f = self.free_count() as int;
        let p = self.pending_ids();
        assert forall|i: int| 0 <= i < self.reserved_view().len() implies #[trigger] self.reserved_view()[i].id == (if i
            < k {
            n + i
        } else {
            p[f + i - k] as int
        }) by {
            if i >= k {
                assert(self.reserved_view()[i] == self.recycled()[i - k]);
            }
        }
        assert forall|i: int| 0 <= i < self.reserved_view().len() implies (if i < k {
            #[trigger] self.reserved_view()[i].id >= n
        } else {
            self.reserved_view()[i].id < n
        }) by {
            if i >= k {
                assert(p[f + i - k] < n);
            }
        }
        assert forall|i: int| 0 <= i < self.freelist_view().len() implies (#[trigger] self.freelist_view()[i]).id == p[i]
            && p[i] < n by {}
    }

    /// Reserves a handle without touching any record.
    pub fn reserve_entity(&mut self) -> (e: Entity)
        requires
            old(self).wf(Set::empty()),
            old(self).count() + old(self).pending_ids().len() - old(self).cursor() < u32::MAX,
            old(self).free_count() > 0 || old(self).next_id() <= u32::MAX,
        ensures
            final(self).wf(Set::empty()),
            final(self).metas() == old(self).metas(),
            final(self).pending_ids() == old(self).pending_ids(),
            final(self).cursor() == old(self).cursor() - 1,
            final(self).count() == old(self).count(),
            final(self).live() == old(self).live(),
            final(self).reserved_view().to_set() == old(self).reserved_view().to_set().insert(e),
            old(self).free_count() > 0 ==> {
                &&& e == old(self).freelist_view().last()
                &&& final(self).freelist_view() == old(self).freelist_view().drop_last()
                &&& final(self).next_id() == old(self).next_id()
            },
            old(self).free_count() == 0 ==> {
                &&& e.id == old(self).next_id()
                &&& e.generation == 1
                &&& final(self).freelist_view() == old(self).freelist_view()
                &&& final(self).next_id() == old(self).next_id() + 1
            },
    {
        let n: i64 = self.free_cursor;
        proof {
            lemma_distinct_bounded(self.pending@, self.meta@.len());
        }
        self.free_cursor = n - 1;
        let e: Entity = if n > 0 {
            let id: u32 = self.pending[(n - 1) as usize];
            Entity { id, generation: self.meta[id as usize].generation }
        } else {
            Entity { id: (self.meta.len() as i64 - n) as u32, generation: 1 }
        };
        proof {
            assert(self.live() =~= old(self).live());
            let r0 = old(self).reserved_view();
            let r1 = self.reserved_view();
            let at: int = if n > 0 { 0 } else { -n as int };
            assert(r1 =~= r0.insert(at, e));
            assert forall|x: Entity| r1.to_set().contains(x) <==> r0.to_set().insert(e).contains(x) by {
                if r0.contains(x) {
                    let i = choose|i: int| 0 <= i < r0.len() && r0[i] == x;
                    if i < at {
                        assert(r1[i] == x);
                    } else {
                        assert(r1[i + 1] == x);
                    }
                }
                if r1.contains(x) {
                    let i = choose|i: int| 0 <= i < r1.len() && r1[i] == x;
                    if i < at {
                        assert(r0[i] == x);
                    } else if i > at {
                        assert(r0[i - 1] == x);
                    }
                }
                assert(r1[at] == e);
            }
            assert(r1.to_set() =~= r0.to_set().insert(e));
            assert(n > 0 ==> self.freelist_view() =~= old(self).freelist_view().drop_last());
            assert(n <= 0 ==> self.freelist_view() =~= old(self).freelist_view());
        }
        e
    }

    /// Reserves `count` handles: those that became free last, in the order in which they did, and
    /// then new ones.
    pub fn reserve_entities(&mut self, count: u32) -> (r: Vec<Entity>)
        requires
            old(self).wf(Set::empty()),
            old(self).count() + old(self).pending_ids().len() - old(self).cursor() + count <= u32::MAX,
            count > old(self).free_count() ==> old(self).next_id() + count - old(self).free_count() <= 0x1_0000_0000,
        ensures
            final(self).wf(Set::empty()),
            final(self).metas() == old(self).metas(),
            final(self).pending_ids() == old(self).pending_ids(),
            final(self).cursor() == old(self).cursor() - count,
            final(self).count() == old(self).count(),
            final(self).live() == old(self).live(),
            final(self).reserved_view().to_set() == old(self).reserved_view().to_set().union(r@.to_set()),
            r@ == old(self).next_handles(count as nat),
            final(self).freelist_view() == old(self).freelist_view().subrange(
                0,
                old(self).free_count() - old(self).recycling(count as nat),
            ),
            final(self).next_id() == old(self).next_id() + count - old(self).recycling(count as nat),
    {
        proof {
            lemma_distinct_bounded(self.pending@, self.meta@.len());
        }
        let ghost k = self.recycling(count as nat) as int;
        let ghost f = self.free_count() as int;
        let ghost handles = self.next_handles(count as nat);
        let n: usize = self.pending.len();
        let range_end: i64 = self.free_cursor;
        let range_start: i64 = range_end - count as i64;
        self.free_cursor = range_start;
        let from: usize = if range_start > 0 {
            range_start as usize
        } else {
            0
        };
        let to: usize = if range_end > 0 {
            range_end as usize
        } else {
            0
        };
        let mut r: Vec<Entity> = Vec::new();
        let mut i: usize = from;
        while i < to
            invariant
                from <= i <= to <= self.pending@.len(),
                from == f - k,
                to == f,
                0 <= k <= handles.len(),
                self.pending@ == old(self).pending@,
                self.meta@ == old(self).meta@,
                old(self).wf(Set::empty()),
                r@ == handles.subrange(0, i - from),
                forall|j: int| 0 <= j < k ==> #[trigger] handles[j] == old(self).handle(old(self).pending@[f - k + j]),
            decreases to - i,
        {
            let id: u32 = self.pending[i];
            assert(handles[i - from] == old(self).handle(id));
            r.push(Entity { id, generation: self.meta[id as usize].generation });
            i = i + 1;
            assert(r@ =~= handles.subrange(0, i - from));
        }
        let base: i64 = self.meta.len() as i64;
        let mut fresh: i64 = if range_end < 0 {
            base - range_end
        } else {
            base
        };
        let fresh_end: i64 = if range_start < 0 {
            base - range_start
        } else {
            base
        };
        let ghost first = old(self).next_id() as int;
        while fresh < fresh_end
            invariant
                0 <= first <= fresh <= fresh_end <= 0x1_0000_0000,
                0 <= k <= handles.len(),
                handles.len() - k == fresh_end - first,
                forall|j: int| k <= j < handles.len() ==> #[trigger] handles[j] == (Entity {
                    id: (first + j - k) as u32,
                    generation: 1,
                }),
                r@ == handles.subrange(0, k + fresh - first),
            decreases fresh_end - fresh,
        {
            assert(handles[k + fresh - first].id == fresh);
            r.push(Entity { id: fresh as u32, generation: 1 });
            fresh = fresh + 1;
            assert(r@ =~= handles.subrange(0, k + fresh - first));
        }
        proof {
            assert(r@ =~= handles);
            assert(self.live() =~= old(self).live());
            self.lemma_reserved_more(old(self), count as nat);
        }
        r
    }

    /// What moving the cursor by `count` does to the free and the reserved handles.
    proof fn lemma_reserved_more(&self, before: &Entities, count: nat)
        requires
            before.wf(Set::empty()),
            self.metas() == before.metas(),
            self.pending_ids() == before.pending_ids(),
            self.cursor() == before.cursor() - count,
        ensures
            self.reserved_view().to_set() == before.reserved_view().to_set().union(before.next_handles(count).to_set()),
            self.freelist_view() == before.freelist_view().subrange(
                0,
                before.free_count() - before.recycling(count),
            ),
    {
        let handles = before.next_handles(count);
        let k = before.recycling(count) as int;
        let f = before.free_count() as int;
        let r0 = before.reserved_view();
        let r1 = self.reserved_view();
        let at = before.fresh_count() as int;
        let c = count as int;
        // New IDs go behind those reserved before, recycled ones before those recycled before.
        let parts = r0.subrange(0, at) + handles.subrange(k, c) + handles.subrange(0, k) + r0.subrange(
            at,
            r0.len() as int,
        );
        assert(r1.len() == parts.len());
        assert forall|i: int| 0 <= i < r1.len() implies r1[i] == parts[i] by {
            let k1 = self.fresh_count() as int;
            if i < k1 {
                assert(r1[i] == (Entity { id: (self.metas().len() + i) as u32, generation: 1 }));
            } else {
                assert(r1[i] == self.recycled()[i - k1]);
            }
        }
        assert forall|x: Entity| r1.contains(x) <==> r0.contains(x) || handles.contains(x) by {
            if r0.contains(x) {
                let j = choose|j: int| 0 <= j < r0.len() && r0[j] == x;
                if j < at {
                    assert(r1[j] == parts[j]);
                } else {
                    assert(r1[j + c] == parts[j + c]);
                }
            }
            if handles.contains(x) {
                let j = choose|j: int| 0 <= j < handles.len() && handles[j] == x;
                if j < k {
                    assert(r1[at + (c - k) + j] == parts[at + (c - k) + j]);
                } else {
                    assert(r1[at + j - k] == parts[at + j - k]);
                }
            }
            if r1.contains(x) {
                let j = choose|j: int| 0 <= j < r1.len() && r1[j] == x;
                assert(parts[j] == x);
                if j < at {
                    assert(r0[j] == x);
                } else if j < at + c - k {
                    assert(handles[j - at + k] == x);
                } else if j < at + c {
                    assert(handles[j - at - (c - k)] == x);
                } else {
                    assert(r0[j - c] == x);
                }
            }
        }
        assert(r1.to_set() =~= r0.to_set().union(handles.to_set()));
        assert(self.freelist_view() =~= before.freelist_view().subrange(0, f - k));
    }

    /// Which handles are reserved.
    pub proof fn lemma_reserved(&self, e: Entity)
        requires
            self.wf(Set::empty()),
        ensures
            self.reserved_view().contains(e) <==> {
                ||| self.metas().len() <= e.id < self.next_id() && e.generation == 1
                ||| e.id < self.metas().len() && self.metas()[e.id as int].generation == e.generation
                    && self.pending_ids().subrange(
                    self.free_count() as int,
                    self.pending_ids().len() as int,
                ).contains(e.id)
            },
    {
        let k = self.fresh_count() as int;
        let f = self.free_count() as int;
        let n = self.metas().len() as int;
        let rv = self.reserved_view();
        let tail = self.pending_ids().subrange(f, self.pending_ids().len() as int);
        if rv.contains(e) {
            let i = choose|i: int| 0 <= i < rv.len() && rv[i] == e;
            if i >= k {
                assert(rv[i] == self.recycled()[i - k]);
                assert(tail[i - k] == e.id);
                assert(self.pending_ids()[f + i - k] < n);
            }
        }
        if n <= e.id < self.next_id() && e.generation == 1 {
            assert(rv[e.id - n] == e);
        }
        if e.id < n && self.metas()[e.id as int].generation == e.generation && tail.contains(e.id) {
            let i = choose|i: int| 0 <= i < tail.len() && tail[i] == e.id;
            assert(rv[k + i] == self.recycled()[i]);
            assert(rv[k + i] == e);
        }
    }

    /// How many of `count` handles are taken from the free ones.
    pub open spec fn recycling(&self, count: nat) -> nat {
        if count <= self.free_count() {
            count
        } else {
            self.free_count()
        }
    }

    /// The handles that a request for `count` at once is given.
    pub open spec fn next_handles(&self, count: nat) -> Seq<Entity> {
        let k = self.recycling(count);
        self.freelist_view().subrange(self.free_count() - k, self.free_count() as int) + fresh_entities(
            self.next_id(),
            (count - k) as nat,
        )
    }

    /// Whether the entity is live or reserved.
    pub fn contains(&self, e: Entity) -> (r: bool)
        requires
            self.wf(Set::empty()),
        ensures
            r == (self.live().contains(e) || self.reserved_view().contains(e)),
    {
        match self.get(e) {
            Ok(_) => true,
            Err(_) => false,
        }
    }

    /// The location of a live entity; a reserved one is nowhere.
    pub fn get(&self, e: Entity) -> (r: Result<Location, NoSuchEntity>)
        requires
            self.wf(Set::empty()),
        ensures
            r == (if self.live().contains(e) {
                Ok::<Location, NoSuchEntity>(self.metas()[e.id as int].location)
            } else if self.reserved_view().contains(e) {
                Ok(nowhere())
            } else {
                Err(NoSuchEntity)
            }),
    {
        proof {
            lemma_distinct_bounded(self.pending@, self.meta@.len());
            self.lemma_reserved(e);
        }
        if self.meta.len() <= e.id as usize {
            let free: i64 = self.free_cursor;
            return if e.generation == 1 && free < 0 && (e.id as i64) < self.meta.len() as i64 - free {
                Ok(Location { archetype: 0, index: u32::MAX })
            } else {
                Err(NoSuchEntity)
            };
        }
        let meta: EntityMeta = self.meta[e.id as usize];
        if meta.generation != e.generation {
            Err(NoSuchEntity)
        } else if meta.location.index != u32::MAX {
            Ok(meta.location)
        } else if self.recycles(e.id) {
            Ok(Location { archetype: 0, index: u32::MAX })
        } else {
            Err(NoSuchEntity)
        }
    }

    /// Whether the ID was free and is reserved.
    fn recycles(&self, id: u32) -> (r: bool)
        requires
            self.wf(Set::empty()),
        ensures
            r == self.pending_ids().subrange(
                self.free_count() as int,
                self.pending_ids().len() as int,
            ).contains(id),
    {
        let ghost f = self.free_count() as int;
        let ghost tail = self.pending@.subrange(f, self.pending@.len() as int);
        let n: usize = self.pending.len();
        let mut i: usize = if self.free_cursor > 0 {
            self.free_cursor as usize
        } else {
            0
        };
        while i < n
            invariant
                0 <= f <= i <= n,
                f == self.free_count(),
                n == self.pending@.len(),
                tail == self.pending@.subrange(f, n as int),
                forall|j: int| 0 <= j < i - f ==> tail[j] != id,
            decreases n - i,
        {
            if self.pending[i] == id {
                assert(tail[i - f] == id);
                return true;
            }
            i = i + 1;
        }
        false
    }

    /// Allocates the IDs that were reserved: the new ones first, then the recycled ones.
    pub fn unreserve(&mut self) -> (ids: Vec<u32>)
        requires
            old(self).wf(Set::empty()),
        ensures
            final(self).wf(ids@.to_set()),
            final(self).flushed(),
            ids@.no_duplicates(),
            ids@.len() == old(self).reserved_view().len(),
            forall|i: int| 0 <= i < ids@.len() ==> final(self).handle(#[trigger] ids@[i]) == old(self).reserved_view()[i],
            forall|i: int| 0 <= i < ids@.len() ==> #[trigger] ids@[i] < final(self).metas().len(),
            final(self).metas() == old(self).metas() + Seq::new(old(self).fresh_count(), |i: int| unused()),
            final(self).pending_ids() == old(self).pending_ids().subrange(0, old(self).free_count() as int),
            final(self).live() == old(self).live(),
            final(self).count() == old(self).count() + ids@.len(),
    {
        proof {
            lemma_distinct_bounded(self.pending@, self.meta@.len());
            self.lemma_handles_distinct(Set::empty());
        }
        let ghost before = *self;
        let ghost base = self.meta@.len() as int;
        let ghost k = self.fresh_count() as int;
        let ghost f = self.free_count() as int;
        let ghost blank = Seq::new(k as nat, |i: int| unused());
        let mut ids: Vec<u32> = Vec::new();
        let mut fresh: i64 = if self.free_cursor < 0 {
            -self.free_cursor
        } else {
            0
        };
        while fresh > 0
            invariant
                0 <= fresh <= k,
                base + k <= 0x1_0000_0000,
                blank == Seq::new(k as nat, |i: int| unused()),
                self.meta@ == before.meta@ + blank.subrange(0, k - fresh),
                base == before.meta@.len(),
                self.pending@ == before.pending@,
                self.free_cursor == before.free_cursor,
                self.len == before.len,
                ids@.len() == k - fresh,
                forall|i: int| 0 <= i < ids@.len() ==> #[trigger] ids@[i] == base + i,
            decreases fresh,
        {
            let id: u32 = self.meta.len() as u32;
            ids.push(id);
            self.meta.push(
                EntityMeta { generation: 1, location: Location { archetype: 0, index: u32::MAX } },
            );
            fresh = fresh - 1;
            assert(self.meta@ =~= before.meta@ + blank.subrange(0, k - fresh));
        }
        assert(blank.subrange(0, k) =~= blank);
        let n: usize = self.pending.len();
        let free: usize = if self.free_cursor < 0 {
            0
        } else {
            self.free_cursor as usize
        };
        let mut i: usize = free;
        while i < n
            invariant
                0 <= k,
                f == free,
                free <= i <= n,
                n == before.pending@.len(),
                self.meta@ == before.meta@ + blank,
                self.pending@ == before.pending@,
                self.free_cursor == before.free_cursor,
                self.len == before.len,
                ids@.len() == k + i - free,
                forall|j: int| 0 <= j < k ==> #[trigger] ids@[j] == base + j,
                forall|j: int| k <= j < ids@.len() ==> #[trigger] ids@[j] == before.pending@[f + j - k],
            decreases n - i,
        {
            ids.push(self.pending[i]);
            i = i + 1;
        }
        self.pending.truncate(free);
        self.free_cursor = free as i64;
        proof {
            before.lemma_unreserved(self, ids@);
        }
        self.len = self.len + ids.len() as u32;
        proof {
            ids@.unique_seq_to_set();
            assert(self.live() =~= before.live());
        }
        ids
    }

    /// Turning the reserved IDs into allocated ones keeps the records in order.
    proof fn lemma_unreserved(&self, after: &Entities, ids: Seq<u32>)
        requires
            self.wf(Set::empty()),
            after.metas() == self.metas() + Seq::new(self.fresh_count(), |i: int| unused()),
            after.pending_ids() == self.pending_ids().subrange(0, self.free_count() as int),
            after.cursor() == self.free_count(),
            ids.len() == self.reserved_view().len(),
            forall|j: int| 0 <= j < self.fresh_count() ==> #[trigger] ids[j] == self.metas().len() + j,
            forall|j: int|
                self.fresh_count() <= j < ids.len() ==> #[trigger] ids[j] == self.pending_ids()[self.free_count() + j
                    - self.fresh_count()],
        ensures
            ids.no_duplicates(),
            after.live() == self.live(),
            after.pending_ids().no_duplicates(),
            forall|i: int| 0 <= i < after.pending_ids().len() ==> {
                let id = #[trigger] after.pending_ids()[i];
                &&& id < after.metas().len()
                &&& after.metas()[id as int].location == nowhere()
                &&& !ids.contains(id)
            },
            forall|i: int| 0 <= i < ids.len() ==> {
                &&& #[trigger] ids[i] < after.metas().len()
                &&& after.metas()[ids[i] as int].location == nowhere()
                &&& after.handle(ids[i]) == self.reserved_view()[i]
            },
            forall|id: u32|
                id < after.metas().len() && (#[trigger] after.metas()[id as int]).location.index == u32::MAX ==> {
                    &&& after.metas()[id as int].location == nowhere()
                    &&& after.pending_ids().contains(id) || ids.contains(id)
                },
    {
        let base = self.metas().len() as int;
        let k = self.fresh_count() as int;
        let f = self.free_count() as int;
        let p = self.pending_ids();
        assert forall|i: int| 0 <= i < ids.len() implies {
            &&& #[trigger] ids[i] < after.metas().len()
            &&& (i < k ==> ids[i] >= base)
            &&& (i >= k ==> ids[i] < base)
            &&& after.metas()[ids[i] as int].location == nowhere()
            &&& after.handle(ids[i]) == self.reserved_view()[i]
        } by {
            if i >= k {
                assert(p[f + i - k] < base);
                assert(self.reserved_view()[i] == self.recycled()[i - k]);
                assert(after.metas()[ids[i] as int] == self.metas()[ids[i] as int]);
            }
        }
        assert forall|i: int, j: int| 0 <= i < j < ids.len() implies ids[i] != ids[j] by {}
        after.lemma_grown_live(self);
        assert forall|i: int| 0 <= i < after.pending_ids().len() implies {
            let id = #[trigger] after.pending_ids()[i];
            &&& id < after.metas().len()
            &&& after.metas()[id as int].location == nowhere()
            &&& !ids.contains(id)
        } by {
            let id = after.pending_ids()[i];
            assert(p[i] == id);
            assert(after.metas()[id as int] == self.metas()[id as int]);
            if ids.contains(id) {
                let j = choose|j: int| 0 <= j < ids.len() && ids[j] == id;
                if j >= k {
                    assert(p[f + j - k] == id);
                }
            }
        }
        assert forall|id: u32|
            id < after.metas().len() && (#[trigger] after.metas()[id as int]).location.index == u32::MAX implies {
            &&& after.metas()[id as int].location == nowhere()
            &&& after.pending_ids().contains(id) || ids.contains(id)
        } by {
            if id < base {
                assert(after.metas()[id as int] == self.metas()[id as int]);
                assert(p.contains(id));
                let i = choose|i: int| 0 <= i < p.len() && p[i] == id;
                if i < f {
                    assert(after.pending_ids()[i] == id);
                } else {
                    assert(ids[k + i - f] == id);
                }
            } else {
                assert(ids[id - base] == id);
            }
        }
    }

    /// Handles given out at once have different IDs.
    pub proof fn lemma_next_handles_distinct(&self, count: nat)
        requires
            self.wf(Set::empty()),
            count > self.free_count() ==> self.next_id() + count - self.free_count() <= 0x1_0000_0000,
        ensures
            forall|i: int, j: int|
                0 <= i < j < count ==> self.next_handles(count)[i].id != self.next_handles(count)[j].id,
    {
        let k = self.recycling(count) as int;
        let f = self.free_count() as int;
        let handles = self.next_handles(count);
        self.lemma_handles_distinct(Set::empty());
        assert forall|i: int, j: int| 0 <= i < j < count implies handles[i].id != handles[j].id by {
            if i < k {
                assert(handles[i] == self.freelist_view()[f - k + i]);
            } else {
                assert(handles[i].id == self.next_id() + i - k);
            }
            if j < k {
                assert(handles[j] == self.freelist_view()[f - k + j]);
            } else {
                assert(handles[j].id == self.next_id() + j - k);
            }
        }
    }

    /// Allocates `count` IDs: those that became free last, in the order in which they did, and
    /// then new ones.
    pub fn alloc_many(&mut self, count: u32) -> (ids: Vec<u32>)
        requires
            old(self).wf(Set::empty()),
            old(self).flushed(),
            old(self).count() + count <= u32::MAX,
            count > old(self).free_count() ==> old(self).next_id() + count - old(self).free_count() <= 0x1_0000_0000,
        ensures
            final(self).wf(ids@.to_set()),
            final(self).flushed(),
            ids@.no_duplicates(),
            ids@.len() == count,
            forall|i: int| 0 <= i < ids@.len() ==> final(self).handle(#[trigger] ids@[i]) == old(self).next_handles(count as nat)[i],
            forall|i: int| 0 <= i < ids@.len() ==> #[trigger] ids@[i] < final(self).metas().len(),
            final(self).metas() == old(self).metas() + Seq::new(
                (count - old(self).recycling(count as nat)) as nat,
                |i: int| unused(),
            ),
            final(self).pending_ids() == old(self).pending_ids().subrange(
                0,
                old(self).free_count() - old(self).recycling(count as nat),
            ),
            final(self).live() == old(self).live(),
            final(self).count() == old(self).count() + count,
    {
        let ghost before = *self;
        let ghost handles = self.next_handles(count as nat);
        let ghost k = self.recycling(count as nat) as int;
        proof {
            lemma_distinct_bounded(self.pending@, self.meta@.len());
        }
        let reserved = self.reserve_entities(count);
        let ghost middle = *self;
        let allocated = self.unreserve();
        let mut ids: Vec<u32> = Vec::new();
        let mut i: usize = 0;
        while i < reserved.len()
            invariant
                i <= reserved@.len(),
                ids@.len() == i,
                forall|j: int| 0 <= j < i ==> #[trigger] ids@[j] == reserved@[j].id,
            decreases reserved@.len() - i,
        {
            ids.push(reserved[i].id);
            i = i + 1;
        }
        proof {
            assert(before.reserved_view() =~= Seq::<Entity>::empty());
            let rv = middle.reserved_view();
            assert(rv.to_set() =~= handles.to_set());
            assert forall|i: int| 0 <= i < ids@.len() implies {
                &&& self.handle(#[trigger] ids@[i]) == handles[i]
                &&& ids@[i] < self.metas().len()
                &&& allocated@.contains(ids@[i])
            } by {
                assert(handles.to_set().contains(handles[i]));
                assert(rv.contains(handles[i]));
                let j = choose|j: int| 0 <= j < rv.len() && rv[j] == handles[i];
                assert(self.handle(allocated@[j]) == rv[j]);
            }
            assert forall|j: int| 0 <= j < allocated@.len() implies ids@.contains(#[trigger] allocated@[j]) by {
                assert(self.handle(allocated@[j]) == rv[j]);
                assert(rv.to_set().contains(rv[j]));
                assert(handles.contains(rv[j]));
                let i = choose|i: int| 0 <= i < handles.len() && handles[i] == rv[j];
                assert(ids@[i] == allocated@[j]);
            }
            assert(ids@.to_set() =~= allocated@.to_set());
            before.lemma_next_handles_distinct(count as nat);
        }
        ids
    }

    /// The handles that will be given to entities, the last one first.
    pub fn freelist(&self) -> (r: Vec<Entity>)
        requires
            self.wf(Set::empty()),
        ensures
            r@ == self.freelist_view(),
    {
        let mut r: Vec<Entity> = Vec::new();
        let n: usize = self.pending.len();
        let free: usize = if self.free_cursor < 0 {
            0
        } else {
            self.free_cursor as usize
        };
        let mut i: usize = 0;
        while i < free
            invariant
                self.wf(Set::empty()),
                free == self.free_count(),
                i <= free <= self.pending@.len(),
                r@ == self.freelist_view().subrange(0, i as int),
            decreases free - i,
        {
            let id: u32 = self.pending[i];
            r.push(Entity { id, generation: self.meta[id as usize].generation });
            i = i + 1;
            assert(r@ =~= self.freelist_view().subrange(0, i as int));
        }
        assert(r@ =~= self.freelist_view());
        r
    }

    /// How many records `additional` entities need beyond those of the IDs that are free.
    pub fn shortfall(&self, additional: u32) -> (r: u32)
        ensures
            r == (if additional <= self.free_count() {
                0
            } else {
                additional - self.free_count()
            }),
    {
        let shortfall: i64 = if self.free_cursor > 0 {
            additional as i64 - self.free_cursor
        } else {
            additional as i64
        };
        if shortfall > 0 {
            shortfall as u32
        } else {
            0
        }
    }

    /// Makes room for the records of `additional` entities, of which as many as `shortfall` says are
    /// new. How much memory is held is left unsaid.
    pub fn reserve(&mut self, additional: u32)
        ensures
            final(self).metas() == old(self).metas(),
            final(self).pending_ids() == old(self).pending_ids(),
            final(self).cursor() == old(self).cursor(),
            final(self).count() == old(self).count(),
            final(self).live() == old(self).live(),
    {
        let shortfall: u32 = self.shortfall(additional);
        if shortfall > 0 {
            self.meta.reserve(shortfall as usize);
        }
        assert(self.live() =~= old(self).live());
    }

    /// Whether a live entity has the ID.
    pub open spec fn uses(&self, id: u32) -> bool {
        id < self.metas().len() && self.metas()[id as int].location.index != u32::MAX
    }

    /// The IDs of `list`, each listed once, are those that no entity uses, up to the largest ID that
    /// is used or listed.
    pub open spec fn accepts(&self, list: Seq<Entity>) -> bool {
        let ids = ids_of(list);
        &&& ids.no_duplicates()
        &&& forall|i: int| 0 <= i < ids.len() ==> !self.uses(#[trigger] ids[i])
        &&& forall|x: u32, id: u32|
            id <= x && (#[trigger] self.uses(x) || ids.contains(x)) ==> #[trigger] self.uses(id) || ids.contains(id)
    }

    /// The IDs that are used or listed are the first ones, without a gap.
    proof fn lemma_no_gap(&self, list: Seq<Entity>)
        requires
            self.wf(Set::empty()),
            self.accepts(list),
        ensures
            self.count() + list.len() <= 0x1_0000_0000,
            forall|id: u32| id < self.count() + list.len() <==> #[trigger] self.uses(id) || ids_of(list).contains(id),
    {
        let ids = ids_of(list);
        let number = |e: Entity| e.id as int;
        let used = self.live().map(number);
        let listed = ids.map_values(|id: u32| id as int).to_set();
        let all = used.union(listed);
        let n = self.count() + list.len();
        assert(injective_on(number, self.live())) by {
            assert forall|a: Entity, b: Entity|
                self.live().contains(a) && self.live().contains(b) && #[trigger] number(a) == #[trigger] number(b) implies a == b by {}
        }
        lemma_map_size(self.live(), used, number);
        assert forall|id: u32| used.contains(id as int) <==> #[trigger] self.uses(id) by {
            if self.uses(id) {
                assert(self.live().contains(self.handle(id)));
                assert(number(self.handle(id)) == id);
            }
            if used.contains(id as int) {
                let e = choose|e: Entity| self.live().contains(e) && number(e) == id as int;
                assert(e.id == id);
            }
        }
        let numbers = ids.map_values(|id: u32| id as int);
        assert(numbers.no_duplicates()) by {
            assert forall|i: int, j: int| 0 <= i < numbers.len() && 0 <= j < numbers.len() && i != j implies numbers[i] != numbers[j] by {
                assert(ids[i] != ids[j]);
            }
        }
        numbers.unique_seq_to_set();
        assert forall|id: u32| listed.contains(id as int) <==> #[trigger] ids.contains(id) by {
            if ids.contains(id) {
                let i = choose|i: int| 0 <= i < ids.len() && ids[i] == id;
                assert(numbers[i] == id as int);
            }
            if listed.contains(id as int) {
                let i = choose|i: int| 0 <= i < numbers.len() && numbers[i] == id as int;
                assert(ids[i] == id);
            }
        }
        assert forall|x: int| #[trigger] all.contains(x) implies 0 <= x <= u32::MAX by {
            if used.contains(x) {
                let e = choose|e: Entity| self.live().contains(e) && number(e) == x;
            } else {
                let i = choose|i: int| 0 <= i < numbers.len() && numbers[i] == x;
            }
        }
        assert(used.disjoint(listed)) by {
            assert forall|x: int| used.contains(x) implies !listed.contains(x) by {
                assert(all.contains(x));
                let id = x as u32;
                assert(self.uses(id));
                if listed.contains(x) {
                    assert(ids.contains(id));
                    let i = choose|i: int| 0 <= i < ids.len() && ids[i] == id;
                }
            }
        }
        lemma_set_disjoint_lens(used, listed);
        assert(all.len() == n);
        assert forall|x: int| #[trigger] all.contains(x) implies 0 <= x < n by {
            lemma_int_range(0, x + 1);
            assert(set_int_range(0, x + 1).subset_of(all)) by {
                assert forall|y: int| set_int_range(0, x + 1).contains(y) implies all.contains(y) by {
                    assert(self.uses(x as u32) || ids.contains(x as u32));
                    assert(self.uses(y as u32) || ids.contains(y as u32));
                }
            }
            lemma_len_subset(set_int_range(0, x + 1), all);
        }
        lemma_int_range(0, n as int);
        assert(all.subset_of(set_int_range(0, n as int)));
        lemma_subset_equality(all, set_int_range(0, n as int));
        if n > 0 {
            assert(all.contains(n - 1));
        }
        assert forall|id: u32| id < n <==> #[trigger] self.uses(id) || ids.contains(id) by {
            assert(all.contains(id as int) <==> set_int_range(0, n as int).contains(id as int));
        }
    }

    /// Replaces the free handles.
    ///
    /// IDs that are neither in use nor listed count as never used.
    pub fn set_freelist(&mut self, list: &[Entity])
        requires
            old(self).wf(Set::empty()),
            old(self).flushed(),
            old(self).accepts(list@),
        ensures
            final(self).wf(Set::empty()),
            final(self).flushed(),
            final(self).freelist_view() == list@,
            final(self).pending_ids() == ids_of(list@),
            final(self).live() == old(self).live(),
            final(self).count() == old(self).count(),
            final(self).metas().len() == old(self).count() + list@.len(),
            forall|id: int|
                0 <= id < final(self).metas().len() && (#[trigger] final(self).metas()[id]).location.index != u32::MAX
                    ==> id < old(self).metas().len() && final(self).metas()[id] == old(self).metas()[id],
            forall|id: int|
                0 <= id < old(self).metas().len() && (#[trigger] old(self).metas()[id]).location.index != u32::MAX
                    ==> id < final(self).metas().len() && final(self).metas()[id] == old(self).metas()[id],
    {
        let ghost before = *self;
        let ghost ids = ids_of(list@);
        let ghost n0 = self.meta@.len() as int;
        proof {
            self.lemma_no_gap(list@);
        }
        let n: u64 = self.len as u64 + list.len() as u64;
        while (self.meta.len() as u64) > n
            invariant
                n <= 0x1_0000_0000,
                n0 == before.meta@.len(),
                self.meta@.len() <= n0,
                n <= self.meta@.len() || self.meta@.len() == n0,
                forall|id: int| 0 <= id < self.meta@.len() ==> #[trigger] self.meta@[id] == before.meta@[id],
                self.len == before.len,
            decreases self.meta@.len(),
        {
            let _ = self.meta.pop();
        }
        while (self.meta.len() as u64) < n
            invariant
                n <= 0x1_0000_0000,
                n0 == before.meta@.len(),
                self.meta@.len() <= n,
                n0 <= self.meta@.len() || self.meta@.len() == n,
                forall|id: int|
                    0 <= id < self.meta@.len() ==> #[trigger] self.meta@[id] == (if id < n0 {
                        before.meta@[id]
                    } else {
                        unused()
                    }),
                self.len == before.len,
            decreases n - self.meta@.len(),
        {
            self.meta.push(
                EntityMeta { generation: 1, location: Location { archetype: 0, index: u32::MAX } },
            );
        }
        self.pending.clear();
        let mut i: usize = 0;
        while i < list.len()
            invariant
                i <= list@.len(),
                ids == ids_of(list@),
                ids.no_duplicates(),
                n0 == before.meta@.len(),
                before.wf(Set::empty()),
                before.accepts(list@),
                forall|id: u32| id < n <==> #[trigger] before.uses(id) || ids.contains(id),
                self.len == before.len,
                self.meta@.len() == n,
                self.pending@ == ids.subrange(0, i as int),
                forall|j: int| 0 <= j < i ==> self.meta@[(#[trigger] ids[j]) as int] == (EntityMeta {
                    generation: list@[j].generation,
                    location: nowhere(),
                }),
                forall|id: u32| id < n && #[trigger] before.uses(id) ==> self.meta@[id as int] == before.meta@[id as int],
                forall|id: u32| id < n && !(#[trigger] before.uses(id)) ==> self.meta@[id as int].location == nowhere(),
            decreases list@.len() - i,
        {
            let e: Entity = list[i];
            assert(ids[i as int] == e.id);
            assert(ids.contains(e.id));
            assert(!before.uses(ids[i as int]));
            self.pending.push(e.id);
            self.meta[e.id as usize] = EntityMeta {
                generation: e.generation,
                location: Location { archetype: 0, index: u32::MAX },
            };
            i = i + 1;
            assert(self.pending@ =~= ids.subrange(0, i as int));
        }
        assert(self.pending@ =~= ids);
        proof {
            assert forall|j: int| 0 <= j < ids.len() implies #[trigger] ids[j] < n by {
                assert(ids.contains(ids[j]));
                assert(!before.uses(ids[j]));
            }
            lemma_distinct_bounded(self.pending@, self.meta@.len());
        }
        self.free_cursor = self.pending.len() as i64;
        proof {
            assert forall|id: int| 0 <= id < self.meta@.len() && (#[trigger] self.meta@[id]).location.index != u32::MAX implies id
                < before.meta@.len() && self.meta@[id] == before.meta@[id] by {
                assert(before.uses(id as u32));
            }
            assert forall|id: int| 0 <= id < before.meta@.len() && (#[trigger] before.meta@[id]).location.index != u32::MAX implies id
                < self.meta@.len() && self.meta@[id] == before.meta@[id] by {
                assert(before.uses(id as u32));
            }
            assert forall|e: Entity| self.located(e) <==> before.located(e) by {
                if (e.id as int) < self.meta@.len() && self.meta@[e.id as int].location.index != u32::MAX {
                    assert(self.meta@[e.id as int] == before.meta@[e.id as int]);
                }
                if (e.id as int) < before.meta@.len() && before.meta@[e.id as int].location.index != u32::MAX {
                    assert(self.meta@[e.id as int] == before.meta@[e.id as int]);
                }
            }
            assert(self.live() =~= before.live());
            assert forall|id: u32|
                id < self.meta@.len() && (#[trigger] self.meta@[id as int]).location.index == u32::MAX implies {
                &&& self.meta@[id as int].location == nowhere()
                &&& self.pending@.contains(id)
            } by {
                if before.uses(id) {
                    assert(self.meta@[id as int] == before.meta@[id as int]);
                }
            }
            assert(self.freelist_view() =~= list@) by {
                assert forall|j: int| 0 <= j < list@.len() implies self.freelist_view()[j] == list@[j] by {
                    assert(ids[j] == list@[j].id);
                }
            }
        }
    }

    /// The handles depend on the records' generations alone.
    pub proof fn lemma_same_handles(&self, before: &Entities, limbo: Set<u32>)
        requires
            before.wf(limbo),
            self.same_but_locations(before),
        ensures
            self.freelist_view() == before.freelist_view(),
            self.reserved_view() == before.reserved_view(),
            self.next_id() == before.next_id(),
    {
        assert(self.freelist_view() =~= before.freelist_view());
        assert(self.recycled() =~= before.recycled());
        assert(self.reserved_view() =~= before.reserved_view());
    }

    /// The handle of an ID that is live or reserved.
    pub fn resolve_unknown_gen(&self, id: u32) -> (e: Entity)
        requires
            self.wf(Set::empty()),
            exists|e: Entity|
                (#[trigger] self.live().contains(e) || self.reserved_view().contains(e)) && e.id == id,
        ensures
            self.live().contains(e) || self.reserved_view().contains(e),
            e.id == id,
    {
        let ghost known = choose|e: Entity|
            (#[trigger] self.live().contains(e) || self.reserved_view().contains(e)) && e.id == id;
        proof {
            self.lemma_reserved(known);
        }
        let e: Entity = if (id as usize) < self.meta.len() {
            Entity { id, generation: self.meta[id as usize].generation }
        } else {
            Entity { id, generation: 1 }
        };
        assert(e == known);
        e
    }
}

} // verus!

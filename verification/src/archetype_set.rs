//! The archetypes of a world, found by their component types.
use vstd::prelude::*;

use crate::archetype::Archetype;
use crate::maps::{type_set_entries, TypeSetIndex};
use crate::types::{copy_types, increasing, insert_sorted, lemma_increasing_unique, TypeId};

verus! {

/// The list with `types` behind it, unless it is listed already.
pub open spec fn with_types(list: Seq<Set<TypeId>>, types: Set<TypeId>) -> Seq<Set<TypeId>> {
    if list.contains(types) {
        list
    } else {
        list.push(types)
    }
}

/// Metadata for inserting components into entities from one archetype.
pub struct InsertTarget {
    /// Components that are inserted.
    inserted: Vec<TypeId>,
    /// Components from the current archetype that are moved by the insert; the others are
    /// overwritten.
    retained: Vec<TypeId>,
    /// Position of the target archetype.
    index: u32,
}

impl InsertTarget {
    pub closed spec fn inserted_view(&self) -> Seq<TypeId> {
        self.inserted@
    }

    pub closed spec fn retained_view(&self) -> Seq<TypeId> {
        self.retained@
    }

    pub closed spec fn index_view(&self) -> u32 {
        self.index
    }

    /// Says correctly what happens to an entity with the types `source`, among archetypes of the
    /// types `lists`.
    pub open spec fn leads_from(&self, source: Seq<TypeId>, lists: Seq<Seq<TypeId>>) -> bool {
        &&& increasing(self.inserted_view())
        &&& increasing(self.retained_view())
        &&& self.retained_view().to_set() == source.to_set().difference(self.inserted_view().to_set())
        &&& self.index_view() < lists.len()
        &&& increasing(lists[self.index_view() as int])
        &&& lists[self.index_view() as int].to_set() == source.to_set().union(self.inserted_view().to_set())
    }

    pub fn inserted(&self) -> (r: &Vec<TypeId>)
        ensures
            r@ == self.inserted_view(),
    {
        &self.inserted
    }

    pub fn retained(&self) -> (r: &Vec<TypeId>)
        ensures
            r@ == self.retained_view(),
    {
        &self.retained
    }

    pub fn index(&self) -> (r: u32)
        ensures
            r == self.index_view(),
    {
        self.index
    }

    pub fn copy(&self) -> (r: InsertTarget)
        ensures
            r.inserted_view() == self.inserted_view(),
            r.retained_view() == self.retained_view(),
            r.index_view() == self.index_view(),
    {
        InsertTarget {
            inserted: copy_types(&self.inserted),
            retained: copy_types(&self.retained),
            index: self.index,
        }
    }
}

/// The archetypes, in order of creation; the first one has no component types.
pub struct ArchetypeSet<V> {
    /// Maps sorted component type sets to archetypes.
    index: TypeSetIndex,
    archetypes: Vec<Archetype<V>>,
}

impl<V> ArchetypeSet<V> {
    pub closed spec fn archs(&self) -> Seq<Archetype<V>> {
        self.archetypes@
    }

    pub closed spec fn entries(&self) -> Map<Seq<TypeId>, u32> {
        type_set_entries(self.index)
    }

    /// The component types of each archetype.
    pub open spec fn type_lists(&self) -> Seq<Seq<TypeId>> {
        self.archs().map_values(|a: Archetype<V>| a.types_view())
    }

    pub open spec fn type_sets(&self) -> Seq<Set<TypeId>> {
        self.archs().map_values(|a: Archetype<V>| a.types_view().to_set())
    }

    /// No two archetypes have the same component types, and the index finds each.
    pub open spec fn wf(&self) -> bool {
        &&& 1 <= self.archs().len() <= u32::MAX
        &&& self.archs()[0].types_view().len() == 0
        &&& forall|i: int| 0 <= i < self.archs().len() ==> (#[trigger] self.archs()[i]).wf()
        &&& forall|i: int|
            0 <= i < self.archs().len() ==> {
                let types = (#[trigger] self.archs()[i]).types_view();
                self.entries().contains_key(types) && self.entries()[types] == i
            }
        &&& forall|types: Seq<TypeId>| #[trigger]
            self.entries().contains_key(types) ==> {
                &&& self.entries()[types] < self.archs().len()
                &&& self.archs()[self.entries()[types] as int].types_view() == types
            }
    }

    /// An archetype of these types exists or can be added.
    pub open spec fn has_room(&self, types: Set<TypeId>) -> bool {
        self.type_sets().contains(types) || self.archs().len() < u32::MAX
    }

    /// The archetypes have distinct sets of types.
    pub proof fn lemma_type_sets(&self)
        requires
            self.wf(),
        ensures
            self.type_sets().no_duplicates(),
            self.type_sets().len() == self.archs().len(),
            self.type_sets()[0] == Set::<TypeId>::empty(),
    {
        let sets = self.type_sets();
        assert forall|i: int, j: int| 0 <= i < sets.len() && 0 <= j < sets.len() && i != j implies sets[i] != sets[j] by {
            if sets[i] == sets[j] {
                self.archs()[i].lemma_shape();
                self.archs()[j].lemma_shape();
                lemma_increasing_unique(self.archs()[i].types_view(), self.archs()[j].types_view());
            }
        }
        assert(self.archs()[0].types_view() =~= Seq::<TypeId>::empty());
        assert(sets[0] =~= Set::<TypeId>::empty());
    }

    /// The index finds a set of types if and only if an archetype has it.
    pub proof fn lemma_found(&self, types: Seq<TypeId>)
        requires
            self.wf(),
            increasing(types),
        ensures
            self.entries().contains_key(types) <==> self.type_sets().contains(types.to_set()),
    {
        if self.entries().contains_key(types) {
            assert(self.type_sets()[self.entries()[types] as int] == types.to_set());
        }
        if self.type_sets().contains(types.to_set()) {
            let i = choose|i: int| 0 <= i < self.type_sets().len() && self.type_sets()[i] == types.to_set();
            self.archs()[i].lemma_shape();
            lemma_increasing_unique(self.archs()[i].types_view(), types);
        }
    }

    /// Archetypes may change but for their types.
    pub proof fn lemma_same_types(&self, before: &ArchetypeSet<V>)
        requires
            before.wf(),
            self.entries() == before.entries(),
            self.archs().len() == before.archs().len(),
            forall|i: int|
                0 <= i < self.archs().len() ==> {
                    &&& (#[trigger] self.archs()[i]).wf()
                    &&& self.archs()[i].types_view() == before.archs()[i].types_view()
                },
        ensures
            self.wf(),
            self.type_sets() == before.type_sets(),
            self.type_lists() == before.type_lists(),
    {
        assert(self.type_sets() =~= before.type_sets());
        assert(self.type_lists() =~= before.type_lists());
    }

    pub fn new() -> (r: Self)
        ensures
            r.wf(),
            r.archs().len() == 1,
            r.archs()[0].ids_view().len() == 0,
            r.type_sets() == seq![Set::<TypeId>::empty()],
    {
        // Reserved entities become entities of the first archetype, which has no component types.
        let mut index = TypeSetIndex::new();
        let _ = index.insert(Vec::new(), 0);
        let mut archetypes: Vec<Archetype<V>> = Vec::new();
        archetypes.push(Archetype::new(Vec::new()));
        let r = ArchetypeSet { index, archetypes };
        proof {
            assert forall|types: Seq<TypeId>| #[trigger] r.entries().contains_key(types) implies types =~= Seq::<TypeId>::empty() by {}
            assert(r.archs()[0].types_view() =~= Seq::<TypeId>::empty());
            assert(r.type_sets() =~= seq![Set::<TypeId>::empty()]) by {
                assert(r.type_sets()[0] =~= Set::<TypeId>::empty());
            }
        }
        r
    }

    /// Find the archetype that has exactly these component types, or add it.
    pub fn get(&mut self, types: &Vec<TypeId>) -> (r: u32)
        requires
            old(self).wf(),
            increasing(types@),
            old(self).has_room(types@.to_set()),
        ensures
            final(self).wf(),
            r < final(self).archs().len(),
            final(self).archs()[r as int].types_view() == types@,
            final(self).type_sets() == with_types(old(self).type_sets(), types@.to_set()),
            old(self).archs().len() <= final(self).archs().len() <= old(self).archs().len() + 1,
            forall|i: int| 0 <= i < old(self).archs().len() ==> final(self).archs()[i] == #[trigger] old(self).archs()[i],
            forall|i: int|
                old(self).archs().len() <= i < final(self).archs().len() ==> (#[trigger] final(self).archs()[i]).ids_view().len() == 0,
    {
        proof {
            self.lemma_found(types@);
        }
        match self.index.get(types.as_slice()) {
            Some(i) => i,
            None => self.insert(copy_types(types)),
        }
    }

    fn insert(&mut self, types: Vec<TypeId>) -> (r: u32)
        requires
            old(self).wf(),
            increasing(types@),
            !old(self).entries().contains_key(types@),
            old(self).archs().len() < u32::MAX,
        ensures
            final(self).wf(),
            r == old(self).archs().len(),
            final(self).archs().len() == old(self).archs().len() + 1,
            final(self).archs()[r as int].types_view() == types@,
            final(self).archs()[r as int].ids_view().len() == 0,
            final(self).type_sets() == old(self).type_sets().push(types@.to_set()),
            forall|i: int| 0 <= i < old(self).archs().len() ==> final(self).archs()[i] == #[trigger] old(self).archs()[i],
    {
        let x: u32 = self.archetypes.len() as u32;
        let key = copy_types(&types);
        self.archetypes.push(Archetype::new(types));
        let _ = self.index.insert(key, x);
        assert(self.type_sets() =~= old(self).type_sets().push(types@.to_set()));
        x
    }

    /// Adds the entities of `archetype` to those that have the same component types.
    ///
    /// Returns the position of their archetype and the row of the first one.
    pub fn insert_batch(&mut self, archetype: Archetype<V>) -> (r: (u32, u32))
        requires
            old(self).wf(),
            archetype.wf(),
            old(self).has_room(archetype.types_view().to_set()),
            forall|i: int|
                0 <= i < old(self).archs().len() ==> (#[trigger] old(self).archs()[i]).ids_view().len()
                    + archetype.ids_view().len() <= u32::MAX,
        ensures
            final(self).wf(),
            r.0 < final(self).archs().len(),
            final(self).archs()[r.0 as int].types_view() == archetype.types_view(),
            final(self).type_sets() == with_types(old(self).type_sets(), archetype.types_view().to_set()),
            old(self).archs().len() <= final(self).archs().len() <= old(self).archs().len() + 1,
            r.0 < old(self).archs().len() ==> {
                &&& final(self).archs().len() == old(self).archs().len()
                &&& old(self).archs()[r.0 as int].types_view() == archetype.types_view()
                &&& r.1 == old(self).archs()[r.0 as int].ids_view().len()
                &&& final(self).archs()[r.0 as int].ids_view() == old(self).archs()[r.0 as int].ids_view()
                    + archetype.ids_view()
                &&& final(self).archs()[r.0 as int].rows() == old(self).archs()[r.0 as int].rows() + archetype.rows()
            },
            r.0 >= old(self).archs().len() ==> {
                &&& r.1 == 0
                &&& final(self).archs()[r.0 as int].ids_view() == archetype.ids_view()
                &&& final(self).archs()[r.0 as int].rows() == archetype.rows()
            },
            forall|i: int|
                0 <= i < old(self).archs().len() && i != r.0 ==> final(self).archs()[i] == #[trigger] old(self).archs()[i],
    {
        proof {
            archetype.lemma_shape();
            self.lemma_found(archetype.types_view());
        }
        match self.index.get(archetype.types().as_slice()) {
            Some(x) => {
                // Duplicate of existing archetype
                let base: u32 = self.archetypes[x as usize].len();
                self.archetypes[x as usize].merge(archetype);
                proof {
                    self.lemma_same_types(old(self));
                }
                (x, base)
            },
            None => {
                // Brand new archetype
                let x: u32 = self.archetypes.len() as u32;
                let key = copy_types(archetype.types());
                let ghost set = archetype.types_view().to_set();
                self.archetypes.push(archetype);
                let _ = self.index.insert(key, x);
                assert(self.type_sets() =~= old(self).type_sets().push(set));
                (x, 0)
            },
        }
    }

    /// Number of archetypes, which grows whenever one is added.
    pub fn generation(&self) -> (r: u32)
        requires
            self.wf(),
        ensures
            r == self.archs().len(),
    {
        self.archetypes.len() as u32
    }

    /// The archetypes, in order of creation.
    pub fn all(&self) -> (r: &Vec<Archetype<V>>)
        ensures
            r@ == self.archs(),
    {
        &self.archetypes
    }

    /// Removes every entity from every archetype.
    pub fn clear(&mut self)
        requires
            old(self).wf(),
        ensures
            final(self).wf(),
            final(self).archs().len() == old(self).archs().len(),
            final(self).type_sets() == old(self).type_sets(),
            final(self).type_lists() == old(self).type_lists(),
            forall|i: int| 0 <= i < final(self).archs().len() ==> (#[trigger] final(self).archs()[i]).ids_view().len() == 0,
    {
        let n: usize = self.archetypes.len();
        let mut i: usize = 0;
        while i < n
            invariant
                i <= n,
                n == self.archs().len(),
                self.archs().len() == old(self).archs().len(),
                self.entries() == old(self).entries(),
                forall|k: int|
                    0 <= k < n ==> {
                        &&& (#[trigger] self.archs()[k]).wf()
                        &&& self.archs()[k].types_view() == old(self).archs()[k].types_view()
                        &&& k < i ==> self.archs()[k].ids_view().len() == 0
                    },
            decreases n - i,
        {
            self.archetypes[i].clear();
            i = i + 1;
        }
        proof {
            self.lemma_same_types(old(self));
        }
    }

    /// Gives access to one archetype, whose types must stay as they are.
    pub fn at_mut(&mut self, i: u32) -> (r: &mut Archetype<V>)
        requires
            i < old(self).archs().len(),
        ensures
            *r == old(self).archs()[i as int],
            final(self).archs() == old(self).archs().update(i as int, *final(r)),
            final(self).entries() == old(self).entries(),
    {
        &mut self.archetypes[i as usize]
    }

    /// Gives access to all archetypes, whose types must stay as they are.
    pub fn all_mut(&mut self) -> (r: &mut Vec<Archetype<V>>)
        ensures
            r@ == old(self).archs(),
            final(self).archs() == final(r)@,
            final(self).entries() == old(self).entries(),
    {
        &mut self.archetypes
    }

    /// Find the archetype that an entity with the types of `src` is in after components of the
    /// types `inserted` are added to it.
    pub fn get_insert_target(&mut self, src: u32, inserted: &Vec<TypeId>) -> (r: InsertTarget)
        requires
            old(self).wf(),
            src < old(self).archs().len(),
            increasing(inserted@),
            old(self).has_room(old(self).type_sets()[src as int].union(inserted@.to_set())),
        ensures
            final(self).wf(),
            r.inserted_view() == inserted@,
            r.leads_from(final(self).type_lists()[src as int], final(self).type_lists()),
            final(self).type_sets() == with_types(
                old(self).type_sets(),
                old(self).type_sets()[src as int].union(inserted@.to_set()),
            ),
            old(self).archs().len() <= final(self).archs().len() <= old(self).archs().len() + 1,
            forall|i: int| 0 <= i < old(self).archs().len() ==> final(self).archs()[i] == #[trigger] old(self).archs()[i],
            forall|i: int|
                old(self).archs().len() <= i < final(self).archs().len() ==> (#[trigger] final(self).archs()[i]).ids_view().len() == 0,
    {
        // Assemble the types of the final entity
        let arch = &self.archetypes[src as usize];
        let types = arch.types();
        let ghost own = types@;
        proof {
            arch.lemma_shape();
        }
        let mut info = copy_types(types);
        // Types of the archetype that are not inserted
        let mut retained: Vec<TypeId> = Vec::new();
        // Because both lists are ordered, we can identify elements in one but not the other
        // efficiently with parallel iteration.
        let mut src_ty: usize = 0;
        let mut k: usize = 0;
        assert(own.to_set().union(inserted@.subrange(0, 0).to_set()) =~= own.to_set());
        while k < inserted.len()
            invariant
                k <= inserted@.len(),
                src_ty <= own.len(),
                types@ == own,
                increasing(own),
                increasing(inserted@),
                arch.wf(),
                arch.types_view() == own,
                k > 0 ==> forall|p: int| 0 <= p < src_ty ==> own[p] <= inserted@[k - 1],
                k == 0 ==> src_ty == 0,
                k > 0 ==> forall|p: int| src_ty <= p < own.len() ==> own[p] > inserted@[k - 1],
                increasing(retained@),
                forall|q: int| 0 <= q < retained@.len() ==> own.subrange(0, src_ty as int).contains(#[trigger] retained@[q])
                    && !inserted@.contains(retained@[q]),
                forall|p: int| 0 <= p < src_ty && !inserted@.contains(#[trigger] own[p]) ==> retained@.contains(own[p]),
                increasing(info@),
                info@.to_set() == own.to_set().union(inserted@.subrange(0, k as int).to_set()),
            decreases inserted@.len() - k,
        {
            let ty: TypeId = inserted[k];
            assert(inserted@[k as int] == ty);
            while src_ty < types.len() && types[src_ty] <= ty
                invariant
                    k < inserted@.len(),
                    ty == inserted@[k as int],
                    src_ty <= own.len(),
                    types@ == own,
                    increasing(own),
                    increasing(inserted@),
                    k > 0 ==> forall|p: int| src_ty <= p < own.len() ==> own[p] > inserted@[k - 1],
                    forall|p: int| 0 <= p < src_ty ==> own[p] <= ty,
                    increasing(retained@),
                    forall|q: int| 0 <= q < retained@.len() ==> own.subrange(0, src_ty as int).contains(#[trigger] retained@[q])
                        && !inserted@.contains(retained@[q]),
                    forall|p: int| 0 <= p < src_ty && !inserted@.contains(#[trigger] own[p]) ==> retained@.contains(own[p]),
                decreases own.len() - src_ty,
            {
                let ghost before = own.subrange(0, src_ty as int);
                let ghost after = own.subrange(0, src_ty + 1);
                let ghost retained0 = retained@;
                assert forall|t: TypeId| before.contains(t) implies after.contains(t) && t < own[src_ty as int] by {
                    let p = choose|p: int| 0 <= p < before.len() && before[p] == t;
                    assert(after[p] == t);
                    assert(own[p] < own[src_ty as int]);
                }
                assert(after[src_ty as int] == own[src_ty as int]);
                if types[src_ty] != ty {
                    assert(!inserted@.contains(own[src_ty as int])) by {
                        if inserted@.contains(own[src_ty as int]) {
                            let q = choose|q: int| 0 <= q < inserted@.len() && inserted@[q] == own[src_ty as int];
                            if q < k - 1 {
                                assert(inserted@[q] < inserted@[k - 1]);
                            }
                            if q > k {
                                assert(inserted@[k as int] < inserted@[q]);
                            }
                        }
                    }
                    retained.push(types[src_ty]);
                    proof {
                        assert(retained@[retained0.len() as int] == own[src_ty as int]);
                        assert forall|p: int| 0 <= p < src_ty + 1 && !inserted@.contains(#[trigger] own[p]) implies retained@.contains(
                            own[p],
                        ) by {
                            if p < src_ty {
                                let q = choose|q: int| 0 <= q < retained0.len() && retained0[q] == own[p];
                                assert(retained@[q] == own[p]);
                            }
                        }
                    }
                } else {
                    assert(inserted@.contains(own[src_ty as int])) by {
                        assert(inserted@[k as int] == own[src_ty as int]);
                    }
                }
                src_ty = src_ty + 1;
            }
            let ghost seen = inserted@.subrange(0, k as int);
            let ghost seen1 = inserted@.subrange(0, k + 1);
            assert forall|t: TypeId| seen1.contains(t) <==> seen.contains(t) || t == ty by {
                if seen.contains(t) {
                    let q = choose|q: int| 0 <= q < seen.len() && seen[q] == t;
                    assert(seen1[q] == t);
                }
                assert(seen1[k as int] == ty);
                if seen1.contains(t) && t != ty {
                    let q = choose|q: int| 0 <= q < seen1.len() && seen1[q] == t;
                    assert(seen[q] == t);
                }
            }
            if !arch.has_dynamic(ty) {
                assert(!seen.contains(ty)) by {
                    if seen.contains(ty) {
                        let q = choose|q: int| 0 <= q < seen.len() && seen[q] == ty;
                        assert(inserted@[q] < inserted@[k as int]);
                    }
                }
                let _ = insert_sorted(&mut info, ty);
            }
            assert(info@.to_set() =~= own.to_set().union(seen1.to_set()));
            assert forall|p: int| src_ty <= p < own.len() implies own[p] > inserted@[k as int] by {
                if src_ty < p {
                    assert(own[src_ty as int] < own[p]);
                }
            }
            k = k + 1;
        }
        assert(inserted@.subrange(0, inserted@.len() as int) =~= inserted@);
        while src_ty < types.len()
            invariant
                src_ty <= own.len(),
                types@ == own,
                increasing(own),
                increasing(inserted@),
                forall|p: int, q: int| src_ty <= p < own.len() && 0 <= q < inserted@.len() ==> own[p] > inserted@[q],
                increasing(retained@),
                forall|q: int| 0 <= q < retained@.len() ==> own.subrange(0, src_ty as int).contains(#[trigger] retained@[q])
                    && !inserted@.contains(retained@[q]),
                forall|p: int| 0 <= p < src_ty && !inserted@.contains(#[trigger] own[p]) ==> retained@.contains(own[p]),
            decreases own.len() - src_ty,
        {
            let ghost before = own.subrange(0, src_ty as int);
            let ghost after = own.subrange(0, src_ty + 1);
            let ghost retained0 = retained@;
            assert forall|t: TypeId| before.contains(t) implies after.contains(t) && t < own[src_ty as int] by {
                let p = choose|p: int| 0 <= p < before.len() && before[p] == t;
                assert(after[p] == t);
                assert(own[p] < own[src_ty as int]);
            }
            assert(after[src_ty as int] == own[src_ty as int]);
            retained.push(types[src_ty]);
            proof {
                assert(retained@[retained0.len() as int] == own[src_ty as int]);
                assert forall|p: int| 0 <= p < src_ty + 1 && !inserted@.contains(#[trigger] own[p]) implies retained@.contains(
                    own[p],
                ) by {
                    if p < src_ty {
                        let q = choose|q: int| 0 <= q < retained0.len() && retained0[q] == own[p];
                        assert(retained@[q] == own[p]);
                    }
                }
            }
            src_ty = src_ty + 1;
        }
        proof {
            assert(own.subrange(0, own.len() as int) =~= own);
            assert forall|t: TypeId| retained@.contains(t) <==> own.contains(t) && !inserted@.contains(t) by {
                if own.contains(t) && !inserted@.contains(t) {
                    let p = choose|p: int| 0 <= p < own.len() && own[p] == t;
                    assert(retained@.contains(own[p]));
                }
                if retained@.contains(t) {
                    let q = choose|q: int| 0 <= q < retained@.len() && retained@[q] == t;
                    assert(own.contains(retained@[q]));
                }
            }
            assert(retained@.to_set() =~= own.to_set().difference(inserted@.to_set()));
        }
        // Find the archetype it'll live in
        let index: u32 = self.get(&info);
        InsertTarget { inserted: copy_types(inserted), retained, index }
    }
}

} // verus!

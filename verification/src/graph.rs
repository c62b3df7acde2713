//! Which archetype an entity moves to when components are added to or removed from it.
use vstd::prelude::*;

use crate::archetype_set::{with_types, ArchetypeSet, InsertTarget};
use crate::bundle::Bundle;
use crate::maps::{bundle_entries, edge_entries, BundleKey, BundleMap, EdgeMap};
use crate::types::{copy_types, increasing, same_types, TypeId};

verus! {

/// Metadata for removing components from entities from one archetype.
pub struct RemoveTarget {
    /// Components that are removed.
    removed: Vec<TypeId>,
    /// Position of the target archetype.
    index: u32,
}

impl RemoveTarget {
    pub closed spec fn removed_view(&self) -> Seq<TypeId> {
        self.removed@
    }

    pub closed spec fn index_view(&self) -> u32 {
        self.index
    }

    /// Says correctly what happens to an entity with the types `source`, among archetypes of the
    /// types `lists`.
    pub open spec fn leads_from(&self, source: Seq<TypeId>, lists: Seq<Seq<TypeId>>) -> bool {
        &&& self.index_view() < lists.len()
        &&& increasing(lists[self.index_view() as int])
        &&& lists[self.index_view() as int].to_set() == source.to_set().difference(self.removed_view().to_set())
    }
}

/// The types that are not among `removed`.
fn without(types: &Vec<TypeId>, removed: &Vec<TypeId>) -> (r: Vec<TypeId>)
    requires
        increasing(types@),
    ensures
        increasing(r@),
        r@.to_set() == types@.to_set().difference(removed@.to_set()),
{
    let mut r: Vec<TypeId> = Vec::new();
    let mut i: usize = 0;
    while i < types.len()
        invariant
            i <= types@.len(),
            increasing(types@),
            increasing(r@),
            forall|q: int| 0 <= q < r@.len() ==> types@.subrange(0, i as int).contains(#[trigger] r@[q]) && !removed@.contains(
                r@[q],
            ),
            forall|p: int| 0 <= p < i && !removed@.contains(#[trigger] types@[p]) ==> r@.contains(types@[p]),
        decreases types@.len() - i,
    {
        let ty: TypeId = types[i];
        let ghost before = types@.subrange(0, i as int);
        let ghost after = types@.subrange(0, i + 1);
        let ghost r0 = r@;
        assert forall|t: TypeId| before.contains(t) implies after.contains(t) && t < ty by {
            let p = choose|p: int| 0 <= p < before.len() && before[p] == t;
            assert(after[p] == t);
            assert(types@[p] < types@[i as int]);
        }
        assert(after[i as int] == ty);
        let mut found: bool = false;
        let mut k: usize = 0;
        while k < removed.len() && !found
            invariant
                k <= removed@.len(),
                found ==> removed@.contains(ty),
                !found ==> forall|q: int| 0 <= q < k ==> removed@[q] != ty,
            decreases removed@.len() - k,
        {
            if removed[k] == ty {
                assert(removed@[k as int] == ty);
                found = true;
            }
            k = k + 1;
        }
        if !found {
            r.push(ty);
            proof {
                assert(r@[r0.len() as int] == ty);
                assert forall|p: int| 0 <= p < i + 1 && !removed@.contains(#[trigger] types@[p]) implies r@.contains(types@[p]) by {
                    if p < i {
                        let q = choose|q: int| 0 <= q < r0.len() && r0[q] == types@[p];
                        assert(r@[q] == types@[p]);
                    }
                }
            }
        }
        i = i + 1;
    }
    proof {
        assert(types@.subrange(0, types@.len() as int) =~= types@);
        assert forall|t: TypeId| r@.contains(t) <==> types@.contains(t) && !removed@.contains(t) by {
            if types@.contains(t) && !removed@.contains(t) {
                let p = choose|p: int| 0 <= p < types@.len() && types@[p] == t;
                assert(r@.contains(types@[p]));
            }
            if r@.contains(t) {
                let q = choose|q: int| 0 <= q < r@.len() && r@[q] == t;
                assert(types@.contains(r@[q]));
            }
        }
        assert(r@.to_set() =~= types@.to_set().difference(removed@.to_set()));
    }
    r
}

/// What was found out about statically known bundle types.
///
/// A key is no more than a hint: what is stored under one is used only for a bundle that has the
/// types it was stored for.
pub struct ArchetypeGraph {
    /// Maps statically known bundle types to archetypes.
    bundle_to_archetype: BundleMap,
    /// Maps source archetype and bundle type to a position in `insert_targets`.
    insert_edges: EdgeMap,
    insert_targets: Vec<InsertTarget>,
    /// Maps source archetype and bundle type to a position in `remove_targets`.
    remove_edges: EdgeMap,
    remove_targets: Vec<RemoveTarget>,
}

/// What is recorded about bundle types.
#[verifier::ext_equal]
pub struct GraphRecords {
    /// The archetype of entities that have the components of a bundle type and no others.
    pub bundles: Map<BundleKey, u32>,
    /// What inserting a bundle type into entities of a source archetype does: the types that are
    /// inserted, those that are retained, and the target archetype.
    pub inserts: Map<(u32, BundleKey), (Seq<TypeId>, Seq<TypeId>, u32)>,
    /// What removing a bundle type from entities of a source archetype does: the types that are
    /// removed, and the target archetype.
    pub removes: Map<(u32, BundleKey), (Seq<TypeId>, u32)>,
}

impl GraphRecords {
    /// Nothing is recorded.
    pub open spec fn empty() -> Self {
        GraphRecords { bundles: Map::empty(), inserts: Map::empty(), removes: Map::empty() }
    }

    /// With the archetype of a bundle type.
    pub open spec fn with_bundle(self, key: Option<BundleKey>, archetype: u32) -> Self {
        match key {
            Some(k) => GraphRecords { bundles: self.bundles.insert(k, archetype), ..self },
            None => self,
        }
    }

    /// With the archetypes of some bundle types, one after the other; `archetypes` lists the types of
    /// each archetype.
    pub open spec fn with_bundles(
        self,
        archetypes: Seq<Set<TypeId>>,
        keys: Seq<Option<BundleKey>>,
        types: Seq<Set<TypeId>>,
    ) -> Self
        decreases keys.len(),
    {
        if keys.len() == 0 {
            self
        } else {
            self.with_bundles(archetypes, keys.drop_last(), types.drop_last()).with_bundle(
                keys.last(),
                archetypes.index_of(types.last()) as u32,
            )
        }
    }

    /// Archetypes that are added later on have no part in what is recorded.
    pub proof fn lemma_with_bundles(
        self,
        fewer: Seq<Set<TypeId>>,
        more: Seq<Set<TypeId>>,
        keys: Seq<Option<BundleKey>>,
        types: Seq<Set<TypeId>>,
    )
        requires
            fewer.is_prefix_of(more),
            more.no_duplicates(),
            keys.len() == types.len(),
            forall|i: int| 0 <= i < types.len() ==> fewer.contains(#[trigger] types[i]),
        ensures
            self.with_bundles(fewer, keys, types) == self.with_bundles(more, keys, types),
        decreases keys.len(),
    {
        if keys.len() > 0 {
            assert forall|i: int| 0 <= i < types.drop_last().len() implies fewer.contains(#[trigger] types.drop_last()[i]) by {
                assert(types.drop_last()[i] == types[i]);
            }
            self.lemma_with_bundles(fewer, more, keys.drop_last(), types.drop_last());
            assert(fewer.contains(types[types.len() - 1]));
            let a = fewer.index_of(types.last());
            assert(more[a] == fewer[a]);
            assert(more.contains(types.last()));
            assert(more.index_of(types.last()) == a);
        }
    }

    /// With what an insertion does.
    pub open spec fn with_insert(
        self,
        source: u32,
        key: Option<BundleKey>,
        inserted: Seq<TypeId>,
        retained: Seq<TypeId>,
        target: u32,
    ) -> Self {
        match key {
            Some(k) => GraphRecords {
                inserts: self.inserts.insert((source, k), (inserted, retained, target)),
                ..self
            },
            None => self,
        }
    }

    /// With what a removal does.
    pub open spec fn with_remove(self, source: u32, key: Option<BundleKey>, removed: Seq<TypeId>, target: u32) -> Self {
        match key {
            Some(k) => GraphRecords { removes: self.removes.insert((source, k), (removed, target)), ..self },
            None => self,
        }
    }
}

/// The first lists of `after` are those of `before`.
pub open spec fn extends(after: Seq<Seq<TypeId>>, before: Seq<Seq<TypeId>>) -> bool {
    &&& before.len() <= after.len()
    &&& forall|i: int| 0 <= i < before.len() ==> after[i] == #[trigger] before[i]
}

impl ArchetypeGraph {
    /// Everything that is stored holds among archetypes of the types `lists`.
    pub closed spec fn wf(&self, lists: Seq<Seq<TypeId>>) -> bool {
        &&& forall|k: BundleKey| #[trigger]
            bundle_entries(self.bundle_to_archetype).contains_key(k) ==> bundle_entries(self.bundle_to_archetype)[k]
                < lists.len()
        &&& forall|e: (u32, BundleKey)| #[trigger]
            edge_entries(self.insert_edges).contains_key(e) ==> {
                let t = edge_entries(self.insert_edges)[e];
                &&& e.0 < lists.len()
                &&& t < self.insert_targets@.len()
                &&& self.insert_targets@[t as int].leads_from(lists[e.0 as int], lists)
            }
        &&& forall|e: (u32, BundleKey)| #[trigger]
            edge_entries(self.remove_edges).contains_key(e) ==> {
                let t = edge_entries(self.remove_edges)[e];
                &&& e.0 < lists.len()
                &&& t < self.remove_targets@.len()
                &&& self.remove_targets@[t as int].leads_from(lists[e.0 as int], lists)
            }
    }

    /// What is recorded.
    pub closed spec fn records(&self) -> GraphRecords {
        GraphRecords {
            bundles: bundle_entries(self.bundle_to_archetype),
            inserts: Map::new(
                |e: (u32, BundleKey)| edge_entries(self.insert_edges).contains_key(e),
                |e: (u32, BundleKey)| {
                    let target = self.insert_targets@[edge_entries(self.insert_edges)[e] as int];
                    (target.inserted_view(), target.retained_view(), target.index_view())
                },
            ),
            removes: Map::new(
                |e: (u32, BundleKey)| edge_entries(self.remove_edges).contains_key(e),
                |e: (u32, BundleKey)| {
                    let target = self.remove_targets@[edge_entries(self.remove_edges)[e] as int];
                    (target.removed_view(), target.index_view())
                },
            ),
        }
    }

    /// More archetypes take nothing away from what is known.
    pub proof fn lemma_grown(&self, before: Seq<Seq<TypeId>>, after: Seq<Seq<TypeId>>)
        requires
            self.wf(before),
            extends(after, before),
        ensures
            self.wf(after),
    {
    }

    pub fn new() -> (r: Self)
        ensures
            forall|lists: Seq<Seq<TypeId>>| r.wf(lists),
            r.records() == GraphRecords::empty(),
    {
        let r = ArchetypeGraph {
            bundle_to_archetype: BundleMap::new(),
            insert_edges: EdgeMap::new(),
            insert_targets: Vec::new(),
            remove_edges: EdgeMap::new(),
            remove_targets: Vec::new(),
        };
        assert(r.records() =~= GraphRecords::empty());
        r
    }

    /// Find the archetype of a bundle, and record it under the bundle's key.
    pub fn bundle_archetype<V>(
        &mut self,
        archetypes: &mut ArchetypeSet<V>,
        key: Option<BundleKey>,
        types: &Vec<TypeId>,
    ) -> (r: u32)
        requires
            old(archetypes).wf(),
            old(self).wf(old(archetypes).type_lists()),
            increasing(types@),
            old(archetypes).has_room(types@.to_set()),
        ensures
            final(archetypes).wf(),
            final(self).wf(final(archetypes).type_lists()),
            r < final(archetypes).archs().len(),
            final(archetypes).archs()[r as int].types_view() == types@,
            final(archetypes).type_sets() == with_types(old(archetypes).type_sets(), types@.to_set()),
            old(archetypes).archs().len() <= final(archetypes).archs().len(),
            forall|i: int|
                0 <= i < old(archetypes).archs().len() ==> final(archetypes).archs()[i] == #[trigger] old(archetypes).archs()[i],
            forall|i: int|
                old(archetypes).archs().len() <= i < final(archetypes).archs().len() ==> (
                #[trigger] final(archetypes).archs()[i]).ids_view().len() == 0,
            final(self).records() == old(self).records().with_bundle(key, r),
    {
        match key {
            Some(k) => {
                if let Some(i) = self.bundle_to_archetype.get(k) {
                    if same_types(archetypes.all()[i as usize].types(), types) {
                        assert(archetypes.type_sets()[i as int] == types@.to_set());
                        return i;
                    }
                }
                let ghost lists = archetypes.type_lists();
                let i: u32 = archetypes.get(types);
                proof {
                    self.lemma_grown(lists, archetypes.type_lists());
                }
                let _ = self.bundle_to_archetype.insert(k, i);
                i
            },
            None => {
                let ghost lists = archetypes.type_lists();
                let i: u32 = archetypes.get(types);
                proof {
                    self.lemma_grown(lists, archetypes.type_lists());
                }
                i
            },
        }
    }

    /// Find what inserting a bundle into an entity does, and record it under the bundle's key.
    pub fn insert_target<V>(
        &mut self,
        archetypes: &mut ArchetypeSet<V>,
        source: u32,
        key: Option<BundleKey>,
        types: &Vec<TypeId>,
    ) -> (r: InsertTarget)
        requires
            old(archetypes).wf(),
            old(self).wf(old(archetypes).type_lists()),
            source < old(archetypes).archs().len(),
            increasing(types@),
            old(archetypes).has_room(old(archetypes).type_sets()[source as int].union(types@.to_set())),
        ensures
            final(archetypes).wf(),
            final(self).wf(final(archetypes).type_lists()),
            r.inserted_view() == types@,
            r.leads_from(final(archetypes).type_lists()[source as int], final(archetypes).type_lists()),
            final(archetypes).type_sets() == with_types(
                old(archetypes).type_sets(),
                old(archetypes).type_sets()[source as int].union(types@.to_set()),
            ),
            old(archetypes).archs().len() <= final(archetypes).archs().len(),
            forall|i: int|
                0 <= i < old(archetypes).archs().len() ==> final(archetypes).archs()[i] == #[trigger] old(archetypes).archs()[i],
            forall|i: int|
                old(archetypes).archs().len() <= i < final(archetypes).archs().len() ==> (
                #[trigger] final(archetypes).archs()[i]).ids_view().len() == 0,
            final(self).records() == old(self).records().with_insert(
                source,
                key,
                types@,
                r.retained_view(),
                r.index_view(),
            ),
    {
        let ghost lists = archetypes.type_lists();
        match key {
            Some(k) => {
                if let Some(t) = self.insert_edges.get((source, k)) {
                    let target = &self.insert_targets[t];
                    if same_types(target.inserted(), types) {
                        assert(archetypes.type_sets()[target.index_view() as int] == archetypes.type_sets()[source as int].union(
                            types@.to_set(),
                        ));
                        return target.copy();
                    }
                }
                let target = archetypes.get_insert_target(source, types);
                proof {
                    self.lemma_grown(lists, archetypes.type_lists());
                }
                let t: usize = self.insert_targets.len();
                self.insert_targets.push(target.copy());
                let _ = self.insert_edges.insert((source, k), t);
                target
            },
            None => {
                let target = archetypes.get_insert_target(source, types);
                proof {
                    self.lemma_grown(lists, archetypes.type_lists());
                }
                target
            },
        }
    }

    /// Find the archetype that an entity is moved to when a bundle is removed from it, and record it
    /// under the bundle's key.
    pub fn remove_target<V>(
        &mut self,
        archetypes: &mut ArchetypeSet<V>,
        source: u32,
        bundle: &Bundle,
    ) -> (r: u32)
        requires
            old(archetypes).wf(),
            old(self).wf(old(archetypes).type_lists()),
            source < old(archetypes).archs().len(),
            old(archetypes).has_room(
                old(archetypes).type_sets()[source as int].difference(bundle.fields().to_set()),
            ),
        ensures
            final(archetypes).wf(),
            final(self).wf(final(archetypes).type_lists()),
            r < final(archetypes).archs().len(),
            final(archetypes).type_sets()[r as int] == old(archetypes).type_sets()[source as int].difference(
                bundle.fields().to_set(),
            ),
            final(archetypes).type_sets() == with_types(
                old(archetypes).type_sets(),
                old(archetypes).type_sets()[source as int].difference(bundle.fields().to_set()),
            ),
            old(archetypes).archs().len() <= final(archetypes).archs().len(),
            forall|i: int|
                0 <= i < old(archetypes).archs().len() ==> final(archetypes).archs()[i] == #[trigger] old(archetypes).archs()[i],
            forall|i: int|
                old(archetypes).archs().len() <= i < final(archetypes).archs().len() ==> (
                #[trigger] final(archetypes).archs()[i]).ids_view().len() == 0,
            final(self).records() == old(self).records().with_remove(source, bundle.key_view(), bundle.fields(), r),
    {
        let ghost lists = archetypes.type_lists();
        if let Some(k) = bundle.key() {
            if let Some(t) = self.remove_edges.get((source, k)) {
                let target = &self.remove_targets[t];
                if same_types(&target.removed, bundle.types()) {
                    assert(archetypes.type_sets()[target.index as int] == archetypes.type_sets()[source as int].difference(
                        bundle.fields().to_set(),
                    ));
                    return target.index;
                }
            }
        }
        proof {
            archetypes.archs()[source as int].lemma_shape();
        }
        let types = without(archetypes.all()[source as usize].types(), bundle.types());
        let index: u32 = archetypes.get(&types);
        proof {
            self.lemma_grown(lists, archetypes.type_lists());
        }
        if let Some(k) = bundle.key() {
            let t: usize = self.remove_targets.len();
            self.remove_targets.push(RemoveTarget { removed: copy_types(bundle.types()), index });
            let _ = self.remove_edges.insert((source, k), t);
        }
        index
    }
}

} // verus!

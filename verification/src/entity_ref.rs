//! Handle to an entity with any component types.
use vstd::prelude::*;

use crate::archetype::Archetype;
use crate::entities::Entity;
use crate::fetch::{fetch, values_of};
use crate::query::Query;
use crate::types::TypeId;

verus! {

/// Handle to an entity, regardless of its component types.
///
/// An entity that is reserved and not yet created has no components.
pub struct EntityRef<'a, V> {
    archetype: &'a Archetype<V>,
    entity: Entity,
    index: u32,
}

impl<'a, V> EntityRef<'a, V> {
    /// The entity.
    pub closed spec fn entity_view(&self) -> Entity {
        self.entity
    }

    /// The entity's components.
    pub closed spec fn components(&self) -> Map<TypeId, V> {
        if self.index < self.archetype.ids_view().len() {
            self.archetype.components(self.index as int)
        } else {
            Map::empty()
        }
    }

    #[verifier::type_invariant]
    spec fn wf(&self) -> bool {
        &&& self.archetype.wf()
        &&& self.index < self.archetype.ids_view().len() || self.archetype.types_view().len() == 0
    }

    /// The entity at a row of an archetype; beyond the last row of the archetype that has no
    /// component types, one that has no row yet.
    pub fn new(archetype: &'a Archetype<V>, entity: Entity, index: u32) -> (r: Self)
        requires
            archetype.wf(),
            index < archetype.ids_view().len() || archetype.types_view().len() == 0,
        ensures
            r.entity_view() == entity,
            r.components() == (if index < archetype.ids_view().len() {
                archetype.components(index as int)
            } else {
                Map::<TypeId, V>::empty()
            }),
    {
        EntityRef { archetype, entity, index }
    }

    /// The handle of the entity.
    pub fn entity(&self) -> (r: Entity)
        ensures
            r == self.entity_view(),
    {
        self.entity
    }

    /// The component types are those of the archetype.
    proof fn lemma_types(&self)
        requires
            self.wf(),
        ensures
            self.components().dom() == self.archetype.types_view().to_set(),
    {
        let types = self.archetype.types_view();
        self.archetype.lemma_shape();
        if self.index >= self.archetype.ids_view().len() {
            assert(types.to_set() =~= Set::<TypeId>::empty());
        }
        assert(self.components().dom() =~= types.to_set());
    }

    /// The component of type `ty`, if the entity has one.
    pub fn get(&self, ty: TypeId) -> (r: Option<&'a V>)
        ensures
            r == (if self.components().contains_key(ty) {
                Some(&self.components()[ty])
            } else {
                None
            }),
    {
        proof {
            use_type_invariant(self);
            self.lemma_types();
        }
        if self.index < self.archetype.len() {
            self.archetype.get_dynamic(ty, self.index)
        } else {
            None
        }
    }

    /// Whether the entity has the components that the query needs.
    pub fn satisfies(&self, query: &Query) -> (r: bool)
        ensures
            r == query.satisfied(self.components().dom()),
    {
        proof {
            use_type_invariant(self);
            self.lemma_types();
            self.archetype.lemma_shape();
        }
        match query.prepare(self.archetype.types()) {
            Some(_) => true,
            None => false,
        }
    }

    /// What the query fetches from the entity, if the entity satisfies it. Components are only read.
    pub fn query(&self, query: &Query) -> (r: Option<Vec<Option<&'a V>>>)
        requires
            query.reads(),
        ensures
            r is Some <==> query.satisfied(self.components().dom()),
            r matches Some(items) ==> values_of(items@) == query.items(self.components()),
    {
        proof {
            use_type_invariant(self);
            self.lemma_types();
            self.archetype.lemma_shape();
        }
        match query.prepare(self.archetype.types()) {
            Some(plan) => if self.index < self.archetype.len() {
                Some(fetch(query, &plan, self.archetype, self.index))
            } else {
                let mut r: Vec<Option<&'a V>> = Vec::new();
                for k in 0..plan.len()
                    invariant
                        r@.len() == k,
                        forall|i: int| 0 <= i < k ==> #[trigger] r@[i] is None,
                {
                    r.push(None);
                }
                proof {
                    let items = query.items(self.components());
                    assert forall|k: int| 0 <= k < plan@.len() implies values_of(r@)[k] == items[k] by {
                        assert(plan@[k] is None);
                    }
                    assert(values_of(r@) =~= items);
                }
                Some(r)
            },
            None => None,
        }
    }
}

} // verus!

//! Components of many entities, column by column.
use vstd::prelude::*;

use crate::archetype::Archetype;
use crate::bundle::DynamicBundle;
use crate::laws::batches::law_column_batch;
use crate::types::{copy_types, lemma_row_map_at, row_map, TypeId};

verus! {

/// Whether the column of a type is among those listed.
spec fn is_column<V>(columns: Seq<(TypeId, Vec<V>)>, ty: TypeId, column: Vec<V>) -> bool {
    exists|k: int| 0 <= k < columns.len() && #[trigger] columns[k] == (ty, column)
}

/// Whether each column has as many components.
fn all_of_size<V>(columns: &Vec<Vec<V>>, size: u32) -> (r: bool)
    ensures
        r == (forall|c: int| 0 <= c < columns@.len() ==> (#[trigger] columns@[c])@.len() == size),
{
    let mut i: usize = 0;
    while i < columns.len()
        invariant
            i <= columns@.len(),
            forall|c: int| 0 <= c < i ==> (#[trigger] columns@[c])@.len() == size,
        decreases columns@.len() - i,
    {
        if columns[i].len() != size as usize {
            assert(columns@[i as int]@.len() != size);
            return false;
        }
        i = i + 1;
    }
    true
}

/// A collection of component data for an archetype, to be spawned at once.
pub struct ColumnBatch<V> {
    archetype: Archetype<V>,
}

impl<V> ColumnBatch<V> {
    pub closed spec fn archetype_view(&self) -> Archetype<V> {
        self.archetype
    }

    #[verifier::type_invariant]
    pub open spec fn wf(&self) -> bool {
        self.archetype_view().wf()
    }

    /// The component types.
    pub open spec fn types_view(&self) -> Set<TypeId> {
        self.archetype_view().types_view().to_set()
    }

    /// The components of each entity, by type.
    pub open spec fn rows(&self) -> Seq<Map<TypeId, V>> {
        Seq::new(
            self.archetype_view().rows().len(),
            |i: int| self.archetype_view().components(i),
        )
    }

    /// A batch of `size` entities; each column holds the components of one type.
    ///
    /// Returns nothing if two columns are of the same type, or one has not `size` components.
    pub fn new(size: u32, columns: Vec<(TypeId, Vec<V>)>) -> (r: Option<Self>)
        ensures
            r is Some <==> {
                &&& columns@.map_values(|c: (TypeId, Vec<V>)| c.0).no_duplicates()
                &&& forall|k: int| 0 <= k < columns@.len() ==> (#[trigger] columns@[k]).1@.len() == size
            },
            r matches Some(batch) ==> {
                &&& batch.rows().len() == size
                &&& batch.types_view() == columns@.map_values(|c: (TypeId, Vec<V>)| c.0).to_set()
                &&& forall|i: int, k: int|
                    0 <= i < size && 0 <= k < columns@.len() ==> #[trigger] batch.rows()[i][(#[trigger] columns@[k]).0]
                        == columns@[k].1@[i]
                &&& forall|i: int| 0 <= i < size ==> (#[trigger] batch.rows()[i]).dom() == batch.types_view()
            },
    {
        let ghost firsts = columns@.map_values(|c: (TypeId, Vec<V>)| c.0);
        let ghost seconds = columns@.map_values(|c: (TypeId, Vec<V>)| c.1);
        let ghost columns0 = columns@;
        let bundle = match DynamicBundle::new(None, columns) {
            Some(bundle) => bundle,
            None => {
                return None;
            },
        };
        proof {
            use_type_invariant(&bundle);
        }
        let types = copy_types(bundle.types());
        let ghost t = types@;
        let sorted = bundle.into_values();
        proof {
            assert(row_map(t, sorted@) == row_map(firsts, seconds));
            assert(row_map(t, sorted@).dom() =~= t.to_set());
            assert(row_map(firsts, seconds).dom() =~= firsts.to_set());
            assert forall|k: int| 0 <= k < columns0.len() implies t.contains((#[trigger] columns0[k]).0) && sorted@[t.index_of(
                columns0[k].0,
            )] == columns0[k].1 by {
                assert(firsts[k] == columns0[k].0);
                lemma_row_map_at(firsts, seconds, k);
                assert(firsts.to_set().contains(firsts[k]));
            }
            assert forall|c: int| 0 <= c < t.len() implies is_column(columns0, #[trigger] t[c], sorted@[c]) by {
                assert(t.to_set().contains(t[c]));
                assert(firsts.contains(t[c]));
                let k = choose|k: int| 0 <= k < firsts.len() && firsts[k] == t[c];
                lemma_row_map_at(firsts, seconds, k);
                lemma_row_map_at(t, sorted@, c);
                assert(columns0[k] == (t[c], sorted@[c]));
            }
        }
        if !all_of_size(&sorted, size) {
            proof {
                let c = choose|c: int| 0 <= c < sorted@.len() && (#[trigger] sorted@[c])@.len() != size;
                assert(is_column(columns0, t[c], sorted@[c]));
                let k = choose|k: int| 0 <= k < columns0.len() && (#[trigger] columns0[k]) == (t[c], sorted@[c]);
                assert(columns0[k].1@.len() != size);
            }
            return None;
        }
        let archetype = Archetype::from_columns(types, sorted, size);
        let r = ColumnBatch { archetype };
        proof {
            assert forall|k: int| 0 <= k < columns0.len() implies (#[trigger] columns0[k]).1@.len() == size by {
                let c = t.index_of(columns0[k].0);
                assert(t.contains(columns0[k].0));
                assert(0 <= c < t.len());
                assert(sorted@[c]@.len() == size);
            }
            assert forall|i: int, k: int|
                0 <= i < size && 0 <= k < columns0.len() implies #[trigger] r.rows()[i][(#[trigger] columns0[k]).0]
                == columns0[k].1@[i] by {
                let c = t.index_of(columns0[k].0);
                assert(t.contains(columns0[k].0));
                assert(0 <= c < t.len() && t[c] == columns0[k].0);
                lemma_row_map_at(t, archetype.rows()[i], c);
                assert(archetype.rows()[i][c] == sorted@[c]@[i]);
            }
        }
        proof {
            assert forall|i: int| 0 <= i < size implies (#[trigger] r.rows()[i]).dom() == r.types_view() by {
                law_column_batch(r, i);
            }
        }
        Some(r)
    }

    /// Number of entities.
    pub fn len(&self) -> (r: u32)
        ensures
            r == self.rows().len(),
    {
        proof {
            use_type_invariant(self);
            self.archetype.lemma_shape();
        }
        self.archetype.len()
    }

    pub fn into_archetype(self) -> (r: Archetype<V>)
        ensures
            r == self.archetype_view(),
    {
        self.archetype
    }
}

} // verus!

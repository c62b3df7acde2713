//! Column-wise storage of the components of entities that share one set of component types.
use vstd::prelude::*;

use crate::refs::{copy_positions, each_mut, pick_mut, transpose};
use crate::types::{
    find_type, increasing, lemma_row_map_at, lemma_row_map_eq, row_map, TypeId,
};

verus! {

/// A collection of entities having the same component types.
///
/// Component values of one type are stored next to each other, in one column per type. The row at
/// index `i` of every column belongs to the entity whose ID is `ids[i]`.
pub struct Archetype<V> {
    types: Vec<TypeId>,
    columns: Vec<Vec<V>>,
    ids: Vec<u32>,
}

impl<V> Archetype<V> {
    /// The component types, in increasing order.
    pub closed spec fn types_view(&self) -> Seq<TypeId> {
        self.types@
    }

    /// The IDs of the entities, by row.
    pub closed spec fn ids_view(&self) -> Seq<u32> {
        self.ids@
    }

    /// The components of the entities, by row; a row lists its values in the order of the types.
    pub closed spec fn rows(&self) -> Seq<Seq<V>> {
        Seq::new(
            self.ids@.len(),
            |r: int| Seq::new(self.columns@.len(), |c: int| self.columns@[c]@[r]),
        )
    }

    /// The components of the entity at row `r`, by type.
    pub open spec fn components(&self, r: int) -> Map<TypeId, V> {
        row_map(self.types_view(), self.rows()[r])
    }

    /// One column per type, of one value per entity each.
    pub closed spec fn wf(&self) -> bool {
        &&& increasing(self.types@)
        &&& self.columns@.len() == self.types@.len()
        &&& forall|c: int| 0 <= c < self.columns@.len() ==> (#[trigger] self.columns@[c])@.len() == self.ids@.len()
        &&& self.ids@.len() <= u32::MAX
    }

    pub proof fn lemma_shape(&self)
        requires
            self.wf(),
        ensures
            increasing(self.types_view()),
            self.ids_view().len() <= u32::MAX,
            self.rows().len() == self.ids_view().len(),
            forall|r: int| 0 <= r < self.rows().len() ==> (#[trigger] self.rows()[r]).len() == self.types_view().len(),
    {
    }

    /// An archetype without entities.
    pub fn new(types: Vec<TypeId>) -> (r: Self)
        requires
            increasing(types@),
        ensures
            r.wf(),
            r.types_view() == types@,
            r.ids_view() == Seq::<u32>::empty(),
            r.rows() == Seq::<Seq<V>>::empty(),
    {
        let mut columns: Vec<Vec<V>> = Vec::new();
        let mut i: usize = 0;
        while i < types.len()
            invariant
                i <= types@.len(),
                columns@.len() == i,
                forall|c: int| 0 <= c < columns@.len() ==> (#[trigger] columns@[c])@.len() == 0,
            decreases types@.len() - i,
        {
            columns.push(Vec::new());
            i = i + 1;
        }
        let r = Archetype { types, columns, ids: Vec::new() };
        assert(r.rows() =~= Seq::<Seq<V>>::empty());
        r
    }

    /// An archetype of the given columns, whose rows belong to no entity in particular.
    pub fn from_columns(types: Vec<TypeId>, columns: Vec<Vec<V>>, size: u32) -> (r: Self)
        requires
            increasing(types@),
            columns@.len() == types@.len(),
            forall|c: int| 0 <= c < columns@.len() ==> (#[trigger] columns@[c])@.len() == size,
        ensures
            r.wf(),
            r.types_view() == types@,
            r.ids_view().len() == size,
            r.rows().len() == size,
            forall|i: int, c: int|
                0 <= i < size && 0 <= c < columns@.len() ==> #[trigger] r.rows()[i][c] == columns@[c]@[i],
    {
        let mut ids: Vec<u32> = Vec::new();
        let mut i: u32 = 0;
        while i < size
            invariant
                i <= size,
                ids@.len() == i,
            decreases size - i,
        {
            ids.push(u32::MAX);
            i = i + 1;
        }
        Archetype { types, columns, ids }
    }

    /// The component types, in increasing order.
    pub fn types(&self) -> (r: &Vec<TypeId>)
        ensures
            r@ == self.types_view(),
    {
        &self.types
    }

    /// Number of entities.
    pub fn len(&self) -> (r: u32)
        requires
            self.wf(),
        ensures
            r == self.ids_view().len(),
    {
        self.ids.len() as u32
    }

    /// Whether there are no entities.
    pub fn is_empty(&self) -> (r: bool)
        ensures
            r == (self.ids_view().len() == 0),
    {
        self.ids.len() == 0
    }

    /// ID of the entity at row `index`.
    pub fn entity_id(&self, index: u32) -> (r: u32)
        requires
            index < self.ids_view().len(),
        ensures
            r == self.ids_view()[index as int],
    {
        self.ids[index as usize]
    }

    /// Whether the entities have components of type `ty`.
    pub fn has_dynamic(&self, ty: TypeId) -> (r: bool)
        requires
            self.wf(),
        ensures
            r == self.types_view().contains(ty),
    {
        match find_type(&self.types, ty) {
            Some(i) => {
                assert(self.types@[i as int] == ty);
                true
            },
            None => false,
        }
    }

    /// The component of type `ty` of the entity at row `index`.
    pub fn get_dynamic(&self, ty: TypeId, index: u32) -> (r: Option<&V>)
        requires
            self.wf(),
            index < self.ids_view().len(),
        ensures
            r == (if self.types_view().contains(ty) {
                Some(&self.components(index as int)[ty])
            } else {
                None
            }),
    {
        match find_type(&self.types, ty) {
            Some(i) => {
                assert(self.types@[i as int] == ty);
                assert(self.columns@[i as int]@.len() == self.ids@.len());
                Some(&self.columns[i][index as usize])
            },
            None => None,
        }
    }

    /// The component of type `ty` of the entity at row `index`, to be written.
    pub fn get_dynamic_mut(&mut self, ty: TypeId, index: u32) -> (r: Option<&mut V>)
        requires
            old(self).wf(),
            index < old(self).ids_view().len(),
        ensures
            final(self).wf(),
            final(self).types_view() == old(self).types_view(),
            final(self).ids_view() == old(self).ids_view(),
            r is Some <==> old(self).types_view().contains(ty),
            r is None ==> *final(self) == *old(self),
            r matches Some(x) ==> *x == old(self).components(index as int)[ty],
            r matches Some(x) ==> final(self).rows() == old(self).rows().update(
                index as int,
                old(self).rows()[index as int].update(old(self).types_view().index_of(ty), *final(x)),
            ),
    {
        let ghost before = *self;
        match find_type(&self.types, ty) {
            Some(i) => {
                assert(self.types@[i as int] == ty);
                assert(self.columns@[i as int]@.len() == self.ids@.len());
                let x = &mut self.columns[i][index as usize];
                proof {
                    let expected = before.rows().update(
                        index as int,
                        before.rows()[index as int].update(i as int, *final(x)),
                    );
                    assert forall|r: int| 0 <= r < before.rows().len() implies after_borrow(self).rows()[r] =~= expected[r] by {
                        assert forall|c: int| 0 <= c < before.columns@.len() implies after_borrow(self).rows()[r][c]
                            == expected[r][c] by {}
                    }
                    assert(after_borrow(self).rows() =~= expected);
                }
                Some(x)
            },
            None => None,
        }
    }

    /// The value in the column at position `column` of the entity at row `index`.
    pub fn get_column(&self, column: usize, index: u32) -> (r: &V)
        requires
            self.wf(),
            index < self.ids_view().len(),
            column < self.types_view().len(),
        ensures
            *r == self.rows()[index as int][column as int],
    {
        assert(self.columns@[column as int]@.len() == self.ids@.len());
        &self.columns[column][index as usize]
    }

    /// Makes room for `additional` more entities. How much memory is held is left unsaid.
    pub fn reserve(&mut self, additional: u32)
        requires
            old(self).wf(),
        ensures
            final(self).wf(),
            final(self).types_view() == old(self).types_view(),
            final(self).ids_view() == old(self).ids_view(),
            final(self).rows() == old(self).rows(),
    {
        self.ids.reserve(additional as usize);
        let n: usize = self.columns.len();
        let mut c: usize = 0;
        while c < n
            invariant
                self.wf(),
                n == self.columns@.len(),
                c <= n,
                self.types@ == old(self).types@,
                self.ids@ == old(self).ids@,
                self.columns@.len() == old(self).columns@.len(),
                forall|k: int| 0 <= k < n ==> (#[trigger] self.columns@[k])@ == old(self).columns@[k]@,
            decreases n - c,
        {
            self.columns[c].reserve(additional as usize);
            c = c + 1;
        }
        assert(self.rows() =~= old(self).rows()) by {
            assert forall|r: int| 0 <= r < self.rows().len() implies self.rows()[r] =~= old(self).rows()[r] by {}
        }
    }

    /// Removes every entity.
    pub fn clear(&mut self)
        requires
            old(self).wf(),
        ensures
            final(self).wf(),
            final(self).types_view() == old(self).types_view(),
            final(self).ids_view() == Seq::<u32>::empty(),
            final(self).rows() == Seq::<Seq<V>>::empty(),
    {
        self.ids.clear();
        let n: usize = self.columns.len();
        let mut c: usize = 0;
        while c < n
            invariant
                n == self.columns@.len(),
                c <= n,
                self.types@ == old(self).types@,
                self.ids@ == Seq::<u32>::empty(),
                self.columns@.len() == old(self).columns@.len(),
                forall|k: int| 0 <= k < c ==> (#[trigger] self.columns@[k])@.len() == 0,
            decreases n - c,
        {
            self.columns[c].clear();
            c = c + 1;
        }
        assert(self.rows() =~= Seq::<Seq<V>>::empty());
    }

    /// Appends an entity with its components, listed in the order of the types; returns its row.
    pub fn allocate(&mut self, id: u32, row: Vec<V>) -> (index: u32)
        requires
            old(self).wf(),
            old(self).ids_view().len() < u32::MAX,
            row@.len() == old(self).types_view().len(),
        ensures
            final(self).wf(),
            index == old(self).ids_view().len(),
            final(self).types_view() == old(self).types_view(),
            final(self).ids_view() == old(self).ids_view().push(id),
            final(self).rows() == old(self).rows().push(row@),
    {
        let index: u32 = self.ids.len() as u32;
        let ghost values = row@;
        let mut row = row;
        let n: usize = self.columns.len();
        let mut c: usize = n;
        while c > 0
            invariant
                c <= n,
                n == self.columns@.len(),
                n == values.len(),
                self.types@ == old(self).types@,
                self.ids@ == old(self).ids@,
                self.columns@.len() == old(self).columns@.len(),
                row@ == values.subrange(0, c as int),
                forall|k: int| 0 <= k < c ==> (#[trigger] self.columns@[k])@ == old(self).columns@[k]@,
                forall|k: int| c <= k < n ==> (#[trigger] self.columns@[k])@ == old(self).columns@[k]@.push(values[k]),
            decreases c,
        {
            c = c - 1;
            match row.pop() {
                Some(v) => {
                    self.columns[c].push(v);
                },
                None => {
                    assert(false);
                },
            }
            assert(row@ =~= values.subrange(0, c as int));
        }
        self.ids.push(id);
        proof {
            assert forall|k: int| 0 <= k < self.columns@.len() implies (#[trigger] self.columns@[k])@.len() == self.ids@.len() by {
                assert(old(self).columns@[k]@.len() == old(self).ids@.len());
            }
            assert forall|r: int| 0 <= r < self.rows().len() implies self.rows()[r] =~= old(self).rows().push(values)[r] by {
                assert forall|k: int| 0 <= k < n implies self.rows()[r][k] == old(self).rows().push(values)[r][k] by {
                    assert(old(self).columns@[k]@.len() == old(self).ids@.len());
                }
            }
            assert(self.rows() =~= old(self).rows().push(values));
        }
        index
    }

    /// Removes the entity at row `index`, moving the last one into its place.
    ///
    /// Returns the removed components, in the order of the types, and the ID of the entity that was
    /// moved, if the removed one was not the last.
    pub fn remove(&mut self, index: u32) -> (r: (Vec<V>, Option<u32>))
        requires
            old(self).wf(),
            index < old(self).ids_view().len(),
        ensures
            final(self).wf(),
            final(self).types_view() == old(self).types_view(),
            final(self).ids_view() == old(self).ids_view().update(
                index as int,
                old(self).ids_view().last(),
            ).drop_last(),
            final(self).rows() == old(self).rows().update(
                index as int,
                old(self).rows().last(),
            ).drop_last(),
            r.0@ == old(self).rows()[index as int],
            r.1 == (if index == old(self).ids_view().len() - 1 {
                None
            } else {
                Some(old(self).ids_view().last())
            }),
    {
        let last: usize = self.ids.len() - 1;
        let moved: Option<u32> = if index as usize == last {
            None
        } else {
            Some(self.ids[last])
        };
        let mut row: Vec<V> = Vec::new();
        let n: usize = self.columns.len();
        let mut c: usize = 0;
        while c < n
            invariant
                c <= n,
                n == self.columns@.len(),
                old(self).wf(),
                index < old(self).ids@.len(),
                self.types@ == old(self).types@,
                self.ids@ == old(self).ids@,
                self.columns@.len() == old(self).columns@.len(),
                row@.len() == c,
                forall|k: int| 0 <= k < c ==> row@[k] == old(self).columns@[k]@[index as int],
                forall|k: int| 0 <= k < c ==> (#[trigger] self.columns@[k])@ == old(self).columns@[k]@.update(
                    index as int,
                    old(self).columns@[k]@.last(),
                ).drop_last(),
                forall|k: int| c <= k < n ==> (#[trigger] self.columns@[k])@ == old(self).columns@[k]@,
            decreases n - c,
        {
            assert(self.columns@[c as int]@ == old(self).columns@[c as int]@);
            assert(old(self).columns@[c as int]@.len() == old(self).ids@.len());
            let v = self.columns[c].swap_remove(index as usize);
            row.push(v);
            c = c + 1;
        }
        let _ = self.ids.swap_remove(index as usize);
        proof {
            assert forall|k: int| 0 <= k < self.columns@.len() implies (#[trigger] self.columns@[k])@.len() == self.ids@.len() by {
                assert(old(self).columns@[k]@.len() == old(self).ids@.len());
            }
            let expected = old(self).rows().update(index as int, old(self).rows().last()).drop_last();
            assert forall|r: int| 0 <= r < self.rows().len() implies self.rows()[r] =~= expected[r] by {
                assert forall|k: int| 0 <= k < n implies self.rows()[r][k] == expected[r][k] by {
                    assert(old(self).columns@[k]@.len() == old(self).ids@.len());
                }
            }
            assert(self.rows() =~= expected);
            assert(row@ =~= old(self).rows()[index as int]);
        }
        (row, moved)
    }

    /// Replaces components of the entity at row `index`, all of which it has.
    ///
    /// Returns the replaced values, in the order of `types`.
    pub fn put_dynamic(&mut self, types: &Vec<TypeId>, values: Vec<V>, index: u32) -> (r: Vec<V>)
        requires
            old(self).wf(),
            index < old(self).ids_view().len(),
            types@.no_duplicates(),
            values@.len() == types@.len(),
            types@.to_set().subset_of(old(self).types_view().to_set()),
        ensures
            final(self).wf(),
            final(self).types_view() == old(self).types_view(),
            final(self).ids_view() == old(self).ids_view(),
            final(self).components(index as int) == old(self).components(index as int).union_prefer_right(
                row_map(types@, values@),
            ),
            forall|k: int|
                0 <= k < old(self).rows().len() && k != index ==> final(self).rows()[k] == #[trigger] old(self).rows()[k],
            r@.len() == types@.len(),
            forall|k: int| 0 <= k < types@.len() ==> r@[k] == old(self).components(index as int)[#[trigger] types@[k]],
    {
        let ghost new_values = values@;
        let ghost own = self.types@;
        let ghost m0 = self.components(index as int);
        let mut values = values;
        let mut j: usize = 0;
        assert(types@.subrange(0, 0) =~= Seq::<TypeId>::empty());
        while j < types.len()
            invariant
                j <= types@.len(),
                self.wf(),
                self.types@ == own,
                self.ids@ == old(self).ids@,
                index < self.ids@.len(),
                types@.no_duplicates(),
                types@.to_set().subset_of(own.to_set()),
                values@.len() == types@.len(),
                new_values.len() == types@.len(),
                own == old(self).types@,
                m0 == old(self).components(index as int),
                old(self).wf(),
                forall|k: int| 0 <= k < j ==> #[trigger] values@[k] == m0[types@[k]],
                forall|k: int| j <= k < types@.len() ==> #[trigger] values@[k] == new_values[k],
                self.rows().len() == old(self).rows().len(),
                forall|k: int|
                    0 <= k < self.rows().len() && k != index ==> self.rows()[k] == #[trigger] old(self).rows()[k],
                forall|c: int|
                    0 <= c < own.len() && !types@.subrange(0, j as int).contains(#[trigger] own[c])
                        ==> self.rows()[index as int][c] == old(self).rows()[index as int][c],
                forall|k: int, c: int|
                    0 <= k < j && 0 <= c < own.len() && #[trigger] own[c] == #[trigger] types@[k]
                        ==> self.rows()[index as int][c] == new_values[k],
            decreases types@.len() - j,
        {
            let ty: TypeId = types[j];
            let ghost before = *self;
            assert(own.contains(ty)) by {
                assert(types@.to_set().contains(ty));
                assert(own.to_set().contains(ty));
            }
            match find_type(&self.types, ty) {
                Some(c) => {
                    assert(self.columns@[c as int]@.len() == self.ids@.len());
                    core::mem::swap(&mut self.columns[c][index as usize], &mut values[j]);
                    proof {
                        let seen = types@.subrange(0, j as int);
                        let seen1 = types@.subrange(0, j + 1);
                        assert(!seen.contains(ty));
                        lemma_row_map_at(own, old(self).rows()[index as int], c as int);
                        assert(self.rows() =~= before.rows().update(
                            index as int,
                            before.rows()[index as int].update(c as int, new_values[j as int]),
                        )) by {
                            assert forall|r: int| 0 <= r < self.rows().len() implies self.rows()[r] =~= before.rows().update(
                                index as int,
                                before.rows()[index as int].update(c as int, new_values[j as int]),
                            )[r] by {}
                        }
                        assert forall|d: int|
                            0 <= d < own.len() && !seen1.contains(#[trigger] own[d]) implies self.rows()[index as int][d]
                            == old(self).rows()[index as int][d] by {
                            assert(seen1[j as int] == ty);
                            assert(d != c);
                            if seen.contains(own[d]) {
                                let q = choose|q: int| 0 <= q < seen.len() && seen[q] == own[d];
                                assert(seen1[q] == own[d]);
                            }
                        }
                    }
                },
                None => {
                    assert(false);
                },
            }
            j = j + 1;
        }
        proof {
            assert(types@.subrange(0, types@.len() as int) =~= types@);
            let m1 = m0.union_prefer_right(row_map(types@, new_values));
            assert(m1.dom() =~= own.to_set());
            assert forall|c: int| 0 <= c < own.len() implies m1[#[trigger] own[c]] == self.rows()[index as int][c] by {
                lemma_row_map_at(own, old(self).rows()[index as int], c);
                if types@.contains(own[c]) {
                    let k = choose|k: int| 0 <= k < types@.len() && types@[k] == own[c];
                    lemma_row_map_at(types@, new_values, k);
                }
            }
            lemma_row_map_eq(own, self.rows()[index as int], m1);
        }
        values
    }

    /// Designates the entity that the row `index` belongs to.
    pub fn set_entity_id(&mut self, index: u32, id: u32)
        requires
            old(self).wf(),
            index < old(self).ids_view().len(),
        ensures
            final(self).wf(),
            final(self).types_view() == old(self).types_view(),
            final(self).ids_view() == old(self).ids_view().update(index as int, id),
            final(self).rows() == old(self).rows(),
    {
        self.ids[index as usize] = id;
        assert(self.rows() =~= old(self).rows()) by {
            assert forall|r: int| 0 <= r < self.rows().len() implies self.rows()[r] =~= old(self).rows()[r] by {}
        }
    }

    /// Appends all rows of `other`, which has the same component types.
    pub fn merge(&mut self, other: Archetype<V>)
        requires
            old(self).wf(),
            other.wf(),
            old(self).types_view() == other.types_view(),
            old(self).ids_view().len() + other.ids_view().len() <= u32::MAX,
        ensures
            final(self).wf(),
            final(self).types_view() == old(self).types_view(),
            final(self).ids_view() == old(self).ids_view() + other.ids_view(),
            final(self).rows() == old(self).rows() + other.rows(),
    {
        let ghost before = *self;
        let Archetype { types: _, columns: mut columns, ids: mut ids } = other;
        self.ids.append(&mut ids);
        let n: usize = self.columns.len();
        let mut c: usize = n;
        while c > 0
            invariant
                c <= n,
                n == self.columns@.len(),
                n == other.columns@.len(),
                self.types@ == before.types@,
                self.ids@ == before.ids@ + other.ids@,
                self.columns@.len() == before.columns@.len(),
                columns@ == other.columns@.subrange(0, c as int),
                forall|k: int| 0 <= k < c ==> (#[trigger] self.columns@[k])@ == before.columns@[k]@,
                forall|k: int| c <= k < n ==> (#[trigger] self.columns@[k])@ == before.columns@[k]@ + other.columns@[k]@,
            decreases c,
        {
            c = c - 1;
            match columns.pop() {
                Some(mut column) => {
                    self.columns[c].append(&mut column);
                },
                None => {
                    assert(false);
                },
            }
            assert(columns@ =~= other.columns@.subrange(0, c as int));
        }
        proof {
            assert forall|k: int| 0 <= k < self.columns@.len() implies (#[trigger] self.columns@[k])@.len() == self.ids@.len() by {
                assert(before.columns@[k]@.len() == before.ids@.len());
                assert(other.columns@[k]@.len() == other.ids@.len());
            }
            let expected = before.rows() + other.rows();
            assert forall|r: int| 0 <= r < self.rows().len() implies self.rows()[r] =~= expected[r] by {
                assert forall|k: int| 0 <= k < n implies self.rows()[r][k] == expected[r][k] by {
                    assert(before.columns@[k]@.len() == before.ids@.len());
                    assert(other.columns@[k]@.len() == other.ids@.len());
                }
            }
            assert(self.rows() =~= expected);
        }
    }

    /// Unique references to the components of the entities at the given rows.
    ///
    /// A row lists its components in the order of the types.
    pub fn rows_mut<'a>(&'a mut self, positions: &Vec<usize>) -> (r: Vec<Vec<&'a mut V>>)
        requires
            old(self).wf(),
            positions@.no_duplicates(),
            forall|i: int| 0 <= i < positions@.len() ==> #[trigger] positions@[i] < old(self).ids_view().len(),
        ensures
            final(self).wf(),
            final(self).types_view() == old(self).types_view(),
            final(self).ids_view() == old(self).ids_view(),
            r@.len() == positions@.len(),
            forall|i: int| 0 <= i < r@.len() ==> (#[trigger] r@[i])@.len() == old(self).types_view().len(),
            forall|i: int, c: int|
                0 <= i < r@.len() && 0 <= c < old(self).types_view().len() ==> *(#[trigger] r@[i]@[c])
                    == old(self).rows()[positions@[i] as int][c],
            forall|i: int, c: int|
                0 <= i < r@.len() && 0 <= c < old(self).types_view().len() ==> *final(#[trigger] r@[i]@[c])
                    == final(self).rows()[positions@[i] as int][c],
            forall|k: int|
                0 <= k < old(self).rows().len() && !positions@.contains(k as usize) ==> #[trigger] final(self).rows()[k]
                    == old(self).rows()[k],
    {
        let n: usize = positions.len();
        let ghost before = *self;
        let columns = each_mut(self.columns.as_mut_slice());
        let ghost refs = columns@;
        let mut picked: Vec<Vec<&'a mut V>> = Vec::new();
        for column in it: columns
            invariant
                it.seq() == refs,
                n == positions@.len(),
                before.wf(),
                refs.len() == before.columns@.len(),
                positions@.no_duplicates(),
                forall|i: int| 0 <= i < n ==> #[trigger] positions@[i] < before.ids@.len(),
                forall|c: int| 0 <= c < refs.len() ==> *(#[trigger] refs[c]) == before.columns@[c],
                picked@.len() == it.index(),
                forall|c: int| 0 <= c < it.index() ==> (#[trigger] picked@[c])@.len() == n,
                forall|c: int, i: int|
                    0 <= c < it.index() && 0 <= i < n ==> *(#[trigger] picked@[c]@[i]) == before.columns@[c]@[positions@[i] as int],
                forall|c: int| 0 <= c < it.index() ==> (#[trigger] final(refs[c])@).len() == before.ids@.len(),
                forall|c: int, i: int|
                    0 <= c < it.index() && 0 <= i < n ==> *final(#[trigger] picked@[c]@[i]) == final(refs[c])@[positions@[i] as int],
                forall|c: int, k: int|
                    0 <= c < it.index() && 0 <= k < before.ids@.len() && !positions@.contains(k as usize)
                        ==> #[trigger] final(refs[c])@[k] == before.columns@[c]@[k],
        {
            assert(before.columns@[it.index() as int]@.len() == before.ids@.len());
            picked.push(pick_mut(column.as_mut_slice(), copy_positions(positions)));
        }
        proof {
            assert forall|c: int| 0 <= c < refs.len() implies (#[trigger] after_borrow(self).columns@[c])@.len() == before.ids@.len() by {
                assert(*final(refs[c]) == after_borrow(self).columns@[c]);
            }
            assert forall|k: int|
                0 <= k < before.rows().len() && !positions@.contains(k as usize) implies #[trigger] after_borrow(self).rows()[k]
                =~= before.rows()[k] by {
                assert forall|c: int| 0 <= c < refs.len() implies after_borrow(self).rows()[k][c] == before.rows()[k][c] by {
                    assert(*final(refs[c]) == after_borrow(self).columns@[c]);
                }
            }
        }
        transpose(picked, n)
    }

    /// Unique references to the components of all entities.
    ///
    /// A row lists its components in the order of the types.
    pub fn all_rows_mut<'a>(&'a mut self) -> (r: Vec<Vec<&'a mut V>>)
        requires
            old(self).wf(),
        ensures
            final(self).wf(),
            final(self).types_view() == old(self).types_view(),
            final(self).ids_view() == old(self).ids_view(),
            r@.len() == old(self).ids_view().len(),
            forall|i: int| 0 <= i < r@.len() ==> (#[trigger] r@[i])@.len() == old(self).types_view().len(),
            forall|i: int, c: int|
                0 <= i < r@.len() && 0 <= c < old(self).types_view().len() ==> *(#[trigger] r@[i]@[c])
                    == old(self).rows()[i][c],
            forall|i: int, c: int|
                0 <= i < r@.len() && 0 <= c < old(self).types_view().len() ==> *final(#[trigger] r@[i]@[c])
                    == final(self).rows()[i][c],
    {
        let n: usize = self.ids.len();
        let ghost before = *self;
        let columns = each_mut(self.columns.as_mut_slice());
        let ghost refs = columns@;
        let mut cells: Vec<Vec<&'a mut V>> = Vec::new();
        for column in it: columns
            invariant
                it.seq() == refs,
                n == before.ids@.len(),
                before.wf(),
                refs.len() == before.columns@.len(),
                forall|c: int| 0 <= c < refs.len() ==> *(#[trigger] refs[c]) == before.columns@[c],
                cells@.len() == it.index(),
                forall|c: int| 0 <= c < it.index() ==> (#[trigger] cells@[c])@.len() == n,
                forall|c: int, i: int|
                    0 <= c < it.index() && 0 <= i < n ==> *(#[trigger] cells@[c]@[i]) == before.columns@[c]@[i],
                forall|c: int| 0 <= c < it.index() ==> (#[trigger] final(refs[c])@).len() == n,
                forall|c: int, i: int|
                    0 <= c < it.index() && 0 <= i < n ==> *final(#[trigger] cells@[c]@[i]) == final(refs[c])@[i],
        {
            assert(before.columns@[it.index() as int]@.len() == before.ids@.len());
            cells.push(each_mut(column.as_mut_slice()));
        }
        proof {
            assert forall|c: int| 0 <= c < refs.len() implies (#[trigger] after_borrow(self).columns@[c])@.len() == n by {
                assert(*final(refs[c]) == after_borrow(self).columns@[c]);
            }
        }
        transpose(cells, n)
    }
}

} // verus!

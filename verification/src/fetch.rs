//! Getting the components that a query refers to out of an archetype.
use vstd::prelude::*;

use crate::archetype::Archetype;
use crate::query::{Leaf, Query};
use crate::types::{lemma_row_map_at, row_map, TypeId};

verus! {

/// The fetched values.
pub open spec fn values_of<V>(list: Seq<Option<&V>>) -> Seq<Option<V>> {
    list.map_values(
        |x: Option<&V>|
            match x {
                Some(v) => Some(*v),
                None => None,
            },
    )
}

/// Reads components of the entity at row `index`: those in the columns that `plan` lists.
pub fn fetch<'a, V>(
    query: &Query,
    plan: &Vec<Option<usize>>,
    archetype: &'a Archetype<V>,
    index: u32,
) -> (r: Vec<Option<&'a V>>)
    requires
        archetype.wf(),
        index < archetype.ids_view().len(),
        query.finds(archetype.types_view(), plan@),
    ensures
        values_of(r@) == query.items(archetype.components(index as int)),
{
    proof {
        archetype.lemma_shape();
    }
    let ghost types = archetype.types_view();
    let ghost row = archetype.rows()[index as int];
    let mut r: Vec<Option<&'a V>> = Vec::new();
    for k in 0..plan.len()
        invariant
            archetype.wf(),
            index < archetype.ids_view().len(),
            types == archetype.types_view(),
            row == archetype.rows()[index as int],
            query.finds(types, plan@),
            r@.len() == k,
            forall|i: int|
                0 <= i < k ==> match #[trigger] plan@[i] {
                    Some(c) => r@[i] == Some(&row[c as int]),
                    None => r@[i] is None,
                },
    {
        match plan[k] {
            Some(c) => r.push(Some(archetype.get_column(c, index))),
            None => r.push(None),
        }
    }
    proof {
        let components = archetype.components(index as int);
        assert(components.dom() =~= types.to_set());
        assert forall|k: int| 0 <= k < plan@.len() implies values_of(r@)[k] == query.items(components)[k] by {
            match plan@[k] {
                Some(c) => {
                    lemma_row_map_at(types, row, c as int);
                },
                None => {},
            }
        }
        assert(values_of(r@) =~= query.items(components));
    }
    r
}

/// A component, fetched to be read or to be written.
pub enum Fetched<'a, V> {
    Shared(&'a V),
    Unique(&'a mut V),
}

/// Whether a component in column `c` is to be written.
pub open spec fn written(leaves: Seq<Leaf>, plan: Seq<Option<usize>>, c: int) -> bool {
    exists|k: int| 0 <= k < plan.len() && (#[trigger] leaves[k]).unique && plan[k] is Some && plan[k]->0 == c
}

/// Hands out references to components of an entity, each where a query refers to it.
pub fn fetch_mut<'a, V>(leaves: &Vec<Leaf>, plan: &Vec<Option<usize>>, row: Vec<&'a mut V>) -> (r: Vec<Option<Fetched<'a, V>>>)
    requires
        plan@.len() == leaves@.len(),
        forall|k: int| 0 <= k < plan@.len() ==> (#[trigger] plan@[k] matches Some(c) ==> c < row@.len()),
        forall|i: int, j: int|
            0 <= i < plan@.len() && 0 <= j < plan@.len() && i != j && (#[trigger] leaves@[i]).unique && plan@[i] is Some
                ==> plan@[i] != #[trigger] plan@[j],
    ensures
        r@.len() == plan@.len(),
        forall|k: int|
            0 <= k < plan@.len() ==> match #[trigger] plan@[k] {
                None => r@[k] is None,
                Some(c) => if leaves@[k].unique {
                    r@[k] matches Some(Fetched::Unique(x)) && *x == *row@[c as int] && *final(x) == *final(row@[c as int])
                } else {
                    r@[k] matches Some(Fetched::Shared(x)) && *x == *row@[c as int]
                },
            },
        forall|c: int| 0 <= c < row@.len() && !written(leaves@, plan@, c) ==> *final(#[trigger] row@[c]) == *row@[c],
{
    let ghost given = row@;
    let n: usize = row.len();
    let mut cells: Vec<Option<&'a mut V>> = Vec::new();
    for cell in it: row
        invariant
            it.seq() == given,
            cells@.len() == it.index(),
            forall|c: int|
                0 <= c < it.index() ==> (#[trigger] cells@[c] matches Some(x) && *x == *given[c] && *final(x) == *final(given[c])),
    {
        cells.push(Some(cell));
    }
    let mut r: Vec<Option<Fetched<'a, V>>> = Vec::new();
    for k in 0..plan.len()
        invariant
            n == given.len(),
            cells@.len() == n,
            plan@.len() == leaves@.len(),
            forall|i: int| 0 <= i < plan@.len() ==> (#[trigger] plan@[i] matches Some(c) ==> c < n),
            forall|i: int, j: int|
                0 <= i < plan@.len() && 0 <= j < plan@.len() && i != j && (#[trigger] leaves@[i]).unique && plan@[i] is Some
                    ==> plan@[i] != #[trigger] plan@[j],
            r@.len() == k,
            forall|c: int|
                0 <= c < n ==> if written(leaves@.take(k as int), plan@.take(k as int), c) {
                    #[trigger] cells@[c] is None
                } else {
                    cells@[c] matches Some(x) && *x == *given[c] && *final(x) == *final(given[c])
                },
            forall|i: int|
                0 <= i < k ==> match #[trigger] plan@[i] {
                    None => r@[i] is None,
                    Some(c) => if leaves@[i].unique {
                        r@[i] matches Some(Fetched::Unique(x)) && *x == *given[c as int] && *final(x) == *final(given[c as int])
                    } else {
                        r@[i] is None
                    },
                },
    {
        let ghost leaves0 = leaves@.take(k as int);
        let ghost plan0 = plan@.take(k as int);
        let ghost leaves1 = leaves@.take(k + 1);
        let ghost plan1 = plan@.take(k + 1);
        proof {
            assert forall|c: int| written(leaves0, plan0, c) implies written(leaves1, plan1, c) by {
                let i = choose|i: int| 0 <= i < plan0.len() && (#[trigger] leaves0[i]).unique && plan0[i] is Some && plan0[i]->0 == c;
                assert(leaves1[i].unique && plan1[i] == plan0[i]);
            }
            assert forall|c: int| written(leaves1, plan1, c) implies written(leaves0, plan0, c) || leaves@[k as int].unique
                && plan@[k as int] is Some && plan@[k as int]->0 == c by {
                let i = choose|i: int| 0 <= i < plan1.len() && (#[trigger] leaves1[i]).unique && plan1[i] is Some && plan1[i]->0 == c;
                if i < k {
                    assert(leaves0[i].unique && plan0[i] == plan1[i]);
                }
            }
        }
        match plan[k] {
            Some(c) => if leaves[k].unique {
                proof {
                    assert(leaves1[k as int].unique && plan1[k as int] == Some(c));
                    if written(leaves0, plan0, c as int) {
                        let i = choose|i: int| 0 <= i < plan0.len() && (#[trigger] leaves0[i]).unique && plan0[i] == Some(c);
                        assert(leaves@[i].unique && plan@[i] == plan@[k as int]);
                    }
                }
                match cells[c].take() {
                    Some(x) => r.push(Some(Fetched::Unique(x))),
                    None => r.push(None),
                }
            } else {
                r.push(None);
            },
            None => r.push(None),
        }
    }
    assert(leaves@.take(plan@.len() as int) =~= leaves@);
    assert(plan@.take(plan@.len() as int) =~= plan@);
    let mut shared: Vec<Option<&'a V>> = Vec::new();
    let ghost kept = cells@;
    for cell in it: cells
        invariant
            it.seq() == kept,
            shared@.len() == it.index(),
            forall|c: int|
                0 <= c < it.index() ==> match #[trigger] kept[c] {
                    None => shared@[c] is None,
                    Some(x) => shared@[c] == Some(&*x) && *final(x) == *x,
                },
    {
        match cell {
            Some(x) => {
                let v: &'a V = x;
                shared.push(Some(v));
            },
            None => shared.push(None),
        }
    }
    proof {
        assert forall|c: int| 0 <= c < n && !written(leaves@, plan@, c) implies #[trigger] shared@[c] == Some(&*given[c]) by {
            assert(kept[c] is Some);
        }
        assert forall|c: int| 0 <= c < n && !written(leaves@, plan@, c) implies *final(#[trigger] given[c]) == *given[c] by {
            assert(kept[c] is Some);
        }
    }
    for k in 0..plan.len()
        invariant
            n == given.len(),
            kept.len() == n,
            shared@.len() == n,
            plan@.len() == leaves@.len(),
            forall|i: int| 0 <= i < plan@.len() ==> (#[trigger] plan@[i] matches Some(c) ==> c < n),
            forall|i: int, j: int|
                0 <= i < plan@.len() && 0 <= j < plan@.len() && i != j && (#[trigger] leaves@[i]).unique && plan@[i] is Some
                    ==> plan@[i] != #[trigger] plan@[j],
            r@.len() == plan@.len(),
            forall|c: int| 0 <= c < n && !written(leaves@, plan@, c) ==> #[trigger] shared@[c] == Some(&*given[c]),
            forall|i: int|
                0 <= i < plan@.len() ==> match #[trigger] plan@[i] {
                    None => r@[i] is None,
                    Some(c) => if leaves@[i].unique {
                        r@[i] matches Some(Fetched::Unique(x)) && *x == *given[c as int] && *final(x) == *final(given[c as int])
                    } else {
                        i < k ==> (r@[i] matches Some(Fetched::Shared(x)) && *x == *given[c as int])
                    },
                },
    {
        if !leaves[k].unique {
            if let Some(c) = plan[k] {
                proof {
                    if written(leaves@, plan@, c as int) {
                        let i = choose|i: int| 0 <= i < plan@.len() && (#[trigger] leaves@[i]).unique && plan@[i] == Some(c);
                        assert(plan@[i] == plan@[k as int]);
                    }
                }
                if let Some(v) = shared[c] {
                    r[k] = Some(Fetched::Shared(v));
                }
            }
        }
    }
    r
}

/// The fetched values, as they are when they are handed out.
pub open spec fn current_values<V>(list: Seq<Option<Fetched<V>>>) -> Seq<Option<V>> {
    list.map_values(
        |x: Option<Fetched<V>>|
            match x {
                Some(Fetched::Shared(v)) => Some(*v),
                Some(Fetched::Unique(v)) => Some(*v),
                None => None,
            },
    )
}

/// Whether exactly those components that are to be written can be.
pub open spec fn as_asked<V>(query: Query, list: Seq<Option<Fetched<V>>>) -> bool {
    forall|k: int| 0 <= k < list.len() && (#[trigger] list[k]) is Some ==> (list[k]->0 is Unique <==> query.leaves()[k].unique)
}

/// The components of a row, as they are when references to them are handed out.
pub open spec fn row_values<V>(row: Seq<&mut V>) -> Seq<V> {
    row.map_values(|x: &mut V| *x)
}

/// Hands out references to components of several entities, each where a query refers to it.
fn fetch_rows<'a, V>(
    query: &Query,
    plan: &Vec<Option<usize>>,
    rows: Vec<Vec<&'a mut V>>,
    Ghost(types): Ghost<Seq<TypeId>>,
) -> (r: Vec<Vec<Option<Fetched<'a, V>>>>)
    requires
        query.borrows(),
        types.no_duplicates(),
        query.finds(types, plan@),
        forall|i: int| 0 <= i < rows@.len() ==> (#[trigger] rows@[i])@.len() == types.len(),
    ensures
        r@.len() == rows@.len(),
        forall|i: int|
            0 <= i < r@.len() ==> current_values((#[trigger] r@[i])@) == query.items(row_map(types, row_values(rows@[i]@))),
        forall|i: int| 0 <= i < r@.len() ==> as_asked(*query, (#[trigger] r@[i])@),
        forall|i: int, k: int|
            0 <= i < r@.len() && 0 <= k < query.leaves().len() ==> (#[trigger] r@[i]@[k] matches Some(Fetched::Unique(x)) ==> *final(x)
                == *final(rows@[i]@[types.index_of(query.leaves()[k].ty)]) && types.contains(query.leaves()[k].ty)),
        forall|i: int, c: int|
            0 <= i < r@.len() && 0 <= c < types.len() && !query.writes(types.to_set(), types[c]) ==> *final(#[trigger] rows@[i]@[c])
                == *rows@[i]@[c],
{
    let ghost given = rows@;
    let leaves = query.list();
    proof {
        lemma_plan_distinct(*query, types, plan@);
        assert forall|c: int| 0 <= c < types.len() && written(leaves@, plan@, c) implies query.writes(types.to_set(), types[c]) by {
            let k = choose|k: int| 0 <= k < plan@.len() && (#[trigger] leaves@[k]).unique && plan@[k] is Some && plan@[k]->0 == c;
            assert(query.leaves()[k] == (Leaf { ty: types[c], unique: true }));
        }
    }
    let mut r: Vec<Vec<Option<Fetched<'a, V>>>> = Vec::new();
    for row in it: rows
        invariant
            it.seq() == given,
            types.no_duplicates(),
            leaves@ == query.leaves(),
            query.finds(types, plan@),
            forall|i: int| 0 <= i < given.len() ==> (#[trigger] given[i])@.len() == types.len(),
            forall|i: int, j: int|
                0 <= i < plan@.len() && 0 <= j < plan@.len() && i != j && (#[trigger] leaves@[i]).unique && plan@[i] is Some
                    ==> plan@[i] != #[trigger] plan@[j],
            forall|c: int| 0 <= c < types.len() && #[trigger] written(leaves@, plan@, c) ==> query.writes(types.to_set(), types[c]),
            r@.len() == it.index(),
            forall|i: int|
                0 <= i < r@.len() ==> current_values((#[trigger] r@[i])@) == query.items(row_map(types, row_values(given[i]@))),
            forall|i: int| 0 <= i < r@.len() ==> as_asked(*query, (#[trigger] r@[i])@),
            forall|i: int, k: int|
                0 <= i < r@.len() && 0 <= k < leaves@.len() ==> (#[trigger] r@[i]@[k] matches Some(Fetched::Unique(x)) ==> *final(x)
                    == *final(given[i]@[types.index_of(leaves@[k].ty)]) && types.contains(leaves@[k].ty)),
            forall|i: int, c: int|
                0 <= i < r@.len() && 0 <= c < types.len() && !query.writes(types.to_set(), types[c]) ==> *final(
                    #[trigger] given[i]@[c]) == *given[i]@[c],
    {
        let ghost own = row@;
        let items = fetch_mut(&leaves, plan, row);
        proof {
            assert(own == given[it.index() as int]@);
            let m = row_map(types, row_values(own));
            assert(m.dom() =~= types.to_set());
            assert forall|k: int| 0 <= k < plan@.len() implies current_values(items@)[k] == query.items(m)[k] by {
                if let Some(c) = plan@[k] {
                    lemma_row_map_at(types, row_values(own), c as int);
                }
            }
            assert(current_values(items@) =~= query.items(m));
            assert forall|k: int| 0 <= k < leaves@.len() implies (#[trigger] items@[k] matches Some(Fetched::Unique(x)) ==> *final(x)
                == *final(own[types.index_of(leaves@[k].ty)]) && types.contains(leaves@[k].ty)) by {
                if let Some(c) = plan@[k] {
                    assert(types[c as int] == leaves@[k].ty);
                }
            }
            assert forall|c: int| 0 <= c < types.len() && !query.writes(types.to_set(), types[c]) implies *final(#[trigger] own[c])
                == *own[c] by {
                assert(!written(leaves@, plan@, c));
            }
        }
        r.push(items);
    }
    r
}

/// Fetches from the entities at the given rows of an archetype.
pub fn query_rows<'a, V>(
    query: &Query,
    plan: &Vec<Option<usize>>,
    archetype: &'a mut Archetype<V>,
    positions: &Vec<usize>,
) -> (r: Vec<Vec<Option<Fetched<'a, V>>>>)
    requires
        query.borrows(),
        old(archetype).wf(),
        query.finds(old(archetype).types_view(), plan@),
        positions@.no_duplicates(),
        forall|i: int| 0 <= i < positions@.len() ==> #[trigger] positions@[i] < old(archetype).ids_view().len(),
    ensures
        final(archetype).wf(),
        final(archetype).types_view() == old(archetype).types_view(),
        final(archetype).ids_view() == old(archetype).ids_view(),
        r@.len() == positions@.len(),
        forall|i: int|
            0 <= i < r@.len() ==> current_values((#[trigger] r@[i])@) == query.items(
                old(archetype).components(positions@[i] as int),
            ),
        forall|i: int| 0 <= i < r@.len() ==> as_asked(*query, (#[trigger] r@[i])@),
        forall|i: int, k: int|
            0 <= i < r@.len() && 0 <= k < query.leaves().len() ==> (#[trigger] r@[i]@[k] matches Some(Fetched::Unique(x)) ==> *final(x)
                == final(archetype).components(positions@[i] as int)[query.leaves()[k].ty]),
        forall|i: int, ty: TypeId|
            0 <= i < r@.len() && old(archetype).types_view().contains(ty) && !query.writes(
                old(archetype).types_view().to_set(),
                ty,
            ) ==> #[trigger] final(archetype).components(positions@[i] as int)[ty] == old(archetype).components(
                positions@[i] as int,
            )[ty],
        forall|k: int|
            0 <= k < old(archetype).rows().len() && !positions@.contains(k as usize) ==> #[trigger] final(archetype).rows()[k]
                == old(archetype).rows()[k],
{
    let ghost before = *archetype;
    let ghost types = archetype.types_view();
    proof {
        archetype.lemma_shape();
    }
    let rows = archetype.rows_mut(positions);
    let ghost given = rows@;
    let r = fetch_rows(query, plan, rows, Ghost(types));
    proof {
        assert forall|i: int| 0 <= i < given.len() implies row_values((#[trigger] given[i])@) == before.rows()[positions@[i] as int] by {
            assert(row_values(given[i]@) =~= before.rows()[positions@[i] as int]) by {
                assert forall|c: int| 0 <= c < types.len() implies row_values(given[i]@)[c] == before.rows()[positions@[i] as int][c] by {
                    assert(*given[i]@[c] == before.rows()[positions@[i] as int][c]);
                }
            }
        }
        assert forall|i: int, k: int| 0 <= i < r@.len() && 0 <= k < query.leaves().len() implies (#[trigger] r@[i]@[k] matches Some(
            Fetched::Unique(x),
        ) ==> *final(x) == after_borrow(archetype).components(positions@[i] as int)[query.leaves()[k].ty]) by {
            let c = types.index_of(query.leaves()[k].ty);
            if types.contains(query.leaves()[k].ty) {
                assert(*final(given[i]@[c]) == after_borrow(archetype).rows()[positions@[i] as int][c]);
            }
        }
        assert forall|i: int, ty: TypeId|
            0 <= i < r@.len() && types.contains(ty) && !query.writes(types.to_set(), ty) implies #[trigger] after_borrow(
            archetype).components(positions@[i] as int)[ty] == before.components(positions@[i] as int)[ty] by {
            let c = types.index_of(ty);
            assert(types[c] == ty);
            assert(*final(given[i]@[c]) == *given[i]@[c]);
        }
    }
    r
}

/// Fetches from all entities of an archetype.
pub fn query_all_rows<'a, V>(query: &Query, plan: &Vec<Option<usize>>, archetype: &'a mut Archetype<V>) -> (r: Vec<
    Vec<Option<Fetched<'a, V>>>,
>)
    requires
        query.borrows(),
        old(archetype).wf(),
        query.finds(old(archetype).types_view(), plan@),
    ensures
        final(archetype).wf(),
        final(archetype).types_view() == old(archetype).types_view(),
        final(archetype).ids_view() == old(archetype).ids_view(),
        r@.len() == old(archetype).ids_view().len(),
        forall|i: int|
            0 <= i < r@.len() ==> current_values((#[trigger] r@[i])@) == query.items(old(archetype).components(i)),
        forall|i: int| 0 <= i < r@.len() ==> as_asked(*query, (#[trigger] r@[i])@),
        forall|i: int, k: int|
            0 <= i < r@.len() && 0 <= k < query.leaves().len() ==> (#[trigger] r@[i]@[k] matches Some(Fetched::Unique(x)) ==> *final(x)
                == final(archetype).components(i)[query.leaves()[k].ty]),
        forall|i: int, ty: TypeId|
            0 <= i < r@.len() && old(archetype).types_view().contains(ty) && !query.writes(
                old(archetype).types_view().to_set(),
                ty,
            ) ==> #[trigger] final(archetype).components(i)[ty] == old(archetype).components(i)[ty],
{
    let ghost before = *archetype;
    let ghost types = archetype.types_view();
    proof {
        archetype.lemma_shape();
    }
    let rows = archetype.all_rows_mut();
    let ghost given = rows@;
    let r = fetch_rows(query, plan, rows, Ghost(types));
    proof {
        assert forall|i: int| 0 <= i < given.len() implies row_values((#[trigger] given[i])@) == before.rows()[i] by {
            assert(row_values(given[i]@) =~= before.rows()[i]) by {
                assert forall|c: int| 0 <= c < types.len() implies row_values(given[i]@)[c] == before.rows()[i][c] by {
                    assert(*given[i]@[c] == before.rows()[i][c]);
                }
            }
        }
        assert forall|i: int, k: int| 0 <= i < r@.len() && 0 <= k < query.leaves().len() implies (#[trigger] r@[i]@[k] matches Some(
            Fetched::Unique(x),
        ) ==> *final(x) == after_borrow(archetype).components(i)[query.leaves()[k].ty]) by {
            let c = types.index_of(query.leaves()[k].ty);
            if types.contains(query.leaves()[k].ty) {
                assert(*final(given[i]@[c]) == after_borrow(archetype).rows()[i][c]);
            }
        }
        assert forall|i: int, ty: TypeId|
            0 <= i < r@.len() && types.contains(ty) && !query.writes(types.to_set(), ty) implies #[trigger] after_borrow(
            archetype).components(i)[ty] == before.components(i)[ty] by {
            let c = types.index_of(ty);
            assert(types[c] == ty);
            assert(*final(given[i]@[c]) == *given[i]@[c]);
        }
    }
    r
}

/// No two references of a sound query are found in one column, if one of them is to be written.
proof fn lemma_plan_distinct(query: Query, types: Seq<TypeId>, plan: Seq<Option<usize>>)
    requires
        query.borrows(),
        query.finds(types, plan),
    ensures
        forall|i: int, j: int|
            0 <= i < plan.len() && 0 <= j < plan.len() && i != j && (#[trigger] query.leaves()[i]).unique && plan[i] is Some
                ==> plan[i] != #[trigger] plan[j],
{
    assert forall|i: int, j: int|
        0 <= i < plan.len() && 0 <= j < plan.len() && i != j && (#[trigger] query.leaves()[i]).unique && plan[i] is Some implies plan[i]
        != #[trigger] plan[j] by {
        assert(query.leaves()[i].ty != query.leaves()[j].ty);
    }
}

} // verus!

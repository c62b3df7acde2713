//! Taking rows of components apart and putting them together.
use vstd::prelude::*;

use crate::types::{
    copy_types, find_type, increasing, insert_sorted, lemma_row_map_at, lemma_row_map_eq,
    lemma_row_map_insert, row_map, TypeId,
};

verus! {

/// Each value in a slot of its own, from which it can be taken.
fn into_slots<V>(row: Vec<V>) -> (r: Vec<Option<V>>)
    ensures
        r@.len() == row@.len(),
        forall|k: int| 0 <= k < row@.len() ==> #[trigger] r@[k] == Some(row@[k]),
{
    let mut r: Vec<Option<V>> = Vec::new();
    for value in it: row
        invariant
            r@.len() == it.index(),
            it.seq() == row@,
            forall|k: int| 0 <= k < r@.len() ==> #[trigger] r@[k] == Some(row@[k]),
    {
        r.push(Some(value));
    }
    r
}

/// Splits a row into the values of some of its types, in the order of `fields`, and the rest.
///
/// Returns the values of `fields`, the other types and the other values.
pub fn take_fields<V>(types: &Vec<TypeId>, row: Vec<V>, fields: &Vec<TypeId>) -> (r: (
    Vec<V>,
    Vec<TypeId>,
    Vec<V>,
))
    requires
        increasing(types@),
        row@.len() == types@.len(),
        fields@.no_duplicates(),
        fields@.to_set().subset_of(types@.to_set()),
    ensures
        r.0@.len() == fields@.len(),
        forall|i: int| 0 <= i < fields@.len() ==> r.0@[i] == row_map(types@, row@)[#[trigger] fields@[i]],
        increasing(r.1@),
        r.2@.len() == r.1@.len(),
        r.1@.to_set() == types@.to_set().difference(fields@.to_set()),
        row_map(r.1@, r.2@) == row_map(types@, row@).remove_keys(fields@.to_set()),
{
    let ghost values = row@;
    let ghost m = row_map(types@, values);
    let mut slots = into_slots(row);
    let mut taken: Vec<V> = Vec::new();
    let mut i: usize = 0;
    while i < fields.len()
        invariant
            i <= fields@.len(),
            increasing(types@),
            fields@.no_duplicates(),
            fields@.to_set().subset_of(types@.to_set()),
            slots@.len() == types@.len(),
            values.len() == types@.len(),
            m == row_map(types@, values),
            taken@.len() == i,
            forall|k: int| 0 <= k < i ==> taken@[k] == m[#[trigger] fields@[k]],
            forall|k: int|
                0 <= k < types@.len() ==> #[trigger] slots@[k] == (if fields@.subrange(0, i as int).contains(types@[k]) {
                    None::<V>
                } else {
                    Some(values[k])
                }),
        decreases fields@.len() - i,
    {
        let ty: TypeId = fields[i];
        let ghost before = fields@.subrange(0, i as int);
        let ghost after = fields@.subrange(0, i + 1);
        assert(types@.contains(ty)) by {
            assert(fields@.to_set().contains(ty));
            assert(types@.to_set().contains(ty));
        }
        assert forall|t: TypeId| after.contains(t) <==> before.contains(t) || t == ty by {
            if before.contains(t) {
                let k = choose|k: int| 0 <= k < before.len() && before[k] == t;
                assert(after[k] == t);
            }
            assert(after[i as int] == ty);
            if after.contains(t) && t != ty {
                let k = choose|k: int| 0 <= k < after.len() && after[k] == t;
                assert(before[k] == t);
            }
        }
        match find_type(types, ty) {
            Some(at) => {
                assert(!before.contains(ty));
                proof {
                    lemma_row_map_at(types@, values, at as int);
                }
                match slots[at].take() {
                    Some(value) => {
                        taken.push(value);
                    },
                    None => {
                        assert(false);
                    },
                }
            },
            None => {
                assert(false);
            },
        }
        i = i + 1;
    }
    assert(fields@.subrange(0, fields@.len() as int) =~= fields@);
    let mut rest_types: Vec<TypeId> = Vec::new();
    let mut rest: Vec<V> = Vec::new();
    let n: usize = types.len();
    let mut j: usize = 0;
    for slot in it: slots
        invariant
            n == types@.len(),
            it.seq() == slots@,
            j == it.index(),
            slots@.len() == types@.len(),
            increasing(types@),
            values.len() == types@.len(),
            m == row_map(types@, values),
            forall|k: int|
                0 <= k < types@.len() ==> #[trigger] slots@[k] == (if fields@.contains(types@[k]) {
                    None::<V>
                } else {
                    Some(values[k])
                }),
            increasing(rest_types@),
            rest@.len() == rest_types@.len(),
            forall|k: int|
                0 <= k < rest_types@.len() ==> {
                    let t = #[trigger] rest_types@[k];
                    &&& types@.subrange(0, j as int).contains(t)
                    &&& !fields@.contains(t)
                    &&& m[t] == rest@[k]
                },
            forall|k: int| 0 <= k < j && !fields@.contains(#[trigger] types@[k]) ==> rest_types@.contains(types@[k]),
    {
        assert(slot == slots@[j as int]);
        let ty: TypeId = types[j];
        let ghost before = types@.subrange(0, j as int);
        let ghost after = types@.subrange(0, j + 1);
        let ghost rest0 = rest_types@;
        assert forall|t: TypeId| before.contains(t) implies after.contains(t) && t < ty by {
            let k = choose|k: int| 0 <= k < before.len() && before[k] == t;
            assert(after[k] == t);
            assert(types@[k] < types@[j as int]);
        }
        assert(after[j as int] == ty);
        match slot {
            Some(value) => {
                proof {
                    lemma_row_map_at(types@, values, j as int);
                }
                rest_types.push(ty);
                rest.push(value);
                proof {
                    assert forall|k: int| 0 <= k < j + 1 && !fields@.contains(#[trigger] types@[k]) implies rest_types@.contains(types@[k]) by {
                        if k < j {
                            let q = choose|q: int| 0 <= q < rest0.len() && rest0[q] == types@[k];
                            assert(rest_types@[q] == types@[k]);
                        } else {
                            assert(rest_types@[rest0.len() as int] == ty);
                        }
                    }
                }
            },
            None => {},
        }
        j = j + 1;
    }
    proof {
        assert(types@.subrange(0, types@.len() as int) =~= types@);
        let wanted = types@.to_set().difference(fields@.to_set());
        assert forall|t: TypeId| rest_types@.to_set().contains(t) <==> wanted.contains(t) by {
            if wanted.contains(t) {
                let k = choose|k: int| 0 <= k < types@.len() && types@[k] == t;
                assert(!fields@.contains(types@[k]));
            }
            if rest_types@.contains(t) {
                let k = choose|k: int| 0 <= k < rest_types@.len() && rest_types@[k] == t;
                assert(rest_types@[k] == t);
            }
        }
        assert(rest_types@.to_set() =~= wanted);
        let kept = m.remove_keys(fields@.to_set());
        assert(kept.dom() =~= rest_types@.to_set());
        lemma_row_map_eq(rest_types@, rest@, kept);
    }
    (taken, rest_types, rest)
}

/// Joins two rows that have no type in common.
pub fn join_rows<V>(
    types1: &Vec<TypeId>,
    row1: Vec<V>,
    types2: &Vec<TypeId>,
    row2: Vec<V>,
) -> (r: (Vec<TypeId>, Vec<V>))
    requires
        increasing(types1@),
        increasing(types2@),
        row1@.len() == types1@.len(),
        row2@.len() == types2@.len(),
        types1@.to_set().disjoint(types2@.to_set()),
    ensures
        increasing(r.0@),
        r.1@.len() == r.0@.len(),
        r.0@.to_set() == types1@.to_set().union(types2@.to_set()),
        row_map(r.0@, r.1@) == row_map(types1@, row1@).union_prefer_right(row_map(types2@, row2@)),
{
    let ghost m1 = row_map(types1@, row1@);
    let ghost values = row2@;
    let ghost t2 = types2@;
    let mut types = copy_types(types1);
    let mut row = row1;
    let mut row2 = row2;
    let mut i: usize = types2.len();
    proof {
        assert(t2.skip(i as int) =~= Seq::<TypeId>::empty());
        assert(row_map(t2.skip(i as int), values.skip(i as int)) =~= Map::<TypeId, V>::empty());
        assert(m1.union_prefer_right(Map::<TypeId, V>::empty()) =~= m1);
        assert(types1@.to_set().union(t2.skip(i as int).to_set()) =~= types1@.to_set());
    }
    while i > 0
        invariant
            i <= t2.len(),
            t2 == types2@,
            increasing(t2),
            values.len() == t2.len(),
            row2@ == values.subrange(0, i as int),
            types1@.to_set().disjoint(t2.to_set()),
            increasing(types@),
            row@.len() == types@.len(),
            types@.to_set() == types1@.to_set().union(t2.skip(i as int).to_set()),
            row_map(types@, row@) == m1.union_prefer_right(row_map(t2.skip(i as int), values.skip(i as int))),
        decreases i,
    {
        i = i - 1;
        let ty: TypeId = types2[i];
        let ghost tail = t2.skip(i + 1);
        let ghost vtail = values.skip(i + 1);
        let ghost types0 = types@;
        let ghost row0 = row@;
        proof {
            assert(!tail.contains(ty)) by {
                if tail.contains(ty) {
                    let k = choose|k: int| 0 <= k < tail.len() && tail[k] == ty;
                    assert(t2[i as int] < t2[i + 1 + k]);
                }
            }
            assert(t2.to_set().contains(ty));
            assert(!types@.to_set().contains(ty));
        }
        match row2.pop() {
            Some(value) => {
                assert(value == values[i as int]);
                let at: usize = insert_sorted(&mut types, ty);
                row.insert(at, value);
                proof {
                    lemma_row_map_insert(types0, row0, at as int, ty, value);
                    lemma_row_map_insert(tail, vtail, 0, ty, value);
                    assert(t2.skip(i as int) =~= tail.insert(0, ty));
                    assert(values.skip(i as int) =~= vtail.insert(0, value));
                    assert(m1.union_prefer_right(row_map(tail, vtail)).insert(ty, value) =~= m1.union_prefer_right(
                        row_map(tail, vtail).insert(ty, value),
                    ));
                    assert forall|t: TypeId| t2.skip(i as int).contains(t) <==> tail.contains(t) || t == ty by {
                        if tail.contains(t) {
                            let k = choose|k: int| 0 <= k < tail.len() && tail[k] == t;
                            assert(t2.skip(i as int)[k + 1] == t);
                        }
                        assert(t2.skip(i as int)[0] == ty);
                    }
                    assert(types@.to_set() =~= types1@.to_set().union(t2.skip(i as int).to_set()));
                }
            },
            None => {
                assert(false);
            },
        }
        assert(row2@ =~= values.subrange(0, i as int));
    }
    assert(t2.skip(0) =~= t2);
    assert(values.skip(0) =~= values);
    (types, row)
}

} // verus!

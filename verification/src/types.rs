//! Component type identifiers and the ordered lists of them that name an archetype.
use vstd::prelude::*;

verus! {

/// Identifies the type of a component.
///
/// Two components of one entity never share an identifier. The numbers carry no other meaning:
/// whoever stores typed values in a world hands out one number per type.
pub type TypeId = u64;

/// Types that can be components, implemented automatically for all `Send + Sync + 'static` types.
///
/// This is just a convenient shorthand for `Send + Sync + 'static`, and never needs to be
/// implemented manually.
pub trait Component: Send + Sync + 'static {

}

impl<T: Send + Sync + 'static> Component for T {

}

/// Every element is smaller than those behind it.
pub open spec fn increasing(s: Seq<TypeId>) -> bool {
    forall|i: int, j: int| 0 <= i < j < s.len() ==> s[i] < s[j]
}

/// The component map of a row: the value at position `i` belongs to the type at position `i`.
pub open spec fn row_map<V>(types: Seq<TypeId>, row: Seq<V>) -> Map<TypeId, V> {
    Map::new(|t: TypeId| types.contains(t), |t: TypeId| row[types.index_of(t)])
}

/// The types of a set, in increasing order.
pub open spec fn listed(set: Set<TypeId>) -> Seq<TypeId> {
    choose|s: Seq<TypeId>| #![trigger increasing(s)] increasing(s) && s.to_set() == set
}

/// An increasing list of types is the listing of their set.
pub proof fn lemma_listed(s: Seq<TypeId>)
    requires
        increasing(s),
    ensures
        listed(s.to_set()) == s,
{
    lemma_increasing_unique(listed(s.to_set()), s);
}

/// A set of types has one increasing listing only.
pub proof fn lemma_increasing_unique(a: Seq<TypeId>, b: Seq<TypeId>)
    requires
        increasing(a),
        increasing(b),
        a.to_set() == b.to_set(),
    ensures
        a == b,
    decreases a.len(),
{
    if a.len() == 0 {
        if b.len() > 0 {
            assert(b.to_set().contains(b[0]));
            assert(a.to_set().contains(b[0]));
        }
        assert(a =~= b);
    } else {
        assert(a.to_set().contains(a.last()));
        assert(b.to_set().contains(a.last()));
        assert(b.len() > 0);
        assert(b.to_set().contains(b.last()));
        assert(a.to_set().contains(b.last()));
        let i = choose|i: int| 0 <= i < a.len() && a[i] == b.last();
        let j = choose|j: int| 0 <= j < b.len() && b[j] == a.last();
        assert(a.last() == b.last()) by {
            if i < a.len() - 1 && j < b.len() - 1 {
                assert(a[i] < a[a.len() - 1]);
                assert(b[j] < b[b.len() - 1]);
            }
        }
        let a1 = a.drop_last();
        let b1 = b.drop_last();
        assert(a1.to_set() =~= b1.to_set()) by {
            assert forall|t: TypeId| a1.to_set().contains(t) <==> b1.to_set().contains(t) by {
                lemma_drop_last_set(a, t);
                lemma_drop_last_set(b, t);
            }
        }
        lemma_increasing_unique(a1, b1);
        assert(a =~= a1.push(a.last()));
        assert(b =~= b1.push(b.last()));
    }
}

proof fn lemma_drop_last_set(s: Seq<TypeId>, t: TypeId)
    requires
        increasing(s),
        s.len() > 0,
    ensures
        s.drop_last().to_set().contains(t) <==> s.to_set().contains(t) && t != s.last(),
{
    let d = s.drop_last();
    if d.contains(t) {
        let i = choose|i: int| 0 <= i < d.len() && d[i] == t;
        assert(s[i] == t);
        assert(s[i] < s[s.len() - 1]);
    }
    if s.contains(t) && t != s.last() {
        let i = choose|i: int| 0 <= i < s.len() && s[i] == t;
        assert(d[i] == t);
    }
}

/// The value of the type at position `i` is the row's value at position `i`.
pub proof fn lemma_row_map_at<V>(types: Seq<TypeId>, row: Seq<V>, i: int)
    requires
        types.no_duplicates(),
        0 <= i < types.len(),
    ensures
        row_map(types, row).dom().contains(types[i]),
        row_map(types, row)[types[i]] == row[i],
{
    assert(types.contains(types[i]));
    let k = types.index_of(types[i]);
    assert(0 <= k < types.len() && types[k] == types[i]);
}

/// A map is the component map of a row if it has the row's types and agrees with the row on each.
pub proof fn lemma_row_map_eq<V>(types: Seq<TypeId>, row: Seq<V>, m: Map<TypeId, V>)
    requires
        types.no_duplicates(),
        m.dom() == types.to_set(),
        forall|i: int| 0 <= i < types.len() ==> m[#[trigger] types[i]] == row[i],
    ensures
        row_map(types, row) == m,
{
    assert forall|t: TypeId| #[trigger] types.contains(t) implies row_map(types, row)[t] == m[t] by {
        let k = types.index_of(t);
        assert(0 <= k < types.len() && types[k] == t);
    }
    assert(row_map(types, row).dom() =~= m.dom());
    assert(row_map(types, row) =~= m);
}

/// Putting a new type and its value at the same position adds one entry to the component map.
pub proof fn lemma_row_map_insert<V>(types: Seq<TypeId>, row: Seq<V>, at: int, ty: TypeId, value: V)
    requires
        types.no_duplicates(),
        row.len() == types.len(),
        0 <= at <= types.len(),
        !types.contains(ty),
    ensures
        types.insert(at, ty).no_duplicates(),
        row_map(types.insert(at, ty), row.insert(at, value)) == row_map(types, row).insert(ty, value),
{
    let types1 = types.insert(at, ty);
    let row1 = row.insert(at, value);
    let m = row_map(types, row).insert(ty, value);
    assert forall|i: int| 0 <= i < types1.len() implies #[trigger] types1[i] == (if i < at {
        types[i]
    } else if i == at {
        ty
    } else {
        types[i - 1]
    }) by {}
    assert forall|i: int, j: int| 0 <= i < types1.len() && 0 <= j < types1.len() && i != j implies types1[i] != types1[j] by {
        let i0 = if i < at { i } else { i - 1 };
        let j0 = if j < at { j } else { j - 1 };
        if i != at {
            assert(types.contains(types[i0]));
        }
        if j != at {
            assert(types.contains(types[j0]));
        }
    }
    assert(m.dom() =~= types1.to_set()) by {
        assert forall|t: TypeId| types1.contains(t) <==> types.contains(t) || t == ty by {
            if types.contains(t) {
                let i = choose|i: int| 0 <= i < types.len() && types[i] == t;
                let i1 = if i < at { i } else { i + 1 };
                assert(types1[i1] == t);
            }
            assert(types1[at] == ty);
        }
    }
    assert forall|i: int| 0 <= i < types1.len() implies m[#[trigger] types1[i]] == row1[i] by {
        if i != at {
            let i0 = if i < at { i } else { i - 1 };
            lemma_row_map_at(types, row, i0);
            assert(types.contains(types[i0]));
        }
    }
    lemma_row_map_eq(types1, row1, m);
}

/// The number of types in an increasing list that are smaller than `ty`.
pub fn lower_bound(types: &Vec<TypeId>, ty: TypeId) -> (r: usize)
    requires
        increasing(types@),
    ensures
        r <= types@.len(),
        forall|k: int| 0 <= k < r ==> types@[k] < ty,
        forall|k: int| r <= k < types@.len() ==> ty <= types@[k],
{
    let mut lo: usize = 0;
    let mut hi: usize = types.len();
    while lo < hi
        invariant
            lo <= hi <= types@.len(),
            increasing(types@),
            forall|k: int| 0 <= k < lo ==> types@[k] < ty,
            forall|k: int| hi <= k < types@.len() ==> ty <= types@[k],
        decreases hi - lo,
    {
        let mid: usize = lo + (hi - lo) / 2;
        if types[mid] < ty {
            assert forall|k: int| 0 <= k < mid + 1 implies types@[k] < ty by {
                if k < mid {
                    assert(types@[k] < types@[mid as int]);
                }
            }
            lo = mid + 1;
        } else {
            assert forall|k: int| mid <= k < types@.len() implies ty <= types@[k] by {
                if mid < k {
                    assert(types@[mid as int] < types@[k]);
                }
            }
            hi = mid;
        }
    }
    lo
}

/// Binary search for `ty` in an increasing list.
pub fn find_type(types: &Vec<TypeId>, ty: TypeId) -> (r: Option<usize>)
    requires
        increasing(types@),
    ensures
        match r {
            Some(i) => i < types@.len() && types@[i as int] == ty && types@.index_of(ty) == i,
            None => !types@.contains(ty),
        },
{
    let at: usize = lower_bound(types, ty);
    if at < types.len() && types[at] == ty {
        proof {
            assert(types@[at as int] == ty);
            let k = types@.index_of(ty);
            assert(0 <= k < types@.len() && types@[k] == ty);
            if at < k {
                assert(types@[at as int] < types@[k]);
            }
        }
        Some(at)
    } else {
        proof {
            if types@.contains(ty) {
                let k = choose|k: int| 0 <= k < types@.len() && types@[k] == ty;
                if at < k {
                    assert(types@[at as int] < types@[k]);
                }
            }
        }
        None
    }
}

/// Puts a type in its place in an increasing list.
pub fn insert_sorted(types: &mut Vec<TypeId>, ty: TypeId) -> (at: usize)
    requires
        increasing(old(types)@),
        !old(types)@.to_set().contains(ty),
    ensures
        at <= old(types)@.len(),
        final(types)@ == old(types)@.insert(at as int, ty),
        increasing(final(types)@),
        final(types)@.to_set() == old(types)@.to_set().insert(ty),
{
    let at: usize = lower_bound(types, ty);
    let ghost before = types@;
    types.insert(at, ty);
    proof {
        assert forall|k: int| 0 <= k < types@.len() implies #[trigger] types@[k] == (if k < at {
            before[k]
        } else if k == at {
            ty
        } else {
            before[k - 1]
        }) by {}
        assert forall|k: int| 0 <= k < before.len() implies before[k] != ty by {
            assert(before.to_set().contains(before[k]));
        }
        assert forall|t: TypeId| types@.contains(t) <==> before.contains(t) || t == ty by {
            if before.contains(t) {
                let k = choose|k: int| 0 <= k < before.len() && before[k] == t;
                let k1 = if k < at { k } else { k + 1 };
                assert(types@[k1] == t);
            }
            assert(types@[at as int] == ty);
        }
        assert(types@.to_set() =~= before.to_set().insert(ty));
    }
    at
}

/// Whether two lists of types are the same.
pub fn same_types(a: &Vec<TypeId>, b: &Vec<TypeId>) -> (r: bool)
    ensures
        r == (a@ == b@),
{
    if a.len() != b.len() {
        return false;
    }
    let mut i: usize = 0;
    while i < a.len()
        invariant
            i <= a@.len(),
            a@.len() == b@.len(),
            forall|k: int| 0 <= k < i ==> a@[k] == b@[k],
        decreases a@.len() - i,
    {
        if a[i] != b[i] {
            assert(a@[i as int] != b@[i as int]);
            return false;
        }
        i = i + 1;
    }
    assert(a@ =~= b@);
    true
}

/// A copy of a list of types.
pub fn copy_types(a: &Vec<TypeId>) -> (r: Vec<TypeId>)
    ensures
        r@ == a@,
{
    let mut r: Vec<TypeId> = Vec::new();
    let mut i: usize = 0;
    while i < a.len()
        invariant
            i <= a@.len(),
            r@ == a@.subrange(0, i as int),
        decreases a@.len() - i,
    {
        r.push(a[i]);
        assert(r@ =~= a@.subrange(0, i + 1));
        i = i + 1;
    }
    assert(r@ =~= a@);
    r
}

} // verus!

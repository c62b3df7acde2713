//! Collections of components that are added to or removed from an entity at once.
use vstd::prelude::*;

use crate::laws::batches::law_row;
use crate::maps::BundleKey;
use crate::types::{
    copy_types, find_type, increasing, insert_sorted, lemma_row_map_insert, row_map, TypeId,
};

verus! {

/// Whether no type is listed twice.
fn all_distinct(types: &Vec<TypeId>) -> (r: bool)
    ensures
        r == types@.no_duplicates(),
{
    let mut i: usize = 0;
    while i < types.len()
        invariant
            i <= types@.len(),
            forall|a: int, b: int| 0 <= a < b < i ==> types@[a] != types@[b],
        decreases types@.len() - i,
    {
        let mut j: usize = 0;
        while j < i
            invariant
                j <= i < types@.len(),
                forall|a: int| 0 <= a < j ==> types@[a] != types@[i as int],
            decreases i - j,
        {
            if types[j] == types[i] {
                assert(types@[j as int] == types@[i as int]);
                return false;
            }
            j = j + 1;
        }
        i = i + 1;
    }
    true
}

/// A statically known collection of component types.
pub struct Bundle {
    key: Option<BundleKey>,
    types: Vec<TypeId>,
}

impl Bundle {
    /// The component types, in the order in which their values are listed.
    pub closed spec fn fields(&self) -> Seq<TypeId> {
        self.types@
    }

    /// Identifies the bundle type to the world, which then finds its archetypes faster.
    pub closed spec fn key_view(&self) -> Option<BundleKey> {
        self.key
    }

    #[verifier::type_invariant]
    pub open spec fn wf(&self) -> bool {
        self.fields().no_duplicates()
    }

    /// A bundle type of these component types, unless one of them occurs twice.
    pub fn new(key: Option<BundleKey>, types: Vec<TypeId>) -> (r: Option<Bundle>)
        ensures
            r is Some <==> types@.no_duplicates(),
            r matches Some(bundle) ==> bundle.fields() == types@ && bundle.key_view() == key,
    {
        if all_distinct(&types) {
            Some(Bundle { key, types })
        } else {
            None
        }
    }

    /// The bundle type of a single component.
    pub fn one(key: Option<BundleKey>, ty: TypeId) -> (r: Bundle)
        ensures
            r.fields() == seq![ty],
            r.key_view() == key,
    {
        let mut types: Vec<TypeId> = Vec::new();
        types.push(ty);
        let r = Bundle { key, types };
        assert(r.fields() =~= seq![ty]);
        r
    }

    pub fn key(&self) -> (r: Option<BundleKey>)
        ensures
            r == self.key_view(),
    {
        self.key
    }

    /// The component types, in the order in which their values are listed.
    pub fn types(&self) -> (r: &Vec<TypeId>)
        ensures
            r@ == self.fields(),
    {
        &self.types
    }

    /// The component types in increasing order.
    pub fn sorted_types(&self) -> (r: Vec<TypeId>)
        ensures
            increasing(r@),
            r@.to_set() == self.fields().to_set(),
    {
        proof {
            use_type_invariant(self);
        }
        let mut r: Vec<TypeId> = Vec::new();
        let mut i: usize = 0;
        while i < self.types.len()
            invariant
                i <= self.types@.len(),
                self.types@.no_duplicates(),
                increasing(r@),
                r@.to_set() == self.types@.subrange(0, i as int).to_set(),
            decreases self.types@.len() - i,
        {
            let ty: TypeId = self.types[i];
            let ghost before = self.types@.subrange(0, i as int);
            let ghost after = self.types@.subrange(0, i + 1);
            assert(!before.contains(ty));
            insert_sorted(&mut r, ty);
            proof {
                assert(after =~= before.push(ty));
                assert forall|t: TypeId| after.contains(t) <==> before.contains(t) || t == ty by {
                    if before.contains(t) {
                        let k = choose|k: int| 0 <= k < before.len() && before[k] == t;
                        assert(after[k] == t);
                    }
                    assert(after[i as int] == ty);
                }
                assert(r@.to_set() =~= after.to_set());
            }
            i = i + 1;
        }
        assert(self.types@.subrange(0, self.types@.len() as int) =~= self.types@);
        r
    }

    /// A bundle of this type, with values listed in the order of `types`.
    pub fn with_values<V>(&self, values: Vec<V>) -> (r: DynamicBundle<V>)
        requires
            values@.len() == self.fields().len(),
        ensures
            r@ == row_map(self.fields(), values@),
            r@.dom() == self.fields().to_set(),
            forall|k: int| 0 <= k < values@.len() ==> r@[self.fields()[k]] == #[trigger] values@[k],
            r.key_view() == self.key_view(),
    {
        proof {
            use_type_invariant(self);
            law_row(self.fields(), values@);
            assert(row_map(self.fields(), values@).dom() =~= self.fields().to_set());
        }
        DynamicBundle::build(self.key, copy_types(&self.types), values)
    }
}

/// A collection of components, each of a different type.
pub struct DynamicBundle<V> {
    key: Option<BundleKey>,
    types: Vec<TypeId>,
    values: Vec<V>,
}

impl<V> View for DynamicBundle<V> {
    type V = Map<TypeId, V>;

    /// The components, by type. The bundle type under which they are known is apart: see `key_view`.
    open spec fn view(&self) -> Map<TypeId, V> {
        row_map(self.types_view(), self.values_view())
    }
}

impl<V> DynamicBundle<V> {
    pub closed spec fn types_view(&self) -> Seq<TypeId> {
        self.types@
    }

    pub closed spec fn values_view(&self) -> Seq<V> {
        self.values@
    }

    /// The bundle type, if it is statically known.
    pub closed spec fn key_view(&self) -> Option<BundleKey> {
        self.key
    }

    #[verifier::type_invariant]
    pub open spec fn wf(&self) -> bool {
        &&& increasing(self.types_view())
        &&& self.values_view().len() == self.types_view().len()
    }

    fn build(key: Option<BundleKey>, types: Vec<TypeId>, values: Vec<V>) -> (r: Self)
        requires
            types@.no_duplicates(),
            values@.len() == types@.len(),
        ensures
            r@ == row_map(types@, values@),
            r.key_view() == key,
    {
        let ghost types0 = types@;
        let ghost values0 = values@;
        let mut values = values;
        let mut sorted: Vec<TypeId> = Vec::new();
        let mut row: Vec<V> = Vec::new();
        let mut i: usize = types.len();
        assert(row_map(sorted@, row@) =~= row_map(types0.skip(i as int), values0.skip(i as int)));
        while i > 0
            invariant
                i <= types0.len(),
                types@ == types0,
                types0.no_duplicates(),
                values0.len() == types0.len(),
                values@ == values0.subrange(0, i as int),
                increasing(sorted@),
                sorted@.len() == row@.len(),
                row_map(sorted@, row@) == row_map(types0.skip(i as int), values0.skip(i as int)),
            decreases i,
        {
            i = i - 1;
            let ty: TypeId = types[i];
            let ghost tail = types0.skip(i + 1);
            let ghost vtail = values0.skip(i + 1);
            let ghost sorted0 = sorted@;
            let ghost row0 = row@;
            proof {
                assert(!tail.contains(ty)) by {
                    if tail.contains(ty) {
                        let k = choose|k: int| 0 <= k < tail.len() && tail[k] == ty;
                        assert(types0[i + 1 + k] == ty);
                    }
                }
                assert(row_map(tail, vtail).dom() =~= tail.to_set());
                assert(row_map(sorted@, row@).dom() =~= sorted@.to_set());
                assert(!sorted@.to_set().contains(ty));
            }
            match values.pop() {
                Some(value) => {
                    assert(value == values0[i as int]);
                    let at: usize = insert_sorted(&mut sorted, ty);
                    row.insert(at, value);
                    proof {
                        assert(!sorted0.contains(ty));
                        lemma_row_map_insert(sorted0, row0, at as int, ty, value);
                        assert(tail.no_duplicates());
                        lemma_row_map_insert(tail, vtail, 0, ty, value);
                        assert(types0.skip(i as int) =~= tail.insert(0, ty));
                        assert(values0.skip(i as int) =~= vtail.insert(0, value));
                    }
                },
                None => {
                    assert(false);
                },
            }
            assert(values@ =~= values0.subrange(0, i as int));
        }
        assert(types0.skip(0) =~= types0);
        assert(values0.skip(0) =~= values0);
        DynamicBundle { key, types: sorted, values: row }
    }

    /// A bundle of these components, unless two of them have the same type.
    pub fn new(key: Option<BundleKey>, components: Vec<(TypeId, V)>) -> (r: Option<Self>)
        ensures
            r is Some <==> components@.map_values(|c: (TypeId, V)| c.0).no_duplicates(),
            r matches Some(bundle) ==> {
                &&& bundle@ == row_map(
                    components@.map_values(|c: (TypeId, V)| c.0),
                    components@.map_values(|c: (TypeId, V)| c.1),
                )
                &&& bundle@.dom() == components@.map_values(|c: (TypeId, V)| c.0).to_set()
                &&& forall|k: int| 0 <= k < components@.len() ==> bundle@[(#[trigger] components@[k]).0] == components@[k].1
                &&& bundle.key_view() == key
            },
    {
        let ghost firsts = components@.map_values(|c: (TypeId, V)| c.0);
        let ghost seconds = components@.map_values(|c: (TypeId, V)| c.1);
        let ghost components0 = components@;
        let mut components = components;
        let mut types: Vec<TypeId> = Vec::new();
        let mut values: Vec<V> = Vec::new();
        while components.len() > 0
            invariant
                components@.len() <= components0.len(),
                components@ == components0.skip(components0.len() - components@.len()),
                firsts.len() == components0.len(),
                seconds.len() == components0.len(),
                forall|k: int| 0 <= k < components0.len() ==> #[trigger] firsts[k] == components0[k].0,
                forall|k: int| 0 <= k < components0.len() ==> #[trigger] seconds[k] == components0[k].1,
                types@ == firsts.subrange(0, components0.len() - components@.len()),
                values@ == seconds.subrange(0, components0.len() - components@.len()),
            decreases components@.len(),
        {
            let ghost k = components0.len() - components@.len();
            let (ty, value) = components.remove(0);
            assert(components0[k] == (ty, value));
            types.push(ty);
            values.push(value);
            assert(components@ =~= components0.skip(k + 1));
            assert(types@ =~= firsts.subrange(0, k + 1));
            assert(values@ =~= seconds.subrange(0, k + 1));
        }
        assert(types@ =~= firsts);
        assert(values@ =~= seconds);
        proof {
            if firsts.no_duplicates() {
                law_row(firsts, seconds);
                assert(row_map(firsts, seconds).dom() =~= firsts.to_set());
                assert forall|k: int| 0 <= k < components0.len() implies row_map(firsts, seconds)[(#[trigger] components0[k]).0]
                    == components0[k].1 by {
                    assert(firsts[k] == components0[k].0);
                }
            }
        }
        if all_distinct(&types) {
            Some(Self::build(key, types, values))
        } else {
            None
        }
    }

    /// A bundle of a single component.
    pub fn one(key: Option<BundleKey>, ty: TypeId, value: V) -> (r: Self)
        ensures
            r@ == Map::<TypeId, V>::empty().insert(ty, value),
            r.key_view() == key,
    {
        let mut types: Vec<TypeId> = Vec::new();
        types.push(ty);
        let mut values: Vec<V> = Vec::new();
        values.push(value);
        let ghost e = Seq::<TypeId>::empty();
        let ghost ev = Seq::<V>::empty();
        proof {
            lemma_row_map_insert(e, ev, 0, ty, value);
            assert(types@ =~= e.insert(0, ty));
            assert(values@ =~= ev.insert(0, value));
            assert(row_map(e, ev) =~= Map::<TypeId, V>::empty());
        }
        DynamicBundle { key, types, values }
    }

    /// Makes a bundle of values listed in the order of an increasing list of types.
    pub fn from_row(types: Vec<TypeId>, values: Vec<V>) -> (r: Self)
        requires
            increasing(types@),
            values@.len() == types@.len(),
        ensures
            r@ == row_map(types@, values@),
            r@.dom() == types@.to_set(),
            forall|k: int| 0 <= k < values@.len() ==> r@[types@[k]] == #[trigger] values@[k],
            r.key_view() is None,
    {
        proof {
            law_row(types@, values@);
            assert(row_map(types@, values@).dom() =~= types@.to_set());
        }
        DynamicBundle { key: None, types, values }
    }

    pub fn key(&self) -> (r: Option<BundleKey>)
        ensures
            r == self.key_view(),
    {
        self.key
    }

    /// The component types, in increasing order.
    pub fn types(&self) -> (r: &Vec<TypeId>)
        ensures
            r@ == self.types_view(),
    {
        &self.types
    }

    /// The component values, in the order of the types.
    pub fn into_values(self) -> (r: Vec<V>)
        ensures
            r@ == self.values_view(),
    {
        self.values
    }

    /// The component of type `ty`.
    pub fn get(&self, ty: TypeId) -> (r: Option<&V>)
        ensures
            r == (if self@.contains_key(ty) {
                Some(&self@[ty])
            } else {
                None
            }),
    {
        proof {
            use_type_invariant(self);
        }
        match find_type(&self.types, ty) {
            Some(i) => {
                assert(self.types@[i as int] == ty);
                Some(&self.values[i])
            },
            None => None,
        }
    }
}

} // verus!

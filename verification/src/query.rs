//! Queries: which components of an entity are wanted, and how.
use vstd::prelude::*;

use crate::types::{find_type, increasing, TypeId};

verus! {

/// What to fetch from an entity.
///
/// An entity that lacks a component type referenced outside of an `Optional` does not satisfy a
/// query.
pub enum Query {
    /// The component of a type, to be read.
    Shared(TypeId),
    /// The component of a type, to be written. Only a world that is uniquely borrowed can be queried
    /// with it, or one whose components are borrowed dynamically: see `World::share`.
    Unique(TypeId),
    /// Several queries at once.
    Tuple(Vec<Query>),
    /// A query whose components are fetched if the entity satisfies it.
    Optional(Box<Query>),
}

/// One component that a query refers to.
#[derive(Debug, Clone, Copy, PartialEq, Eq, Structural)]
pub struct Leaf {
    pub ty: TypeId,
    /// Whether the component is to be written.
    pub unique: bool,
}

/// The components that several queries refer to, one query after the other.
pub open spec fn leaves_of(queries: Seq<Query>) -> Seq<Leaf>
    decreases queries,
{
    if queries.len() == 0 {
        Seq::empty()
    } else {
        leaves_of(queries.drop_last()) + queries.last().leaves()
    }
}

/// Which components that several queries refer to are fetched.
pub open spec fn present_in(queries: Seq<Query>, types: Set<TypeId>) -> Seq<bool>
    decreases queries,
{
    if queries.len() == 0 {
        Seq::empty()
    } else {
        present_in(queries.drop_last(), types) + queries.last().present(types)
    }
}

/// The component types that several queries refer to outside of an `Optional`.
pub open spec fn required_by(queries: Seq<Query>) -> Set<TypeId>
    decreases queries,
{
    if queries.len() == 0 {
        Set::empty()
    } else {
        required_by(queries.drop_last()).union(queries.last().required())
    }
}

impl Query {
    /// Whether entities with exactly these component types satisfy the query.
    pub open spec fn satisfied(self, types: Set<TypeId>) -> bool
        decreases self,
    {
        match self {
            Query::Shared(ty) => types.contains(ty),
            Query::Unique(ty) => types.contains(ty),
            Query::Tuple(queries) => forall|i: int| 0 <= i < queries@.len() ==> (#[trigger] queries@[i]).satisfied(types),
            Query::Optional(_) => true,
        }
    }

    /// The components that the query refers to, from left to right.
    pub open spec fn leaves(self) -> Seq<Leaf>
        decreases self,
    {
        match self {
            Query::Shared(ty) => seq![Leaf { ty, unique: false }],
            Query::Unique(ty) => seq![Leaf { ty, unique: true }],
            Query::Tuple(queries) => leaves_of(queries@),
            Query::Optional(query) => query.leaves(),
        }
    }

    /// Which of the components are fetched from entities with exactly these component types, if
    /// they satisfy the query.
    pub open spec fn present(self, types: Set<TypeId>) -> Seq<bool>
        decreases self,
    {
        match self {
            Query::Shared(_) => seq![true],
            Query::Unique(_) => seq![true],
            Query::Tuple(queries) => present_in(queries@, types),
            Query::Optional(query) => if query.satisfied(types) {
                query.present(types)
            } else {
                Seq::new(query.leaves().len(), |k: int| false)
            },
        }
    }

    /// What the query fetches from an entity with these components, if it satisfies the query: a
    /// value for each component that the query refers to, unless it is optional and missing.
    pub open spec fn items<V>(self, components: Map<TypeId, V>) -> Seq<Option<V>> {
        Seq::new(
            self.leaves().len(),
            |k: int|
                if self.present(components.dom())[k] {
                    Some(components[self.leaves()[k].ty])
                } else {
                    None
                },
        )
    }

    /// The component types that the query refers to outside of an `Optional`.
    pub open spec fn required(self) -> Set<TypeId>
        decreases self,
    {
        match self {
            Query::Shared(ty) => set![ty],
            Query::Unique(ty) => set![ty],
            Query::Tuple(queries) => required_by(queries@),
            Query::Optional(_) => Set::empty(),
        }
    }

    /// Whether the query fetches the component of type `ty` of entities with exactly these component
    /// types to be written.
    pub open spec fn writes(self, types: Set<TypeId>, ty: TypeId) -> bool {
        exists|k: int|
            0 <= k < self.leaves().len() && (#[trigger] self.leaves()[k]) == (Leaf { ty, unique: true }) && self.present(types)[k]
    }

    /// No component that is to be written is referred to twice.
    pub open spec fn borrows(self) -> bool {
        forall|i: int, j: int|
            0 <= i < self.leaves().len() && 0 <= j < self.leaves().len() && i != j && (#[trigger] self.leaves()[i]).unique
                ==> self.leaves()[i].ty != (#[trigger] self.leaves()[j]).ty
    }

    /// No component is to be written.
    pub open spec fn reads(self) -> bool {
        forall|i: int| 0 <= i < self.leaves().len() ==> !(#[trigger] self.leaves()[i]).unique
    }

    /// Whether both queries refer to a component type, and one of them to write it.
    pub open spec fn clashes(self, other: Query) -> bool {
        exists|i: int, j: int|
            0 <= i < self.leaves().len() && 0 <= j < other.leaves().len() && (#[trigger] self.leaves()[i]).ty == (
            #[trigger] other.leaves()[j]).ty && (self.leaves()[i].unique || other.leaves()[j].unique)
    }

    /// The components that the query refers to, from left to right.
    pub fn list(&self) -> (r: Vec<Leaf>)
        ensures
            r@ == self.leaves(),
        decreases self,
    {
        match self {
            Query::Shared(ty) => {
                let mut r: Vec<Leaf> = Vec::new();
                r.push(Leaf { ty: *ty, unique: false });
                r
            },
            Query::Unique(ty) => {
                let mut r: Vec<Leaf> = Vec::new();
                r.push(Leaf { ty: *ty, unique: true });
                r
            },
            Query::Tuple(queries) => {
                let mut r: Vec<Leaf> = Vec::new();
                let mut i: usize = 0;
                assert(queries@.take(0) =~= Seq::<Query>::empty());
                while i < queries.len()
                    invariant
                        i <= queries@.len(),
                        *self == Query::Tuple(*queries),
                        r@ == leaves_of(queries@.take(i as int)),
                    decreases queries@.len() - i,
                {
                    assert(decreases_to!(self => queries@[i as int])) by {
                        assert(decreases_to!(self => self->Tuple_0));
                        assert(decreases_to!(queries => queries@));
                        assert(decreases_to!(queries@ => queries@[i as int]));
                    }
                    let mut more = queries[i].list();
                    r.append(&mut more);
                    assert(queries@.take(i + 1).drop_last() =~= queries@.take(i as int));
                    i = i + 1;
                }
                assert(queries@.take(queries@.len() as int) =~= queries@);
                r
            },
            Query::Optional(query) => query.list(),
        }
    }

    /// Where the components are found among `types`; nothing if a component is missing that is not
    /// optional.
    pub fn prepare(&self, types: &Vec<TypeId>) -> (r: Option<Vec<Option<usize>>>)
        requires
            increasing(types@),
        ensures
            r is Some <==> self.satisfied(types@.to_set()),
            r matches Some(plan) ==> self.finds(types@, plan@),
        decreases self,
    {
        match self {
            Query::Shared(ty) => {
                let found = find_type(types, *ty);
                column(found)
            },
            Query::Unique(ty) => {
                let found = find_type(types, *ty);
                column(found)
            },
            Query::Tuple(queries) => {
                let mut r: Vec<Option<usize>> = Vec::new();
                let mut i: usize = 0;
                assert(queries@.take(0) =~= Seq::<Query>::empty());
                while i < queries.len()
                    invariant
                        i <= queries@.len(),
                        *self == Query::Tuple(*queries),
                        increasing(types@),
                        forall|j: int| 0 <= j < i ==> (#[trigger] queries@[j]).satisfied(types@.to_set()),
                        found_in(leaves_of(queries@.take(i as int)), present_in(queries@.take(i as int), types@.to_set()), types@, r@),
                    decreases queries@.len() - i,
                {
                    assert(decreases_to!(self => queries@[i as int])) by {
                        assert(decreases_to!(self => self->Tuple_0));
                        assert(decreases_to!(queries => queries@));
                        assert(decreases_to!(queries@ => queries@[i as int]));
                    }
                    match queries[i].prepare(types) {
                        Some(mut more) => {
                            r.append(&mut more);
                        },
                        None => {
                            proof {
                                lemma_part_satisfied(*queries, i as int, types@.to_set());
                            }
                            return None;
                        },
                    }
                    assert(queries@.take(i + 1).drop_last() =~= queries@.take(i as int));
                    i = i + 1;
                }
                assert(queries@.take(queries@.len() as int) =~= queries@);
                Some(r)
            },
            Query::Optional(query) => match query.prepare(types) {
                Some(plan) => Some(plan),
                None => {
                    let n: usize = query.list().len();
                    let mut r: Vec<Option<usize>> = Vec::new();
                    let mut i: usize = 0;
                    while i < n
                        invariant
                            i <= n,
                            r@.len() == i,
                            forall|k: int| 0 <= k < i ==> #[trigger] r@[k] is None,
                        decreases n - i,
                    {
                        r.push(None);
                        i = i + 1;
                    }
                    Some(r)
                },
            },
        }
    }

    /// Whether `plan` says which of `types` each component has.
    pub open spec fn finds(self, types: Seq<TypeId>, plan: Seq<Option<usize>>) -> bool {
        found_in(self.leaves(), self.present(types.to_set()), types, plan)
    }

    /// Whether no component is to be written.
    pub fn is_read_only(&self) -> (r: bool)
        ensures
            r == self.reads(),
    {
        let leaves = self.list();
        let mut i: usize = 0;
        while i < leaves.len()
            invariant
                i <= leaves@.len(),
                leaves@ == self.leaves(),
                forall|p: int| 0 <= p < i ==> !(#[trigger] leaves@[p]).unique,
            decreases leaves@.len() - i,
        {
            if leaves[i].unique {
                assert(self.leaves()[i as int].unique);
                return false;
            }
            i = i + 1;
        }
        true
    }

    /// Whether both queries refer to a component type, and one of them to write it.
    pub fn clashes_with(&self, other: &Query) -> (r: bool)
        ensures
            r == self.clashes(*other),
    {
        let mine = self.list();
        let theirs = other.list();
        let mut i: usize = 0;
        while i < mine.len()
            invariant
                i <= mine@.len(),
                mine@ == self.leaves(),
                theirs@ == other.leaves(),
                forall|p: int, q: int|
                    0 <= p < i && 0 <= q < theirs@.len() && (#[trigger] mine@[p]).ty == (#[trigger] theirs@[q]).ty ==> !mine@[p].unique
                        && !theirs@[q].unique,
            decreases mine@.len() - i,
        {
            let mut j: usize = 0;
            while j < theirs.len()
                invariant
                    i < mine@.len(),
                    j <= theirs@.len(),
                    mine@ == self.leaves(),
                    theirs@ == other.leaves(),
                    forall|q: int|
                        0 <= q < j && mine@[i as int].ty == (#[trigger] theirs@[q]).ty ==> !mine@[i as int].unique && !theirs@[q].unique,
                decreases theirs@.len() - j,
            {
                if mine[i].ty == theirs[j].ty && (mine[i].unique || theirs[j].unique) {
                    assert(self.leaves()[i as int].ty == other.leaves()[j as int].ty);
                    return true;
                }
                j = j + 1;
            }
            i = i + 1;
        }
        false
    }

    /// Whether no component that is to be written is referred to twice.
    pub fn is_sound(&self) -> (r: bool)
        ensures
            r == self.borrows(),
    {
        let leaves = self.list();
        let mut i: usize = 0;
        while i < leaves.len()
            invariant
                i <= leaves@.len(),
                leaves@ == self.leaves(),
                forall|p: int, q: int|
                    0 <= p < i && 0 <= q < leaves@.len() && p != q && (#[trigger] leaves@[p]).unique ==> leaves@[p].ty
                        != (#[trigger] leaves@[q]).ty,
            decreases leaves@.len() - i,
        {
            if leaves[i].unique {
                let mut j: usize = 0;
                while j < leaves.len()
                    invariant
                        i < leaves@.len(),
                        j <= leaves@.len(),
                        leaves@ == self.leaves(),
                        leaves@[i as int].unique,
                        forall|q: int| 0 <= q < j && i != q ==> leaves@[i as int].ty != (#[trigger] leaves@[q]).ty,
                    decreases leaves@.len() - j,
                {
                    if i != j && leaves[i].ty == leaves[j].ty {
                        assert(self.leaves()[i as int].ty == self.leaves()[j as int].ty);
                        return false;
                    }
                    j = j + 1;
                }
            }
            i = i + 1;
        }
        true
    }
}

/// Whether `plan` says, for each of `leaves`, which of `types` it has, or that it is not present.
pub open spec fn found_in(
    leaves: Seq<Leaf>,
    present: Seq<bool>,
    types: Seq<TypeId>,
    plan: Seq<Option<usize>>,
) -> bool {
    &&& plan.len() == leaves.len()
    &&& present.len() == leaves.len()
    &&& forall|k: int|
        0 <= k < plan.len() ==> match #[trigger] plan[k] {
            Some(c) => present[k] && c < types.len() && types[c as int] == leaves[k].ty,
            None => !present[k],
        }
}

/// An entity that satisfies a tuple satisfies each query of it.
proof fn lemma_part_satisfied(queries: Vec<Query>, i: int, types: Set<TypeId>)
    requires
        0 <= i < queries@.len(),
    ensures
        Query::Tuple(queries).satisfied(types) ==> queries@[i].satisfied(types),
{
    let q = Query::Tuple(queries);
    if q.satisfied(types) {
        assert(q->Tuple_0 == queries);
        assert(forall|j: int| 0 <= j < queries@.len() ==> (#[trigger] queries@[j]).satisfied(types));
    }
}

/// What a query fetches from an entity that satisfies it, the entity has.
pub proof fn lemma_present(query: Query, types: Set<TypeId>)
    ensures
        query.present(types).len() == query.leaves().len(),
        query.satisfied(types) ==> forall|k: int|
            0 <= k < query.leaves().len() && query.present(types)[k] ==> types.contains((#[trigger] query.leaves()[k]).ty),
    decreases query,
{
    match query {
        Query::Shared(_) => {},
        Query::Unique(_) => {},
        Query::Tuple(queries) => {
            assert(decreases_to!(query => query->Tuple_0));
            assert(decreases_to!(queries => queries@));
            lemma_present_in(queries@, types);
            if query.satisfied(types) {
                assert forall|i: int| 0 <= i < queries@.len() implies (#[trigger] queries@[i]).satisfied(types) by {
                    lemma_part_satisfied(queries, i, types);
                }
            }
        },
        Query::Optional(inner) => {
            lemma_present(*inner, types);
        },
    }
}

proof fn lemma_present_in(queries: Seq<Query>, types: Set<TypeId>)
    ensures
        present_in(queries, types).len() == leaves_of(queries).len(),
        (forall|i: int| 0 <= i < queries.len() ==> (#[trigger] queries[i]).satisfied(types)) ==> forall|k: int|
            0 <= k < leaves_of(queries).len() && present_in(queries, types)[k] ==> types.contains((#[trigger] leaves_of(queries)[k]).ty),
    decreases queries,
{
    if queries.len() > 0 {
        assert(decreases_to!(queries => queries.subrange(0, queries.len() - 1)));
        assert(queries.drop_last() == queries.subrange(0, queries.len() - 1));
        assert(decreases_to!(queries => queries[queries.len() - 1]));
        lemma_present_in(queries.drop_last(), types);
        lemma_present(queries.last(), types);
        if forall|i: int| 0 <= i < queries.len() ==> (#[trigger] queries[i]).satisfied(types) {
            let fewer = queries.drop_last();
            assert forall|i: int| 0 <= i < fewer.len() implies (#[trigger] fewer[i]).satisfied(types) by {
                assert(queries[i] == fewer[i]);
            }
            let n = leaves_of(fewer).len();
            assert forall|k: int| 0 <= k < leaves_of(queries).len() && present_in(queries, types)[k] implies types.contains(
                (#[trigger] leaves_of(queries)[k]).ty,
            ) by {
                if k < n {
                    assert(leaves_of(queries)[k] == leaves_of(fewer)[k]);
                } else {
                    assert(leaves_of(queries)[k] == queries.last().leaves()[k - n]);
                }
            }
        }
    }
}

/// An entity satisfies a query if and only if it has all component types that the query refers to
/// outside of an `Optional`.
pub proof fn law_required(query: Query, types: Set<TypeId>)
    ensures
        query.satisfied(types) <==> query.required().subset_of(types),
    decreases query,
{
    match query {
        Query::Shared(ty) => {
            assert(query.required().contains(ty));
        },
        Query::Unique(ty) => {
            assert(query.required().contains(ty));
        },
        Query::Tuple(queries) => {
            assert(decreases_to!(query => query->Tuple_0));
            assert(decreases_to!(queries => queries@));
            lemma_required_by(queries@, types);
            if query.satisfied(types) {
                assert forall|i: int| 0 <= i < queries@.len() implies (#[trigger] queries@[i]).satisfied(types) by {
                    lemma_part_satisfied(queries, i, types);
                }
            }
        },
        Query::Optional(_) => {},
    }
}

proof fn lemma_required_by(queries: Seq<Query>, types: Set<TypeId>)
    ensures
        (forall|i: int| 0 <= i < queries.len() ==> (#[trigger] queries[i]).satisfied(types)) <==> required_by(queries).subset_of(
            types,
        ),
    decreases queries,
{
    if queries.len() > 0 {
        let fewer = queries.drop_last();
        assert(decreases_to!(queries => queries.subrange(0, queries.len() - 1)));
        assert(fewer == queries.subrange(0, queries.len() - 1));
        assert(decreases_to!(queries => queries[queries.len() - 1]));
        lemma_required_by(fewer, types);
        law_required(queries.last(), types);
        let all = required_by(fewer).union(queries.last().required());
        if all.subset_of(types) {
            assert(required_by(fewer).subset_of(types)) by {
                assert forall|t: TypeId| required_by(fewer).contains(t) implies types.contains(t) by {
                    assert(all.contains(t));
                }
            }
            assert(queries.last().required().subset_of(types)) by {
                assert forall|t: TypeId| queries.last().required().contains(t) implies types.contains(t) by {
                    assert(all.contains(t));
                }
            }
            assert forall|i: int| 0 <= i < queries.len() implies (#[trigger] queries[i]).satisfied(types) by {
                if i < fewer.len() {
                    assert(fewer[i] == queries[i]);
                }
            }
        }
        if forall|i: int| 0 <= i < queries.len() ==> (#[trigger] queries[i]).satisfied(types) {
            assert forall|i: int| 0 <= i < fewer.len() implies (#[trigger] fewer[i]).satisfied(types) by {
                assert(fewer[i] == queries[i]);
            }
            assert(queries[queries.len() - 1].satisfied(types));
        }
    }
}

/// Every entity satisfies an `Optional`, which fetches what the query in it does, or nothing if the
/// entity does not satisfy that query.
pub proof fn law_optional<V>(query: Query, components: Map<TypeId, V>)
    ensures
        ({
            let optional = Query::Optional(Box::new(query));
            &&& optional.satisfied(components.dom())
            &&& query.satisfied(components.dom()) ==> optional.items(components) == query.items(components)
            &&& !query.satisfied(components.dom()) ==> forall|k: int|
                0 <= k < optional.items(components).len() ==> (#[trigger] optional.items(components)[k]) is None
        }),
{
    let optional = Query::Optional(Box::new(query));
    if query.satisfied(components.dom()) {
        assert(optional.items(components) =~= query.items(components));
    }
}

/// The plan for one component.
fn column(found: Option<usize>) -> (r: Option<Vec<Option<usize>>>)
    ensures
        r is Some <==> found is Some,
        r matches Some(plan) ==> plan@ == seq![found],
{
    match found {
        Some(i) => {
            let mut plan: Vec<Option<usize>> = Vec::new();
            plan.push(Some(i));
            Some(plan)
        },
        None => None,
    }
}

} // verus!

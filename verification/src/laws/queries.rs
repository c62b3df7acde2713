//! What a query asks for, by the way it is put together.
//!
//! A query is a reference to a component, an `Optional` around a query, or a tuple of queries, and
//! every tuple is made of the empty one by joining. So what is said here of these determines what each
//! query needs, refers to, fetches and writes.
use vstd::prelude::*;

use crate::entities::Entity;
use crate::fetch::{as_asked, current_values, values_of, Fetched};
use crate::iter::enumerates;
use crate::model::WorldModel;
use crate::query::{leaves_of, lemma_present, present_in, required_by, Leaf, Query};
use crate::types::TypeId;
use crate::world::{current_entries, entries_of, ViewMut, World};

verus! {

/// A reference to a component is satisfied by the entities that have it, and fetches it, to be read or
/// to be written.
pub proof fn law_single<V>(ty: TypeId, types: Set<TypeId>, components: Map<TypeId, V>)
    ensures
        Query::Shared(ty).satisfied(types) <==> types.contains(ty),
        Query::Unique(ty).satisfied(types) <==> types.contains(ty),
        Query::Shared(ty).leaves() == seq![Leaf { ty, unique: false }],
        Query::Unique(ty).leaves() == seq![Leaf { ty, unique: true }],
        Query::Shared(ty).present(types) == seq![true],
        Query::Unique(ty).present(types) == seq![true],
        Query::Shared(ty).items(components) == seq![Some(components[ty])],
        Query::Unique(ty).items(components) == seq![Some(components[ty])],
        Query::Shared(ty).required() == set![ty],
        Query::Unique(ty).required() == set![ty],
{
    assert(Query::Shared(ty).items(components) =~= seq![Some(components[ty])]);
    assert(Query::Unique(ty).items(components) =~= seq![Some(components[ty])]);
}

/// An `Optional` is satisfied by every entity. It refers to what the query in it refers to, and fetches
/// that from the entities that satisfy that query, and nothing from others.
pub proof fn law_optional_parts<V>(query: Query, types: Set<TypeId>, components: Map<TypeId, V>)
    ensures
        ({
            let optional = Query::Optional(Box::new(query));
            let nothing = Seq::new(query.leaves().len(), |k: int| None::<V>);
            &&& optional.satisfied(types)
            &&& optional.leaves() == query.leaves()
            &&& optional.items(components) == (if query.satisfied(components.dom()) {
                query.items(components)
            } else {
                nothing
            })
            &&& optional.present(types) == (if query.satisfied(types) {
                query.present(types)
            } else {
                Seq::new(query.leaves().len(), |k: int| false)
            })
            &&& optional.required() == Set::<TypeId>::empty()
        }),
{
    let optional = Query::Optional(Box::new(query));
    let nothing = Seq::new(query.leaves().len(), |k: int| None::<V>);
    if query.satisfied(components.dom()) {
        assert(optional.items(components) =~= query.items(components));
    } else {
        assert(optional.items(components) =~= nothing);
    }
}

/// An entity satisfies a tuple if and only if it satisfies each query of it.
pub proof fn law_tuple_satisfied(queries: Vec<Query>, types: Set<TypeId>)
    ensures
        Query::Tuple(queries).satisfied(types) <==> forall|i: int|
            0 <= i < queries@.len() ==> (#[trigger] queries@[i]).satisfied(types),
{
    let q = Query::Tuple(queries);
    assert(q->Tuple_0 == queries);
    if q.satisfied(types) {
        assert forall|i: int| 0 <= i < queries@.len() implies (#[trigger] queries@[i]).satisfied(types) by {}
    }
}

proof fn lemma_join(a: Seq<Query>, b: Seq<Query>, types: Set<TypeId>)
    ensures
        leaves_of(a + b) == leaves_of(a) + leaves_of(b),
        present_in(a + b, types) == present_in(a, types) + present_in(b, types),
        required_by(a + b) == required_by(a).union(required_by(b)),
    decreases b.len(),
{
    if b.len() == 0 {
        assert(a + b =~= a);
        assert(leaves_of(a) + leaves_of(b) =~= leaves_of(a));
        assert(present_in(a, types) + present_in(b, types) =~= present_in(a, types));
        assert(required_by(a).union(required_by(b)) =~= required_by(a));
    } else {
        let fewer = b.drop_last();
        lemma_join(a, fewer, types);
        assert((a + b).drop_last() =~= a + fewer);
        assert((a + b).last() == b.last());
        assert(leaves_of(a + b) =~= leaves_of(a) + leaves_of(b));
        assert(present_in(a + b, types) =~= present_in(a, types) + present_in(b, types));
        assert(required_by(a + b) =~= required_by(a).union(required_by(b)));
    }
}

/// A tuple refers to what its queries refer to, in the order of the queries, each as that query does,
/// and fetches what they fetch: joining two tuples joins what they refer to and what they fetch, a tuple
/// of one query is as good as that query, and an empty one refers to nothing.
pub proof fn law_tuple_joined<V>(
    a: Vec<Query>,
    b: Vec<Query>,
    both: Vec<Query>,
    types: Set<TypeId>,
    components: Map<TypeId, V>,
)
    requires
        both@ == a@ + b@,
    ensures
        ({
            let (x, y, z) = (Query::Tuple(a), Query::Tuple(b), Query::Tuple(both));
            &&& z.leaves() == x.leaves() + y.leaves()
            &&& z.present(types) == x.present(types) + y.present(types)
            &&& z.items(components) == x.items(components) + y.items(components)
            &&& z.required() == x.required().union(y.required())
        }),
{
    let (x, y, z) = (Query::Tuple(a), Query::Tuple(b), Query::Tuple(both));
    lemma_join(a@, b@, types);
    lemma_join(a@, b@, components.dom());
    lemma_present(x, components.dom());
    lemma_present(y, components.dom());
    lemma_present(z, components.dom());
    let n = x.leaves().len() as int;
    assert forall|k: int| 0 <= k < z.leaves().len() implies z.items(components)[k] == (x.items(components) + y.items(
        components,
    ))[k] by {
        if k < n {
            assert(z.leaves()[k] == x.leaves()[k]);
            assert(z.present(components.dom())[k] == x.present(components.dom())[k]);
        } else {
            assert(z.leaves()[k] == y.leaves()[k - n]);
            assert(z.present(components.dom())[k] == y.present(components.dom())[k - n]);
        }
    }
    assert(z.items(components) =~= x.items(components) + y.items(components));
}

/// See `law_tuple_joined`.
pub proof fn law_tuple_of_one<V>(queries: Vec<Query>, types: Set<TypeId>, components: Map<TypeId, V>)
    requires
        queries@.len() == 1,
    ensures
        ({
            let (x, q) = (Query::Tuple(queries), queries@[0]);
            &&& x.leaves() == q.leaves()
            &&& x.present(types) == q.present(types)
            &&& x.items(components) == q.items(components)
            &&& x.required() == q.required()
        }),
{
    let (x, q) = (Query::Tuple(queries), queries@[0]);
    let none = queries@.drop_last();
    assert(none.len() == 0);
    assert(leaves_of(queries@) == leaves_of(none) + q.leaves());
    assert(x.leaves() =~= q.leaves());
    assert(present_in(queries@, types) == present_in(none, types) + q.present(types));
    assert(x.present(types) =~= q.present(types));
    assert(present_in(queries@, components.dom()) == present_in(none, components.dom()) + q.present(components.dom()));
    assert(x.present(components.dom()) =~= q.present(components.dom()));
    assert(x.items(components) =~= q.items(components));
    assert(required_by(queries@) == required_by(none).union(q.required()));
    assert(x.required() =~= q.required());
}

/// See `law_tuple_joined`.
pub proof fn law_tuple_of_none<V>(queries: Vec<Query>, types: Set<TypeId>, components: Map<TypeId, V>)
    requires
        queries@.len() == 0,
    ensures
        ({
            let x = Query::Tuple(queries);
            &&& x.satisfied(types)
            &&& x.leaves() == Seq::<Leaf>::empty()
            &&& x.present(types) == Seq::<bool>::empty()
            &&& x.items(components) == Seq::<Option<V>>::empty()
            &&& x.required() == Set::<TypeId>::empty()
        }),
{
    let x = Query::Tuple(queries);
    law_tuple_satisfied(queries, types);
    assert(x.leaves() == leaves_of(queries@));
    assert(x.present(types) == present_in(queries@, types));
    assert(x.required() == required_by(queries@));
    assert(x.items(components) =~= Seq::<Option<V>>::empty());
}

/// What a tuple refers to and fetches, from the position on where the queries before leave off, is what
/// its query does, for each of its queries.
pub proof fn law_tuple_part<V>(
    queries: Vec<Query>,
    before: Vec<Query>,
    i: int,
    types: Set<TypeId>,
    components: Map<TypeId, V>,
)
    requires
        0 <= i < queries@.len(),
        before@ == queries@.take(i),
    ensures
        ({
            let x = Query::Tuple(queries);
            let q = queries@[i];
            let at = Query::Tuple(before).leaves().len() as int;
            &&& at + q.leaves().len() <= x.leaves().len()
            &&& x.leaves().subrange(at, at + q.leaves().len()) == q.leaves()
            &&& x.present(types).subrange(at, at + q.leaves().len()) == q.present(types)
            &&& x.items(components).subrange(at, at + q.leaves().len()) == q.items(components)
        }),
{
    let x = Query::Tuple(queries);
    let q = queries@[i];
    let at = Query::Tuple(before).leaves().len() as int;
    let upto = queries@.take(i + 1);
    let rest = queries@.skip(i + 1);
    let d = components.dom();
    assert(upto + rest =~= queries@);
    assert(upto.drop_last() =~= before@);
    assert(upto.last() == q);
    lemma_join(upto, rest, types);
    lemma_join(upto, rest, d);
    assert(leaves_of(upto) == leaves_of(before@) + q.leaves());
    assert(present_in(upto, types) == present_in(before@, types) + q.present(types));
    assert(present_in(upto, d) == present_in(before@, d) + q.present(d));
    lemma_present(x, types);
    lemma_present(q, types);
    lemma_present(Query::Tuple(before), types);
    lemma_present(x, d);
    lemma_present(q, d);
    lemma_present(Query::Tuple(before), d);
    let n = q.leaves().len() as int;
    assert forall|k: int| 0 <= k < n implies x.leaves()[at + k] == q.leaves()[k] && x.present(types)[at + k] == q.present(
        types,
    )[k] && x.present(d)[at + k] == q.present(d)[k] by {
        assert(leaves_of(upto)[at + k] == q.leaves()[k]);
        assert(present_in(upto, types)[at + k] == q.present(types)[k]);
        assert(present_in(upto, d)[at + k] == q.present(d)[k]);
    }
    assert(x.leaves().subrange(at, at + n) =~= q.leaves());
    assert(x.present(types).subrange(at, at + n) =~= q.present(types));
    assert(x.items(components).subrange(at, at + n) =~= q.items(components));
}

/// Whether a component that a tuple refers to is one that a query of it refers to.
proof fn lemma_leaf_of_part(queries: Seq<Query>, types: Set<TypeId>, k: int) -> (at: (int, int))
    requires
        0 <= k < leaves_of(queries).len(),
    ensures
        0 <= at.0 < queries.len(),
        0 <= at.1 < queries[at.0].leaves().len(),
        leaves_of(queries)[k] == queries[at.0].leaves()[at.1],
        present_in(queries, types)[k] == queries[at.0].present(types)[at.1],
    decreases queries.len(),
{
    let fewer = queries.drop_last();
    let n = leaves_of(fewer).len() as int;
    lemma_lengths(fewer, types);
    lemma_present(queries.last(), types);
    if k < n {
        let at = lemma_leaf_of_part(fewer, types, k);
        assert(fewer[at.0] == queries[at.0]);
        at
    } else {
        (queries.len() - 1, k - n)
    }
}

proof fn lemma_part_of_tuple(queries: Seq<Query>, types: Set<TypeId>, i: int, j: int) -> (k: int)
    requires
        0 <= i < queries.len(),
        0 <= j < queries[i].leaves().len(),
    ensures
        0 <= k < leaves_of(queries).len(),
        leaves_of(queries)[k] == queries[i].leaves()[j],
        present_in(queries, types)[k] == queries[i].present(types)[j],
        i == queries.len() - 1 ==> k == leaves_of(queries.drop_last()).len() + j,
        i < queries.len() - 1 ==> k < leaves_of(queries.drop_last()).len(),
    decreases queries.len(),
{
    let fewer = queries.drop_last();
    let n = leaves_of(fewer).len() as int;
    lemma_lengths(fewer, types);
    lemma_present(queries.last(), types);
    if i < fewer.len() {
        assert(fewer[i] == queries[i]);
        lemma_part_of_tuple(fewer, types, i, j)
    } else {
        n + j
    }
}

proof fn lemma_lengths(queries: Seq<Query>, types: Set<TypeId>)
    ensures
        present_in(queries, types).len() == leaves_of(queries).len(),
    decreases queries.len(),
{
    if queries.len() > 0 {
        lemma_lengths(queries.drop_last(), types);
        lemma_present(queries.last(), types);
    }
}

/// Whether a query clashes with another does not depend on which of them comes first.
pub proof fn law_clashes_symmetric(p: Query, q: Query)
    ensures
        p.clashes(q) <==> q.clashes(p),
{
    if p.clashes(q) {
        let (i, j) = choose|i: int, j: int|
            0 <= i < p.leaves().len() && 0 <= j < q.leaves().len() && (#[trigger] p.leaves()[i]).ty == (
            #[trigger] q.leaves()[j]).ty && (p.leaves()[i].unique || q.leaves()[j].unique);
        assert(q.leaves()[j].ty == p.leaves()[i].ty);
    }
    if q.clashes(p) {
        let (i, j) = choose|i: int, j: int|
            0 <= i < q.leaves().len() && 0 <= j < p.leaves().len() && (#[trigger] q.leaves()[i]).ty == (
            #[trigger] p.leaves()[j]).ty && (q.leaves()[i].unique || p.leaves()[j].unique);
        assert(p.leaves()[j].ty == q.leaves()[i].ty);
    }
}

/// A component type that is referred to anywhere in both queries, at whatever position, by one of them
/// to be written, makes them clash; nothing else does.
pub proof fn law_clashes_anywhere(p: Query, q: Query)
    ensures
        forall|i: int, j: int|
            0 <= i < p.leaves().len() && 0 <= j < q.leaves().len() && (#[trigger] p.leaves()[i]).ty == (
            #[trigger] q.leaves()[j]).ty && (p.leaves()[i].unique || q.leaves()[j].unique) ==> p.clashes(q),
        p.clashes(q) ==> exists|i: int, j: int|
            0 <= i < p.leaves().len() && 0 <= j < q.leaves().len() && (#[trigger] p.leaves()[i]).ty == (
            #[trigger] q.leaves()[j]).ty && (p.leaves()[i].unique || q.leaves()[j].unique),
{
}

/// References to components clash if they are to the same one and not both are to read it.
pub proof fn law_clashes_single(t: TypeId, u: TypeId)
    ensures
        Query::Unique(t).clashes(Query::Unique(u)) <==> t == u,
        Query::Unique(t).clashes(Query::Shared(u)) <==> t == u,
        Query::Shared(t).clashes(Query::Unique(u)) <==> t == u,
        !Query::Shared(t).clashes(Query::Shared(u)),
{
    let (a, b, c, d) = (Query::Unique(t), Query::Shared(t), Query::Unique(u), Query::Shared(u));
    assert(a.leaves()[0] == (Leaf { ty: t, unique: true }));
    assert(b.leaves()[0] == (Leaf { ty: t, unique: false }));
    assert(c.leaves()[0] == (Leaf { ty: u, unique: true }));
    assert(d.leaves()[0] == (Leaf { ty: u, unique: false }));
}

/// An `Optional` clashes with what the query in it clashes with.
pub proof fn law_clashes_optional(p: Query, q: Query)
    ensures
        Query::Optional(Box::new(p)).clashes(q) <==> p.clashes(q),
{
    let optional = Query::Optional(Box::new(p));
    assert(optional.leaves() == p.leaves());
}

/// A tuple clashes with a query if and only if some query of it does.
pub proof fn law_clashes_tuple(queries: Vec<Query>, q: Query)
    ensures
        Query::Tuple(queries).clashes(q) <==> exists|i: int|
            0 <= i < queries@.len() && (#[trigger] queries@[i]).clashes(q),
{
    let x = Query::Tuple(queries);
    assert(x.leaves() == leaves_of(queries@));
    if x.clashes(q) {
        let (i, j) = choose|i: int, j: int|
            0 <= i < x.leaves().len() && 0 <= j < q.leaves().len() && (#[trigger] x.leaves()[i]).ty == (
            #[trigger] q.leaves()[j]).ty && (x.leaves()[i].unique || q.leaves()[j].unique);
        let at = lemma_leaf_of_part(queries@, Set::empty(), i);
        assert(queries@[at.0].leaves()[at.1].ty == q.leaves()[j].ty);
        assert(queries@[at.0].clashes(q));
    }
    if exists|i: int| 0 <= i < queries@.len() && (#[trigger] queries@[i]).clashes(q) {
        let n = choose|i: int| 0 <= i < queries@.len() && (#[trigger] queries@[i]).clashes(q);
        let p = queries@[n];
        let (i, j) = choose|i: int, j: int|
            0 <= i < p.leaves().len() && 0 <= j < q.leaves().len() && (#[trigger] p.leaves()[i]).ty == (
            #[trigger] q.leaves()[j]).ty && (p.leaves()[i].unique || q.leaves()[j].unique);
        let k = lemma_part_of_tuple(queries@, Set::empty(), n, i);
        assert(x.leaves()[k].ty == q.leaves()[j].ty);
    }
}

/// A reference to a component writes that component if it is one to write it, and an `Optional` writes
/// what the query in it does, in entities that satisfy that query.
pub proof fn law_writes_single(t: TypeId, p: Query, types: Set<TypeId>, ty: TypeId)
    ensures
        Query::Unique(t).writes(types, ty) <==> t == ty,
        !Query::Shared(t).writes(types, ty),
        Query::Optional(Box::new(p)).writes(types, ty) <==> p.satisfied(types) && p.writes(types, ty),
{
    let (a, b) = (Query::Unique(t), Query::Shared(t));
    assert(a.leaves()[0] == (Leaf { ty: t, unique: true }));
    assert(b.leaves()[0] == (Leaf { ty: t, unique: false }));
    let optional = Query::Optional(Box::new(p));
    assert(optional.leaves() == p.leaves());
    lemma_present(p, types);
    if p.satisfied(types) {
        assert(optional.present(types) == p.present(types));
    }
    if optional.writes(types, ty) {
        let k = choose|k: int|
            0 <= k < optional.leaves().len() && (#[trigger] optional.leaves()[k]) == (Leaf { ty, unique: true })
                && optional.present(types)[k];
        assert(p.leaves()[k] == (Leaf { ty, unique: true }));
    }
}

/// A tuple writes what its queries write.
pub proof fn law_writes_tuple(queries: Vec<Query>, types: Set<TypeId>, ty: TypeId)
    ensures
        Query::Tuple(queries).writes(types, ty) <==> exists|i: int|
            0 <= i < queries@.len() && (#[trigger] queries@[i]).writes(types, ty),
{
    let x = Query::Tuple(queries);
    if x.writes(types, ty) {
        let k = choose|k: int|
            0 <= k < x.leaves().len() && (#[trigger] x.leaves()[k]) == (Leaf { ty, unique: true }) && x.present(types)[k];
        let at = lemma_leaf_of_part(queries@, types, k);
        assert(queries@[at.0].leaves()[at.1] == (Leaf { ty, unique: true }));
        assert(queries@[at.0].writes(types, ty));
    }
    if exists|i: int| 0 <= i < queries@.len() && (#[trigger] queries@[i]).writes(types, ty) {
        let n = choose|i: int| 0 <= i < queries@.len() && (#[trigger] queries@[i]).writes(types, ty);
        let p = queries@[n];
        let j = choose|k: int|
            0 <= k < p.leaves().len() && (#[trigger] p.leaves()[k]) == (Leaf { ty, unique: true }) && p.present(types)[k];
        let k = lemma_part_of_tuple(queries@, types, n, j);
        assert(x.leaves()[k] == (Leaf { ty, unique: true }));
    }
}

/// A query only reads unless a reference in it is to write: one to read only reads, one to write does
/// not, and an `Optional` or a tuple only reads if what is in it does.
pub proof fn law_reads(t: TypeId, p: Query, queries: Vec<Query>)
    ensures
        Query::Shared(t).reads(),
        !Query::Unique(t).reads(),
        Query::Optional(Box::new(p)).reads() <==> p.reads(),
        Query::Tuple(queries).reads() <==> forall|i: int| 0 <= i < queries@.len() ==> (#[trigger] queries@[i]).reads(),
{
    let a = Query::Unique(t);
    assert(a.leaves()[0].unique);
    let optional = Query::Optional(Box::new(p));
    assert(optional.leaves() == p.leaves());
    let x = Query::Tuple(queries);
    if x.reads() {
        assert forall|i: int| 0 <= i < queries@.len() implies (#[trigger] queries@[i]).reads() by {
            assert forall|j: int| 0 <= j < queries@[i].leaves().len() implies !(#[trigger] queries@[i].leaves()[j]).unique by {
                let k = lemma_part_of_tuple(queries@, Set::empty(), i, j);
                assert(!x.leaves()[k].unique);
            }
        }
    }
    if forall|i: int| 0 <= i < queries@.len() ==> (#[trigger] queries@[i]).reads() {
        assert forall|k: int| 0 <= k < x.leaves().len() implies !(#[trigger] x.leaves()[k]).unique by {
            let at = lemma_leaf_of_part(queries@, Set::empty(), k);
            assert(queries@[at.0].reads());
        }
    }
}

/// Where two queries that only read cannot clash, one that writes clashes with itself.
pub proof fn law_reads_clashes(p: Query, q: Query)
    ensures
        p.reads() && q.reads() ==> !p.clashes(q),
        p.reads() <==> !p.clashes(p),
{
    if !p.reads() {
        let i = choose|i: int| 0 <= i < p.leaves().len() && (#[trigger] p.leaves()[i]).unique;
        assert(p.leaves()[i].ty == p.leaves()[i].ty);
        assert(p.clashes(p));
    }
}

/// No component that is to be written is referred to twice: a single reference is sound, an `Optional`
/// is if the query in it is, and so is a tuple if all of its queries are and no two of them clash.
pub proof fn law_sound(t: TypeId, p: Query, queries: Vec<Query>)
    ensures
        Query::Shared(t).borrows(),
        Query::Unique(t).borrows(),
        Query::Optional(Box::new(p)).borrows() <==> p.borrows(),
        Query::Tuple(queries).borrows() <==> {
            &&& forall|i: int| 0 <= i < queries@.len() ==> (#[trigger] queries@[i]).borrows()
            &&& forall|i: int, j: int|
                0 <= i < queries@.len() && 0 <= j < queries@.len() && i != j ==> !(#[trigger] queries@[i]).clashes(
                    #[trigger] queries@[j],
                )
        },
{
    let optional = Query::Optional(Box::new(p));
    assert(optional.leaves() == p.leaves());
    lemma_sound_tuple(queries@);
    let x = Query::Tuple(queries);
    assert(x.leaves() == leaves_of(queries@));
}

/// No component that is to be written is listed twice.
spec fn once(leaves: Seq<Leaf>) -> bool {
    forall|i: int, j: int|
        0 <= i < leaves.len() && 0 <= j < leaves.len() && i != j && (#[trigger] leaves[i]).unique ==> leaves[i].ty != (
        #[trigger] leaves[j]).ty
}

spec fn apart(queries: Seq<Query>) -> bool {
    &&& forall|i: int| 0 <= i < queries.len() ==> (#[trigger] queries[i]).borrows()
    &&& forall|i: int, j: int|
        0 <= i < queries.len() && 0 <= j < queries.len() && i != j ==> !(#[trigger] queries[i]).clashes(#[trigger] queries[j])
}

proof fn lemma_sound_tuple(queries: Seq<Query>)
    ensures
        once(leaves_of(queries)) <==> apart(queries),
    decreases queries.len(),
{
    let all = leaves_of(queries);
    if queries.len() > 0 {
        let fewer = queries.drop_last();
        let last = queries.last();
        let n = leaves_of(fewer).len() as int;
        lemma_sound_tuple(fewer);
        assert(all == leaves_of(fewer) + last.leaves());
        if once(all) {
            assert(once(leaves_of(fewer))) by {
                assert forall|i: int, j: int|
                    0 <= i < n && 0 <= j < n && i != j && (#[trigger] leaves_of(fewer)[i]).unique implies leaves_of(fewer)[i].ty != (
                #[trigger] leaves_of(fewer)[j]).ty by {
                    assert(all[i] == leaves_of(fewer)[i] && all[j] == leaves_of(fewer)[j]);
                }
            }
            assert(last.borrows()) by {
                assert forall|i: int, j: int|
                    0 <= i < last.leaves().len() && 0 <= j < last.leaves().len() && i != j && (#[trigger] last.leaves()[i]).unique implies last.leaves()[i].ty
                    != (#[trigger] last.leaves()[j]).ty by {
                    assert(all[n + i] == last.leaves()[i] && all[n + j] == last.leaves()[j]);
                }
            }
            assert forall|i: int| 0 <= i < queries.len() implies (#[trigger] queries[i]).borrows() by {
                if i < fewer.len() {
                    assert(fewer[i] == queries[i]);
                }
            }
            assert forall|i: int, j: int| 0 <= i < queries.len() && 0 <= j < queries.len() && i != j implies !(
            #[trigger] queries[i]).clashes(#[trigger] queries[j]) by {
                let (p, q) = (queries[i], queries[j]);
                if p.clashes(q) {
                    let (a, b) = choose|a: int, b: int|
                        0 <= a < p.leaves().len() && 0 <= b < q.leaves().len() && (#[trigger] p.leaves()[a]).ty == (
                        #[trigger] q.leaves()[b]).ty && (p.leaves()[a].unique || q.leaves()[b].unique);
                    if i < fewer.len() && j < fewer.len() {
                        assert(fewer[i] == p && fewer[j] == q);
                    } else {
                        let x = lemma_part_of_tuple(queries, Set::empty(), i, a);
                        let y = lemma_part_of_tuple(queries, Set::empty(), j, b);
                        assert(x != y);
                        assert(all[x] == p.leaves()[a] && all[y] == q.leaves()[b]);
                    }
                }
            }
        }
        if apart(queries) {
            assert(apart(fewer)) by {
                assert forall|i: int| 0 <= i < fewer.len() implies (#[trigger] fewer[i]).borrows() by {
                    assert(fewer[i] == queries[i]);
                }
                assert forall|i: int, j: int| 0 <= i < fewer.len() && 0 <= j < fewer.len() && i != j implies !(
                #[trigger] fewer[i]).clashes(#[trigger] fewer[j]) by {
                    assert(fewer[i] == queries[i] && fewer[j] == queries[j]);
                }
            }
            assert(queries[queries.len() - 1].borrows());
            assert forall|i: int, j: int|
                0 <= i < all.len() && 0 <= j < all.len() && i != j && (#[trigger] all[i]).unique implies all[i].ty != (
            #[trigger] all[j]).ty by {
                if i < n && j < n {
                    assert(all[i] == leaves_of(fewer)[i] && all[j] == leaves_of(fewer)[j]);
                } else if i >= n && j >= n {
                    assert(all[i] == last.leaves()[i - n] && all[j] == last.leaves()[j - n]);
                } else {
                    let x = lemma_leaf_of_part(fewer, Set::empty(), if i < n { i } else { j });
                    let m = queries.len() - 1;
                    assert(fewer[x.0] == queries[x.0]);
                    if all[i].ty == all[j].ty {
                        if i < n {
                            assert(queries[x.0].leaves()[x.1] == all[i]);
                            assert(last.leaves()[j - n] == all[j]);
                            assert(queries[x.0].clashes(queries[m]));
                        } else {
                            assert(queries[x.0].leaves()[x.1] == all[j]);
                            assert(last.leaves()[i - n] == all[i]);
                            assert(queries[m].clashes(queries[x.0]));
                        }
                    }
                }
            }
        }
    }
}

/// The fetched values are those that the references refer to, each at its position.
pub proof fn law_values<V>(list: Seq<Option<&V>>)
    ensures
        values_of(list).len() == list.len(),
        forall|k: int|
            0 <= k < list.len() ==> match list[k] {
                Some(x) => #[trigger] values_of(list)[k] == Some(*x),
                None => values_of(list)[k] is None,
            },
{
}

/// The fetched values are those that the references refer to, each at its position, whether they can be
/// written or not.
pub proof fn law_current_values<V>(list: Seq<Option<Fetched<V>>>)
    ensures
        current_values(list).len() == list.len(),
        forall|k: int|
            0 <= k < list.len() ==> match list[k] {
                Some(Fetched::Shared(x)) => #[trigger] current_values(list)[k] == Some(*x),
                Some(Fetched::Unique(x)) => current_values(list)[k] == Some(*x),
                None => current_values(list)[k] is None,
            },
{
}

/// What entities yield is listed with each entity, at its position.
pub proof fn law_entries<V>(list: Seq<(Entity, Vec<Option<&V>>)>, others: Seq<(Entity, Vec<Option<Fetched<V>>>)>)
    ensures
        entries_of(list).len() == list.len(),
        forall|i: int| 0 <= i < list.len() ==> #[trigger] entries_of(list)[i] == (list[i].0, values_of(list[i].1@)),
        current_entries(others).len() == others.len(),
        forall|i: int|
            0 <= i < others.len() ==> #[trigger] current_entries(others)[i] == (others[i].0, current_values(others[i].1@)),
{
}

/// A component is handed out to be written exactly where the query asks for that.
pub proof fn law_handed_out<V>(query: Query, list: Seq<Option<Fetched<V>>>)
    ensures
        as_asked(query, list) <==> forall|k: int|
            0 <= k < list.len() ==> match #[trigger] list[k] {
                Some(Fetched::Unique(_)) => query.leaves()[k].unique,
                Some(Fetched::Shared(_)) => !query.leaves()[k].unique,
                None => true,
            },
{
    if as_asked(query, list) {
        assert forall|k: int| 0 <= k < list.len() implies match #[trigger] list[k] {
            Some(Fetched::Unique(_)) => query.leaves()[k].unique,
            Some(Fetched::Shared(_)) => !query.leaves()[k].unique,
            None => true,
        } by {}
    }
    if forall|k: int|
        0 <= k < list.len() ==> match #[trigger] list[k] {
            Some(Fetched::Unique(_)) => query.leaves()[k].unique,
            Some(Fetched::Shared(_)) => !query.leaves()[k].unique,
            None => true,
        } {
        assert forall|k: int| 0 <= k < list.len() && (#[trigger] list[k]) is Some implies (list[k]->0 is Unique
            <==> query.leaves()[k].unique) by {}
    }
}

/// What a tuple hands out for one of its queries, from the position on where the queries before leave off,
/// is what that query asks for: a component that the query refers to in order to write it can be written,
/// and any other can only be read.
pub proof fn law_handed_out_part<V>(queries: Vec<Query>, before: Vec<Query>, i: int, list: Seq<Option<Fetched<V>>>, k: int)
    requires
        0 <= i < queries@.len(),
        before@ == queries@.take(i),
        as_asked(Query::Tuple(queries), list),
        0 <= k < queries@[i].leaves().len(),
        list.len() == Query::Tuple(queries).leaves().len(),
    ensures
        match list[Query::Tuple(before).leaves().len() + k] {
            Some(Fetched::Unique(_)) => queries@[i].leaves()[k].unique,
            Some(Fetched::Shared(_)) => !queries@[i].leaves()[k].unique,
            None => true,
        },
{
    let x = Query::Tuple(queries);
    let q = queries@[i];
    let at = Query::Tuple(before).leaves().len() as int;
    law_tuple_part(queries, before, i, Set::empty(), Map::<TypeId, V>::empty());
    assert(x.leaves().subrange(at, at + q.leaves().len())[k] == x.leaves()[at + k]);
    law_handed_out(x, list);
}

/// A list that enumerates a map has each key at one position, and there its value.
pub proof fn law_enumerates<T>(list: Seq<(Entity, T)>, map: Map<Entity, T>, e: Entity)
    requires
        enumerates(list, map),
    ensures
        map.contains_key(e) <==> exists|i: int| 0 <= i < list.len() && (#[trigger] list[i]).0 == e,
        forall|i: int| 0 <= i < list.len() && (#[trigger] list[i]).0 == e ==> list[i].1 == map[e],
        forall|i: int, j: int|
            0 <= i < list.len() && 0 <= j < list.len() && (#[trigger] list[i]).0 == e && (#[trigger] list[j]).0 == e ==> i == j,
{
    assert forall|i: int, j: int|
        0 <= i < list.len() && 0 <= j < list.len() && (#[trigger] list[i]).0 == e && (#[trigger] list[j]).0 == e implies i == j by {
        if i < j {
            assert(list[i].0 != list[j].0);
        } else if j < i {
            assert(list[j].0 != list[i].0);
        }
    }
}

/// A query meets each live entity that satisfies it, and no other, and fetches its items from each.
pub proof fn law_matches<V>(m: WorldModel<V>, query: Query, e: Entity)
    ensures
        m.matches(query).contains_key(e) <==> m.live.contains_key(e) && query.satisfied(m.live[e].dom()),
        m.matches(query).contains_key(e) ==> m.matches(query)[e] == query.items(m.live[e]),
{
}

/// A view of a uniquely borrowed world has each live entity that satisfies its query, and no other, with
/// what the query fetches from it.
pub proof fn law_view_entries<V>(view: ViewMut<V>, world: World<V>, e: Entity)
    requires
        *view.world == world,
    ensures
        view.entries().contains_key(e) <==> world.model().live.contains_key(e) && view.query.satisfied(
            world.model().live[e].dom(),
        ),
        view.entries().contains_key(e) ==> view.entries()[e] == view.query.items(world.model().live[e]),
{
}

} // verus!

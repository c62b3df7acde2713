//! When queries that are active at the same time stand in each other's way.
use vstd::prelude::*;

use crate::entities::Entity;
use crate::laws::queries::{law_clashes_anywhere, law_clashes_symmetric};
use crate::model::WorldModel;
use crate::query::Query;
use crate::types::TypeId;
use crate::world::{blocked, Claim, SharedQuery, Sharing};

verus! {

/// A query on all entities borrows from each one that satisfies it; a query on a single entity only from
/// those that also have exactly the component types of that one.
pub proof fn law_covers(query: Query, only: Set<TypeId>, types: Set<TypeId>)
    ensures
        (Claim { query, only: None }).covers(types) <==> query.satisfied(types),
        (Claim { query, only: Some(only) }).covers(types) <==> query.satisfied(types) && only == types,
{
}

/// It does not matter which of two claims came first. They conflict if and only if their queries clash,
/// and there is a live entity from which both borrow.
pub proof fn law_conflicts<V>(m: WorldModel<V>, first: Claim, second: Claim)
    ensures
        first.conflicts(second, m) <==> second.conflicts(first, m),
        first.conflicts(second, m) <==> first.query.clashes(second.query) && exists|e: Entity|
            {
                &&& #[trigger] m.live.contains_key(e)
                &&& first.query.satisfied(m.live[e].dom())
                &&& second.query.satisfied(m.live[e].dom())
                &&& first.only matches Some(types) ==> types == m.live[e].dom()
                &&& second.only matches Some(types) ==> types == m.live[e].dom()
            },
{
    law_clashes_symmetric(first.query, second.query);
    if first.meets(second, m) {
        let e = choose|e: Entity| #[trigger]
            m.live.contains_key(e) && first.covers(m.live[e].dom()) && second.covers(m.live[e].dom());
        assert(second.covers(m.live[e].dom()) && first.covers(m.live[e].dom()));
    }
    if second.meets(first, m) {
        let e = choose|e: Entity| #[trigger]
            m.live.contains_key(e) && second.covers(m.live[e].dom()) && first.covers(m.live[e].dom());
        assert(first.covers(m.live[e].dom()) && second.covers(m.live[e].dom()));
    }
    if exists|e: Entity|
        {
            &&& #[trigger] m.live.contains_key(e)
            &&& first.query.satisfied(m.live[e].dom())
            &&& second.query.satisfied(m.live[e].dom())
            &&& first.only matches Some(types) ==> types == m.live[e].dom()
            &&& second.only matches Some(types) ==> types == m.live[e].dom()
        } {
        let e = choose|e: Entity|
            {
                &&& #[trigger] m.live.contains_key(e)
                &&& first.query.satisfied(m.live[e].dom())
                &&& second.query.satisfied(m.live[e].dom())
                &&& first.only matches Some(types) ==> types == m.live[e].dom()
                &&& second.only matches Some(types) ==> types == m.live[e].dom()
            };
        assert(first.covers(m.live[e].dom()) && second.covers(m.live[e].dom()));
    }
}

/// Where nothing is borrowed, nothing is refused. A claim is refused because of one that is held if and
/// only if the two conflict, whatever else is held.
pub proof fn law_blocked<V>(m: WorldModel<V>, held: Map<nat, Claim>, p: nat, other: Claim, claim: Claim)
    ensures
        !blocked(Map::<nat, Claim>::empty(), claim, m),
        blocked(held.insert(p, other), claim, m) <==> other.conflicts(claim, m) || blocked(held.remove(p), claim, m),
        held.contains_key(p) && held[p].conflicts(claim, m) ==> blocked(held, claim, m),
{
    let more = held.insert(p, other);
    let fewer = held.remove(p);
    if blocked(more, claim, m) && !other.conflicts(claim, m) {
        let q = choose|q: nat| #[trigger] more.contains_key(q) && more[q].conflicts(claim, m);
        assert(fewer.contains_key(q) && fewer[q] == more[q]);
    }
    if other.conflicts(claim, m) {
        assert(more.contains_key(p) && more[p] == other);
    }
    if blocked(fewer, claim, m) {
        let q = choose|q: nat| #[trigger] fewer.contains_key(q) && fewer[q].conflicts(claim, m);
        assert(more.contains_key(q) && more[q] == fewer[q]);
    }
}

/// While a query is active, another is refused that refers to one of its component types, wherever in the
/// two queries the type stands, if one of them writes it and an entity satisfies both.
pub proof fn law_no_alias<V>(m: WorldModel<V>, held: Map<nat, Claim>, p: nat, second: Query, i: int, j: int, e: Entity)
    requires
        held.contains_key(p),
        held[p].only is None,
        0 <= i < held[p].query.leaves().len(),
        0 <= j < second.leaves().len(),
        held[p].query.leaves()[i].ty == second.leaves()[j].ty,
        held[p].query.leaves()[i].unique || second.leaves()[j].unique,
        m.live.contains_key(e),
        held[p].query.satisfied(m.live[e].dom()),
        second.satisfied(m.live[e].dom()),
    ensures
        blocked(held, Claim { query: second, only: None }, m),
{
    let first = held[p];
    let claim = Claim { query: second, only: None };
    law_clashes_anywhere(first.query, second);
    assert(first.query.leaves()[i].ty == second.leaves()[j].ty);
    assert(first.covers(m.live[e].dom()) && claim.covers(m.live[e].dom()));
    assert(first.conflicts(claim, m));
}

/// Asking for the components of a query is granted if the query has them already, or if no claim that is
/// held conflicts with its own. A query that is granted something new holds it under a number of its own;
/// otherwise nothing changes.
pub proof fn law_borrowed<V>(before: Sharing<V>, now: Sharing<V>, asked: SharedQuery, left: SharedQuery, granted: bool)
    requires
        now.borrowed(&before, asked, left, granted),
    ensures
        ({
            let claim = asked.claim(before.model().archetypes);
            &&& asked.place() is Some ==> granted
            &&& asked.place() is None && granted ==> forall|p: nat| #[trigger]
                before.held().contains_key(p) ==> !before.held()[p].conflicts(claim, before.model())
            &&& !granted ==> exists|p: nat| #[trigger]
                before.held().contains_key(p) && before.held()[p].conflicts(claim, before.model())
            &&& asked.place() is Some || !granted ==> left == asked && now.held() == before.held()
            &&& asked.place() is None && granted ==> {
                &&& left.place() is Some
                &&& !before.held().contains_key(left.place()->0)
                &&& now.held() == before.held().insert(left.place()->0, claim)
                &&& left.claim(before.model().archetypes) == claim
            }
        }),
{
}

} // verus!

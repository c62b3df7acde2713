//! What is recorded about bundle types, and the numbers of worlds.
use spin::MutexGuard;
use vstd::prelude::*;

use crate::graph::GraphRecords;
use crate::maps::BundleKey;
use crate::types::TypeId;
use crate::world::World;
use crate::world_id::{guarded_value, held_lock, last_after, next_number, turn_taken};

verus! {

/// The archetype of a bundle type is recorded under its key, and nothing else changes; without a key
/// nothing is recorded.
pub proof fn law_bundle_recorded(records: GraphRecords, key: BundleKey, archetype: u32, other: BundleKey)
    ensures
        records.with_bundle(None, archetype) == records,
        ({
            let n = records.with_bundle(Some(key), archetype);
            &&& n.bundles.contains_key(key)
            &&& n.bundles[key] == archetype
            &&& other != key ==> (n.bundles.contains_key(other) <==> records.bundles.contains_key(other)) && n.bundles[other]
                == records.bundles[other]
            &&& n.inserts == records.inserts
            &&& n.removes == records.removes
        }),
        GraphRecords::empty().bundles == Map::<BundleKey, u32>::empty(),
        !GraphRecords::empty().inserts.contains_key((archetype, key)),
        !GraphRecords::empty().removes.contains_key((archetype, key)),
{
}

/// The archetypes of some bundle types are recorded one after the other, each under its position among
/// the archetypes.
pub proof fn law_bundles_recorded(
    records: GraphRecords,
    archetypes: Seq<Set<TypeId>>,
    keys: Seq<Option<BundleKey>>,
    types: Seq<Set<TypeId>>,
    key: Option<BundleKey>,
    archetype: int,
)
    requires
        keys.len() == types.len(),
        archetypes.no_duplicates(),
        0 <= archetype < archetypes.len() <= u32::MAX,
    ensures
        records.with_bundles(archetypes, Seq::empty(), Seq::empty()) == records,
        records.with_bundles(archetypes, keys.push(key), types.push(archetypes[archetype])) == records.with_bundles(
            archetypes,
            keys,
            types,
        ).with_bundle(key, archetype as u32),
{
    let more = types.push(archetypes[archetype]);
    assert(keys.push(key).drop_last() =~= keys);
    assert(more.drop_last() =~= types);
    assert(archetypes.contains(archetypes[archetype]));
    assert(archetypes.index_of(archetypes[archetype]) == archetype);
}

/// What an insertion or a removal does is recorded under the archetype it starts from and the key of the
/// bundle type, and nothing else changes; without a key nothing is recorded.
pub proof fn law_edges_recorded(
    records: GraphRecords,
    source: u32,
    key: BundleKey,
    types: Seq<TypeId>,
    retained: Seq<TypeId>,
    target: u32,
    other: (u32, BundleKey),
)
    ensures
        records.with_insert(source, None, types, retained, target) == records,
        records.with_remove(source, None, types, target) == records,
        ({
            let n = records.with_insert(source, Some(key), types, retained, target);
            &&& n.inserts.contains_key((source, key))
            &&& n.inserts[(source, key)] == (types, retained, target)
            &&& other != (source, key) ==> (n.inserts.contains_key(other) <==> records.inserts.contains_key(other))
                && n.inserts[other] == records.inserts[other]
            &&& n.bundles == records.bundles
            &&& n.removes == records.removes
        }),
        ({
            let n = records.with_remove(source, Some(key), types, target);
            &&& n.removes.contains_key((source, key))
            &&& n.removes[(source, key)] == (types, target)
            &&& other != (source, key) ==> (n.removes.contains_key(other) <==> records.removes.contains_key(other))
                && n.removes[other] == records.removes[other]
            &&& n.bundles == records.bundles
            &&& n.inserts == records.inserts
        }),
{
}

/// The number that is taken is one more than the last, and there is none after the largest.
pub proof fn law_next_number(last: u64)
    ensures
        last < u64::MAX ==> next_number(last) is Some && next_number(last)->0 == last + 1,
        last == u64::MAX ==> next_number(last) is None,
{
}

/// Whoever takes a number leaves it behind the lock that was held all along. It is one more than the
/// number that was found there; behind the largest nothing is taken, and it stays.
pub proof fn law_turn_taken(before: MutexGuard<u64>, left: MutexGuard<u64>, number: Option<u64>)
    requires
        turn_taken(before, left, number),
    ensures
        held_lock(left) == held_lock(before),
        match number {
            Some(n) => n == guarded_value(before) + 1 && guarded_value(left) == n,
            None => guarded_value(before) == u64::MAX && guarded_value(left) == u64::MAX,
        },
{
    reveal_with_fuel(last_after, 2);
}

/// The number of a world that was made is its own, and there is one if and only if a world was made.
pub proof fn law_number_of<V>(world: World<V>)
    ensures
        World::number_of(Some(world)) == Some(world.model().id),
        World::<V>::number_of(None) is None,
{
}

} // verus!

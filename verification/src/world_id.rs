//! Numbers by which worlds are told apart.
use spin::{Mutex, MutexGuard, Spin};
use vstd::prelude::*;

use crate::model::WorldModel;

verus! {

/// `spin::mutex::Mutex`: a lock around a value.
#[verifier::external_type_specification]
#[verifier::external_body]
#[verifier::reject_recursive_types(T)]
#[verifier::reject_recursive_types(R)]
pub struct ExMutex<T: ?Sized, R>(spin::mutex::Mutex<T, R>);

/// `spin::MutexGuard`: access to the value while the lock is held.
#[verifier::external_type_specification]
#[verifier::external_body]
#[verifier::reject_recursive_types(T)]
pub struct ExMutexGuard<'a, T: ?Sized + 'a>(MutexGuard<'a, T>);

/// `spin::Spin`: how a thread passes the time while it waits for a lock.
#[verifier::external_type_specification]
#[verifier::external_body]
pub struct ExSpin(Spin);

/// The value that a lock was made with.
pub uninterp spec fn initial_value(mutex: Mutex<u64>) -> u64;

/// `spin::Mutex::new` wraps a value, which is what the first holder of the lock finds behind it. What
/// the value is later on depends on who has locked it since, and is left unsaid.
#[verifier::external_body]
fn new_mutex(value: u64) -> (r: Mutex<u64>)
    ensures
        initial_value(r) == value,
{
    Mutex::new(value)
}

/// The lock that a guard holds.
pub uninterp spec fn held_lock(guard: MutexGuard<u64>) -> Mutex<u64>;

/// `spin::Mutex::lock` waits until nobody else holds the lock, and holds it from then on. The value
/// behind it is whatever the previous holders left there, and is left unsaid.
#[verifier::external_body]
fn lock<'a>(mutex: &'a Mutex<u64>) -> (r: MutexGuard<'a, u64>)
    ensures
        held_lock(r) == *mutex,
{
    mutex.lock()
}

/// The value behind the lock that a guard holds.
pub uninterp spec fn guarded_value(guard: MutexGuard<u64>) -> u64;

/// The `deref_mut` of `spin::MutexGuard` gives access to the value behind the lock: what is read
/// through it is that value, and what is written through it is the value from then on. The guard holds
/// the same lock as before.
#[verifier::external_body]
fn guarded<'g, 'a>(guard: &'g mut MutexGuard<'a, u64>) -> (r: &'g mut u64)
    ensures
        *r == guarded_value(*old(guard)),
        guarded_value(*final(guard)) == *final(r),
        held_lock(*final(guard)) == held_lock(*old(guard)),
{
    guard
}

/// The number after `last`; there is none after the largest.
pub open spec fn next_number(last: u64) -> Option<u64> {
    if last < u64::MAX {
        Some((last + 1) as u64)
    } else {
        None
    }
}

/// The last number that was taken once `count` more were asked for.
pub open spec fn last_after(last: u64, count: nat) -> u64
    decreases count,
{
    if count == 0 {
        last
    } else {
        match next_number(last_after(last, (count - 1) as nat)) {
            Some(next) => next,
            None => last_after(last, (count - 1) as nat),
        }
    }
}

/// What asking for a number yields after `count` others were asked for.
pub open spec fn nth_number(last: u64, count: nat) -> Option<u64> {
    next_number(last_after(last, count))
}

/// Numbers are taken one by one, until the largest is.
proof fn lemma_last_after(last: u64, count: nat)
    ensures
        last_after(last, count) == if last + count <= u64::MAX {
            last + count
        } else {
            u64::MAX as int
        },
    decreases count,
{
    if count > 0 {
        lemma_last_after(last, (count - 1) as nat);
    }
}

/// Numbers that are asked for one after the other grow, so that no two are the same; once they are
/// used up, there is none ever after.
pub proof fn law_numbers_differ(last: u64, earlier: nat, later: nat)
    requires
        earlier < later,
    ensures
        nth_number(last, later) matches Some(y) ==> {
            &&& nth_number(last, earlier) is Some
            &&& last < nth_number(last, earlier)->0 < y
        },
        nth_number(last, earlier) is None ==> nth_number(last, later) is None,
        nth_number(last, earlier) is Some <==> last + earlier < u64::MAX,
{
    lemma_last_after(last, earlier);
    lemma_last_after(last, later);
}

/// Whether a holder of a lock, whose guard is `before` at first and `left` in the end, takes `number`:
/// the one after that which it finds behind the lock, where it leaves it.
pub open spec fn turn_taken(before: MutexGuard<u64>, left: MutexGuard<u64>, number: Option<u64>) -> bool {
    &&& held_lock(left) == held_lock(before)
    &&& number == next_number(guarded_value(before))
    &&& guarded_value(left) == last_after(guarded_value(before), 1)
}

/// What one holder of a lock does: its guard at first and in the end, and the number that it takes.
pub struct Turn<'a> {
    pub before: MutexGuard<'a, u64>,
    pub left: MutexGuard<'a, u64>,
    pub number: Option<u64>,
}

/// Those who take numbers from a source, one after the other: each does so as `WorldIds::next`,
/// `World::new` and `World::from_iter` do, and finds behind the lock what the one before it left there.
pub open spec fn in_turn(ids: WorldIds, turns: Seq<Turn>) -> bool {
    &&& forall|i: int|
        0 <= i < turns.len() ==> ids.guarded_by((#[trigger] turns[i]).before) && turn_taken(
            turns[i].before,
            turns[i].left,
            turns[i].number,
        )
    &&& forall|i: int, j: int|
        0 <= i && j == i + 1 && j < turns.len() ==> guarded_value((#[trigger] turns[j]).before) == guarded_value(
            (#[trigger] turns[i]).left,
        )
}

/// Each holder of a lock takes the number that its turn has among those asked for from the first on.
proof fn lemma_turn(ids: WorldIds, turns: Seq<Turn>, i: int)
    requires
        in_turn(ids, turns),
        0 <= i < turns.len(),
    ensures
        guarded_value(turns[i].before) == last_after(guarded_value(turns[0].before), i as nat),
        turns[i].number == nth_number(guarded_value(turns[0].before), i as nat),
    decreases i,
{
    if i > 0 {
        lemma_turn(ids, turns, i - 1);
        reveal_with_fuel(last_after, 2);
        assert(guarded_value(turns[i].before) == guarded_value(turns[i - 1].left));
    }
}

/// However those who take numbers from a source follow each other, and whatever thread each is on, a
/// later one takes a larger number than an earlier one, or none: once the numbers are used up, no
/// number is used again.
pub proof fn law_numbers_in_turn(ids: WorldIds, turns: Seq<Turn>, earlier: int, later: int)
    requires
        in_turn(ids, turns),
        0 <= earlier < later < turns.len(),
    ensures
        turns[later].number matches Some(y) ==> turns[earlier].number is Some && turns[earlier].number->0 < y,
        turns[earlier].number is None ==> turns[later].number is None,
{
    lemma_turn(ids, turns, earlier);
    lemma_turn(ids, turns, later);
    law_numbers_differ(guarded_value(turns[0].before), earlier as nat, later as nat);
}

/// Where the first one finds what the source was made with, the numbers taken are those that follow it,
/// without a gap.
pub proof fn law_numbers_from_the_start(ids: WorldIds, turns: Seq<Turn>, i: int)
    requires
        in_turn(ids, turns),
        0 <= i < turns.len(),
        guarded_value(turns[0].before) == ids.start(),
    ensures
        ids.start() + 1 + i <= u64::MAX ==> turns[i].number == Some((ids.start() + 1 + i) as u64),
        ids.start() + 1 + i > u64::MAX ==> turns[i].number is None,
{
    lemma_turn(ids, turns, i);
    lemma_last_after(ids.start(), i as nat);
}

/// Of worlds that were given their numbers by one source, the later one has the larger number. So they
/// differ in what `World::memo` returns, even if they have equally many archetypes.
pub proof fn law_memos_differ<V, W>(
    ids: WorldIds,
    turns: Seq<Turn>,
    earlier: int,
    later: int,
    a: WorldModel<V>,
    b: WorldModel<W>,
)
    requires
        in_turn(ids, turns),
        0 <= earlier < later < turns.len(),
        turns[earlier].number == Some(a.id),
        turns[later].number == Some(b.id),
    ensures
        a.id < b.id,
        (a.id, a.archetypes.len()) != (b.id, b.archetypes.len()),
{
    law_numbers_in_turn(ids, turns, earlier, later);
}

/// Takes the number after the last one; there is none after the largest.
pub fn advance(last: &mut u64) -> (r: Option<u64>)
    ensures
        r == next_number(*old(last)),
        *final(last) == last_after(*old(last), 1),
        r is None <==> *old(last) == u64::MAX,
        r is None ==> *final(last) == *old(last),
        r matches Some(n) ==> n == *old(last) + 1 && *final(last) == n,
{
    proof {
        reveal_with_fuel(last_after, 2);
    }
    match last.checked_add(1) {
        Some(next) => {
            *last = next;
            Some(next)
        },
        None => None,
    }
}

/// Takes the next number behind a lock that is held, as `advance` does.
pub fn advance_locked(guard: &mut MutexGuard<'_, u64>) -> (r: Option<u64>)
    ensures
        turn_taken(*old(guard), *final(guard), r),
{
    advance(guarded(guard))
}

/// Source of the numbers of worlds, shared by the threads that create them.
pub struct WorldIds {
    last: Mutex<u64>,
}

impl WorldIds {
    /// The number that the first one given out follows.
    pub closed spec fn start(&self) -> u64 {
        initial_value(self.last)
    }

    /// Whether a guard holds the lock of this source.
    pub closed spec fn guarded_by(&self, guard: MutexGuard<u64>) -> bool {
        held_lock(guard) == self.last
    }

    /// The lock of a source is held from before a number is taken until after.
    pub proof fn law_same_source(&self, before: MutexGuard<u64>, left: MutexGuard<u64>, number: Option<u64>)
        requires
            self.guarded_by(before),
            turn_taken(before, left, number),
        ensures
            self.guarded_by(left),
    {
    }

    /// A source that has given out nothing.
    pub fn new() -> (r: WorldIds)
        ensures
            r.start() == 1,
    {
        WorldIds { last: new_mutex(1) }
    }

    /// Waits until nobody else takes a number from this source. What the holders before left behind the
    /// lock is left unsaid.
    pub(crate) fn lock(&self) -> (r: MutexGuard<'_, u64>)
        ensures
            self.guarded_by(r),
    {
        lock(&self.last)
    }

    /// The number after the one behind the lock of this source, where it is left, unless all are used
    /// up.
    ///
    /// Which one that is depends on who held the lock before; `law_numbers_in_turn` says how the
    /// numbers of those who do one after the other differ.
    pub fn next(&self) -> (r: Option<u64>)
        ensures
            exists|before: MutexGuard<u64>, left: MutexGuard<u64>|
                self.guarded_by(before) && #[trigger] turn_taken(before, left, r),
    {
        let mut guard = self.lock();
        let ghost before = guard;
        let r: Option<u64> = advance_locked(&mut guard);
        assert(self.guarded_by(before) && turn_taken(before, guard, r));
        r
    }
}

} // verus!

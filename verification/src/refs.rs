//! Unique references to several elements at once.
use vstd::prelude::*;

verus! {

/// A unique reference to every element.
pub fn each_mut<T>(s: &mut [T]) -> (r: Vec<&mut T>)
    ensures
        r@.len() == old(s)@.len(),
        final(s)@.len() == old(s)@.len(),
        forall|i: int| 0 <= i < r@.len() ==> *(#[trigger] r@[i]) == old(s)@[i],
        forall|i: int| 0 <= i < r@.len() ==> *final(#[trigger] r@[i]) == final(s)@[i],
{
    let mut r: Vec<&mut T> = Vec::new();
    let mut rest: &mut [T] = s;
    while rest.len() > 0
        invariant
            r@.len() + rest@.len() == old(s)@.len(),
            forall|i: int| 0 <= i < r@.len() ==> *(#[trigger] r@[i]) == old(s)@[i],
            forall|i: int| 0 <= i < rest@.len() ==> #[trigger] rest@[i] == old(s)@[r@.len() + i],
            after_borrow(s)@.len() == r@.len() + final(rest)@.len(),
            forall|i: int| 0 <= i < r@.len() ==> *final(#[trigger] r@[i]) == after_borrow(s)@[i],
            forall|k: int| r@.len() <= k < after_borrow(s)@.len() ==> #[trigger] after_borrow(s)@[k] == final(rest)@[k - r@.len()],
        decreases rest@.len(),
    {
        let (a, b) = rest.split_at_mut(1);
        r.push(&mut a[0]);
        rest = b;
    }
    r
}

/// Position of the largest number.
fn position_of_max(list: &Vec<usize>) -> (r: usize)
    requires
        list@.len() > 0,
    ensures
        r < list@.len(),
        forall|i: int| 0 <= i < list@.len() ==> #[trigger] list@[i] <= list@[r as int],
{
    let mut r: usize = 0;
    for i in 0..list.len()
        invariant
            r < list@.len(),
            forall|k: int| 0 <= k < i ==> #[trigger] list@[k] <= list@[r as int],
    {
        if list[i] > list[r] {
            r = i;
        }
    }
    r
}

/// Whether a number is listed.
pub fn contains_position(list: &Vec<usize>, x: usize) -> (r: bool)
    ensures
        r == list@.contains(x),
{
    for i in 0..list.len()
        invariant
            forall|k: int| 0 <= k < i ==> list@[k] != x,
    {
        if list[i] == x {
            return true;
        }
    }
    false
}

/// The same numbers.
pub fn copy_positions(list: &Vec<usize>) -> (r: Vec<usize>)
    ensures
        r@ == list@,
{
    let mut r: Vec<usize> = Vec::new();
    for i in 0..list.len()
        invariant
            r@ == list@.take(i as int),
    {
        r.push(list[i]);
        assert(list@.take(i + 1) =~= list@.take(i as int).push(list@[i as int]));
    }
    r
}

/// A unique reference to each element at the given positions.
pub fn pick_mut<'a, T>(s: &'a mut [T], positions: Vec<usize>) -> (r: Vec<&'a mut T>)
    requires
        positions@.no_duplicates(),
        forall|i: int| 0 <= i < positions@.len() ==> #[trigger] positions@[i] < old(s)@.len(),
    ensures
        r@.len() == positions@.len(),
        final(s)@.len() == old(s)@.len(),
        forall|i: int| 0 <= i < r@.len() ==> *(#[trigger] r@[i]) == old(s)@[positions@[i] as int],
        forall|i: int| 0 <= i < r@.len() ==> *final(#[trigger] r@[i]) == final(s)@[positions@[i] as int],
        forall|k: int|
            0 <= k < old(s)@.len() && !positions@.contains(k as usize) ==> #[trigger] final(s)@[k] == old(s)@[k],
    decreases positions@.len(),
{
    let ghost all = positions@;
    if positions.len() == 0 {
        return Vec::new();
    }
    let j: usize = position_of_max(&positions);
    let mut others = positions;
    let m: usize = others.remove(j);
    let ghost left = others@;
    proof {
        assert forall|i: int| 0 <= i < left.len() implies #[trigger] left[i] == all[if i < j { i } else { i + 1 }] by {}
        assert forall|i: int| 0 <= i < left.len() implies #[trigger] left[i] < m by {
            let k = if i < j { i } else { i + 1 };
            assert(all[k] != all[j as int]);
        }
        assert(left.no_duplicates()) by {
            assert forall|x: int, y: int| 0 <= x < left.len() && 0 <= y < left.len() && x != y implies left[x] != left[y] by {
                let kx = if x < j { x } else { x + 1 };
                let ky = if y < j { y } else { y + 1 };
                assert(all[kx] != all[ky]);
            }
        }
    }
    let (a, b) = s.split_at_mut(m);
    let mut r = pick_mut(a, others);
    r.insert(j, &mut b[0]);
    proof {
        assert forall|k: usize| left.contains(k) implies all.contains(k) by {
            let i = choose|i: int| 0 <= i < left.len() && left[i] == k;
            let x = if i < j { i } else { i + 1 };
            assert(all[x] == k);
        }
        assert(all[j as int] == m);
        assert forall|i: int| 0 <= i < all.len() && i != j implies #[trigger] all[i] == left[if i < j { i } else { i - 1 }] by {}
    }
    r
}

/// Puts each value in the slot at the position listed for it.
pub fn scatter<T>(slots: &mut Vec<Option<T>>, positions: &Vec<usize>, values: Vec<T>)
    requires
        values@.len() == positions@.len(),
        positions@.no_duplicates(),
        forall|x: int| 0 <= x < positions@.len() ==> #[trigger] positions@[x] < old(slots)@.len(),
    ensures
        final(slots)@.len() == old(slots)@.len(),
        forall|x: int| 0 <= x < positions@.len() ==> final(slots)@[(#[trigger] positions@[x]) as int] == Some(values@[x]),
        forall|i: int|
            0 <= i < old(slots)@.len() && !positions@.contains(i as usize) ==> #[trigger] final(slots)@[i] == old(slots)@[i],
{
    let ghost given = values@;
    let ghost before = slots@;
    let n: usize = positions.len();
    let mut x: usize = 0;
    for value in it: values
        invariant
            it.seq() == given,
            x == it.index(),
            n == positions@.len(),
            given.len() == n,
            slots@.len() == before.len(),
            positions@.no_duplicates(),
            forall|y: int| 0 <= y < n ==> (#[trigger] positions@[y]) < before.len(),
            forall|y: int| 0 <= y < x ==> slots@[(#[trigger] positions@[y]) as int] == Some(given[y]),
            forall|i: int| 0 <= i < before.len() && !positions@.contains(i as usize) ==> #[trigger] slots@[i] == before[i],
    {
        let p: usize = positions[x];
        slots[p] = Some(value);
        proof {
            assert(positions@[x as int] == p);
            assert forall|y: int| 0 <= y < x implies slots@[(#[trigger] positions@[y]) as int] == Some(given[y]) by {
                assert(positions@[y] != positions@[x as int]);
            }
        }
        x = x + 1;
    }
}

/// The rows of a table, given its columns.
pub fn transpose<T>(columns: Vec<Vec<T>>, n: usize) -> (r: Vec<Vec<T>>)
    requires
        forall|c: int| 0 <= c < columns@.len() ==> (#[trigger] columns@[c])@.len() == n,
    ensures
        r@.len() == n,
        forall|i: int| 0 <= i < n ==> (#[trigger] r@[i])@.len() == columns@.len(),
        forall|i: int, c: int| 0 <= i < n && 0 <= c < columns@.len() ==> #[trigger] r@[i]@[c] == columns@[c]@[i],
{
    let ghost table = columns@;
    let mut r: Vec<Vec<T>> = Vec::new();
    for i in 0..n
        invariant
            r@.len() == i,
            forall|k: int| 0 <= k < i ==> (#[trigger] r@[k])@.len() == 0,
    {
        r.push(Vec::new());
    }
    for column in it: columns
        invariant
            it.seq() == table,
            r@.len() == n,
            forall|c: int| 0 <= c < table.len() ==> (#[trigger] table[c])@.len() == n,
            forall|i: int| 0 <= i < n ==> (#[trigger] r@[i])@.len() == it.index(),
            forall|i: int, c: int| 0 <= i < n && 0 <= c < it.index() ==> #[trigger] r@[i]@[c] == table[c]@[i],
    {
        let ghost done = it.index() as int;
        let ghost whole = column@;
        let ghost before = r@;
        let mut i: usize = 0;
        for x in inner: column
            invariant
                inner.seq() == whole,
                whole.len() == n,
                whole == table[done]@,
                i == inner.index(),
                r@.len() == n,
                before.len() == n,
                forall|k: int| 0 <= k < n ==> (#[trigger] before[k])@.len() == done,
                forall|k: int| 0 <= k < i ==> (#[trigger] r@[k])@ == before[k]@.push(whole[k]),
                forall|k: int| i <= k < n ==> (#[trigger] r@[k])@ == before[k]@,
        {
            r[i].push(x);
            i = i + 1;
        }
    }
    r
}

} // verus!

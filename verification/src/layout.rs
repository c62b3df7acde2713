//! In which row of which archetype each entity is stored.
//!
//! A layout lists, for each archetype, the IDs of the entities stored there, by row.
use vstd::prelude::*;

use crate::model::swap_removed;
use crate::types::TypeId;

verus! {

/// With archetypes without entities added, up to `count` archetypes.
pub open spec fn grown(layout: Seq<Seq<u32>>, count: nat) -> Seq<Seq<u32>> {
    Seq::new(
        count,
        |a: int|
            if a < layout.len() {
                layout[a]
            } else {
                Seq::empty()
            },
    )
}

/// With rows for these IDs after the last row of an archetype.
pub open spec fn rows_added(layout: Seq<Seq<u32>>, archetype: int, ids: Seq<u32>) -> Seq<Seq<u32>> {
    layout.update(archetype, layout[archetype] + ids)
}

/// Without the row of an ID, whose place the last row of the archetype takes. All other rows stay
/// where they are.
pub open spec fn row_dropped(layout: Seq<Seq<u32>>, id: u32) -> Seq<Seq<u32>> {
    layout.map_values(
        |ids: Seq<u32>|
            if ids.contains(id) {
                swap_removed(ids, ids.index_of(id))
            } else {
                ids
            },
    )
}

/// Without the rows of some IDs, dropped one after the other.
pub open spec fn rows_dropped(layout: Seq<Seq<u32>>, ids: Seq<u32>) -> Seq<Seq<u32>>
    decreases ids.len(),
{
    if ids.len() == 0 {
        layout
    } else {
        row_dropped(rows_dropped(layout, ids.drop_last()), ids.last())
    }
}

/// With new rows in the archetype of these types, for these IDs in turn; `archetypes` lists the types
/// of each archetype.
pub open spec fn stored(
    layout: Seq<Seq<u32>>,
    archetypes: Seq<Set<TypeId>>,
    types: Set<TypeId>,
    ids: Seq<u32>,
) -> Seq<Seq<u32>> {
    rows_added(grown(layout, archetypes.len()), archetypes.index_of(types), ids)
}

/// With a new row for each of these IDs, one after the other, in the archetype of the types listed at
/// the same position.
pub open spec fn stored_each(
    layout: Seq<Seq<u32>>,
    archetypes: Seq<Set<TypeId>>,
    types: Seq<Set<TypeId>>,
    ids: Seq<u32>,
) -> Seq<Seq<u32>>
    decreases ids.len(),
{
    if ids.len() == 0 {
        grown(layout, archetypes.len())
    } else {
        stored(
            stored_each(layout, archetypes, types.drop_last(), ids.drop_last()),
            archetypes,
            types.last(),
            seq![ids.last()],
        )
    }
}

/// With the row of an ID in the archetype of these types: where it is, if that is its archetype, and
/// after the last row otherwise.
pub open spec fn moved(
    layout: Seq<Seq<u32>>,
    archetypes: Seq<Set<TypeId>>,
    types: Set<TypeId>,
    id: u32,
) -> Seq<Seq<u32>> {
    let all = grown(layout, archetypes.len());
    if all[archetypes.index_of(types)].contains(id) {
        all
    } else {
        stored(row_dropped(layout, id), archetypes, types, seq![id])
    }
}

/// Where an ID has one row, dropping it lets the last row of the archetype take its place, and leaves
/// all other rows where they are.
pub proof fn law_row_dropped(layout: Seq<Seq<u32>>, id: u32, archetype: int, row: int)
    requires
        0 <= archetype < layout.len(),
        0 <= row < layout[archetype].len(),
        layout[archetype][row] == id,
        forall|a: int, r: int|
            0 <= a < layout.len() && 0 <= r < layout[a].len() && #[trigger] layout[a][r] == id ==> a == archetype && r == row,
    ensures
        ({
            let after = row_dropped(layout, id);
            &&& after.len() == layout.len()
            &&& forall|a: int| 0 <= a < layout.len() && a != archetype ==> #[trigger] after[a] == layout[a]
            &&& after[archetype].len() == layout[archetype].len() - 1
            &&& forall|r: int| 0 <= r < after[archetype].len() ==> #[trigger] after[archetype][r] == layout[archetype][if r == row {
                layout[archetype].len() - 1
            } else {
                r
            }]
        }),
{
    let ids = layout[archetype];
    let after = row_dropped(layout, id);
    assert(ids.contains(id));
    let r = ids.index_of(id);
    assert(layout[archetype][r] == id);
    assert forall|a: int| 0 <= a < layout.len() && a != archetype implies #[trigger] after[a] == layout[a] by {
        if layout[a].contains(id) {
            let r = layout[a].index_of(id);
            assert(layout[a][r] == id);
        }
    }
}

/// New rows leave all others where they are.
pub proof fn law_rows_added(layout: Seq<Seq<u32>>, archetype: int, ids: Seq<u32>)
    requires
        0 <= archetype < layout.len(),
    ensures
        ({
            let after = rows_added(layout, archetype, ids);
            &&& after.len() == layout.len()
            &&& forall|a: int| 0 <= a < layout.len() ==> (#[trigger] after[a]).take(layout[a].len() as int) == layout[a]
            &&& after[archetype].skip(layout[archetype].len() as int) == ids
        }),
{
    let after = rows_added(layout, archetype, ids);
    assert forall|a: int| 0 <= a < layout.len() implies (#[trigger] after[a]).take(layout[a].len() as int) == layout[a] by {
        assert(after[a].take(layout[a].len() as int) =~= layout[a]);
    }
    assert(after[archetype].skip(layout[archetype].len() as int) =~= ids);
}

/// As many archetypes as there are leave nothing to be added.
pub proof fn lemma_grown_same(layout: Seq<Seq<u32>>)
    ensures
        grown(layout, layout.len()) == layout,
{
    assert(grown(layout, layout.len()) =~= layout);
}

/// Where an ID has no row, none is dropped.
pub proof fn lemma_nothing_dropped(layout: Seq<Seq<u32>>, id: u32)
    requires
        forall|a: int| 0 <= a < layout.len() ==> !(#[trigger] layout[a]).contains(id),
    ensures
        row_dropped(layout, id) == layout,
{
    assert(row_dropped(layout, id) =~= layout);
}

/// It does not matter whether archetypes are added before or after a row is dropped.
pub proof fn lemma_grown_dropped(layout: Seq<Seq<u32>>, count: nat, id: u32)
    ensures
        row_dropped(grown(layout, count), id) == grown(row_dropped(layout, id), count),
{
    let a = row_dropped(grown(layout, count), id);
    let b = grown(row_dropped(layout, id), count);
    assert forall|i: int| 0 <= i < count implies #[trigger] a[i] == b[i] by {}
    assert(a =~= b);
}

/// It does not matter whether some archetypes are added before a row is moved.
pub proof fn lemma_grown_moved(
    layout: Seq<Seq<u32>>,
    count: nat,
    archetypes: Seq<Set<TypeId>>,
    types: Set<TypeId>,
    id: u32,
)
    requires
        layout.len() <= count <= archetypes.len(),
    ensures
        moved(grown(layout, count), archetypes, types, id) == moved(layout, archetypes, types, id),
{
    let n = archetypes.len();
    assert(grown(grown(layout, count), n) =~= grown(layout, n));
    lemma_grown_dropped(layout, count, id);
    assert(grown(grown(row_dropped(layout, id), count), n) =~= grown(row_dropped(layout, id), n));
}

/// Archetypes that are added later on have no part in where rows are stored.
pub proof fn lemma_stored_each_grown(
    layout: Seq<Seq<u32>>,
    fewer: Seq<Set<TypeId>>,
    more: Seq<Set<TypeId>>,
    types: Seq<Set<TypeId>>,
    ids: Seq<u32>,
)
    requires
        layout.len() <= fewer.len(),
        fewer.is_prefix_of(more),
        more.no_duplicates(),
        types.len() == ids.len(),
        forall|i: int| 0 <= i < types.len() ==> fewer.contains(#[trigger] types[i]),
    ensures
        stored_each(layout, fewer, types, ids).len() == fewer.len(),
        grown(stored_each(layout, fewer, types, ids), more.len()) == stored_each(layout, more, types, ids),
    decreases ids.len(),
{
    let n = more.len();
    if ids.len() == 0 {
        assert(grown(grown(layout, fewer.len()), n) =~= grown(layout, n));
    } else {
        let small = stored_each(layout, fewer, types.drop_last(), ids.drop_last());
        let large = stored_each(layout, more, types.drop_last(), ids.drop_last());
        assert forall|i: int| 0 <= i < types.drop_last().len() implies fewer.contains(#[trigger] types.drop_last()[i]) by {
            assert(types.drop_last()[i] == types[i]);
        }
        lemma_stored_each_grown(layout, fewer, more, types.drop_last(), ids.drop_last());
        assert(fewer.contains(types[types.len() - 1]));
        let a = fewer.index_of(types.last());
        assert(more[a] == fewer[a]);
        assert(more.contains(types.last()));
        assert(more.index_of(types.last()) == a);
        lemma_grown_same(small);
        assert(large.len() == n);
        lemma_grown_same(large);
        assert(grown(rows_added(small, a, seq![ids.last()]), n) =~= rows_added(large, a, seq![ids.last()]));
    }
}

/// Rows that are added in two goes are as good as added at once.
pub proof fn lemma_rows_added(layout: Seq<Seq<u32>>, archetype: int, first: Seq<u32>, second: Seq<u32>)
    requires
        0 <= archetype < layout.len(),
    ensures
        rows_added(rows_added(layout, archetype, first), archetype, second) == rows_added(layout, archetype, first + second),
        rows_added(layout, archetype, Seq::empty()) == layout,
{
    assert(layout[archetype] + first + second =~= layout[archetype] + (first + second));
    assert(rows_added(rows_added(layout, archetype, first), archetype, second) =~= rows_added(
        layout,
        archetype,
        first + second,
    ));
    assert(layout[archetype] + Seq::<u32>::empty() =~= layout[archetype]);
    assert(rows_added(layout, archetype, Seq::empty()) =~= layout);
}

} // verus!

//! Where entities are stored.
use vstd::prelude::*;

use crate::archetype::Archetype;
use crate::entities::{ids_of, Entity};
use crate::laws::batches::law_row;
use crate::layout::{grown, moved, row_dropped, rows_dropped, stored, stored_each};
use crate::model::WorldModel;
use crate::types::{increasing, lemma_increasing_unique, listed, TypeId};
use crate::world::World;

verus! {

/// Archetypes that are added have no rows; the rows of the others stay.
pub proof fn law_grown(layout: Seq<Seq<u32>>, count: nat)
    requires
        layout.len() <= count,
    ensures
        grown(layout, count).len() == count,
        grown(layout, count).take(layout.len() as int) == layout,
        forall|a: int| layout.len() <= a < count ==> (#[trigger] grown(layout, count)[a]).len() == 0,
{
    assert(grown(layout, count).take(layout.len() as int) =~= layout);
}

/// Dropping the row of an ID that has none changes nothing.
pub proof fn law_no_row_dropped(layout: Seq<Seq<u32>>, id: u32)
    requires
        forall|a: int, r: int| 0 <= a < layout.len() && 0 <= r < layout[a].len() ==> #[trigger] layout[a][r] != id,
    ensures
        row_dropped(layout, id) == layout,
{
    assert forall|a: int| 0 <= a < layout.len() implies #[trigger] row_dropped(layout, id)[a] == layout[a] by {
        if layout[a].contains(id) {
            let r = choose|r: int| 0 <= r < layout[a].len() && layout[a][r] == id;
        }
    }
    assert(row_dropped(layout, id) =~= layout);
}

/// Rows are dropped one after the other, in the order of the IDs.
pub proof fn law_rows_dropped(layout: Seq<Seq<u32>>, ids: Seq<u32>, id: u32)
    ensures
        rows_dropped(layout, Seq::empty()) == layout,
        rows_dropped(layout, ids.push(id)) == row_dropped(rows_dropped(layout, ids), id),
        rows_dropped(layout, ids).len() == layout.len(),
    decreases ids.len(),
{
    assert(ids.push(id).drop_last() =~= ids);
    assert(ids.push(id).last() == id);
    if ids.len() > 0 {
        law_rows_dropped(layout, ids.drop_last(), ids.last());
    }
}

/// New rows are those after the last row of the archetype that has exactly the component types, for the
/// IDs in turn. All other rows stay where they were.
pub proof fn law_stored(layout: Seq<Seq<u32>>, archetypes: Seq<Set<TypeId>>, archetype: int, ids: Seq<u32>)
    requires
        layout.len() <= archetypes.len(),
        archetypes.no_duplicates(),
        0 <= archetype < archetypes.len(),
    ensures
        ({
            let n = stored(layout, archetypes, archetypes[archetype], ids);
            &&& n.len() == archetypes.len()
            &&& archetype < layout.len() ==> n[archetype] == layout[archetype] + ids
            &&& archetype >= layout.len() ==> n[archetype] == ids
            &&& forall|a: int| 0 <= a < layout.len() && a != archetype ==> #[trigger] n[a] == layout[a]
            &&& forall|a: int| layout.len() <= a < archetypes.len() && a != archetype ==> (#[trigger] n[a]).len() == 0
        }),
{
    let types = archetypes[archetype];
    assert(archetypes.contains(types));
    assert(archetypes.index_of(types) == archetype);
    let n = stored(layout, archetypes, types, ids);
    if archetype >= layout.len() {
        assert(n[archetype] =~= ids);
    }
}

/// New rows for entities of several component types are made one after the other, each after the last
/// row of the archetype of its types.
pub proof fn law_stored_each(
    layout: Seq<Seq<u32>>,
    archetypes: Seq<Set<TypeId>>,
    types: Seq<Set<TypeId>>,
    ids: Seq<u32>,
    archetype: int,
    id: u32,
)
    requires
        layout.len() <= archetypes.len(),
        archetypes.no_duplicates(),
        types.len() == ids.len(),
        forall|i: int| 0 <= i < types.len() ==> archetypes.contains(#[trigger] types[i]),
        0 <= archetype < archetypes.len(),
    ensures
        stored_each(layout, archetypes, Seq::empty(), Seq::empty()) == grown(layout, archetypes.len()),
        stored_each(layout, archetypes, types, ids).len() == archetypes.len(),
        ({
            let before = stored_each(layout, archetypes, types, ids);
            let n = stored_each(layout, archetypes, types.push(archetypes[archetype]), ids.push(id));
            &&& n.len() == archetypes.len()
            &&& n[archetype] == before[archetype].push(id)
            &&& forall|a: int| 0 <= a < archetypes.len() && a != archetype ==> #[trigger] n[a] == before[a]
        }),
{
    let before = stored_each(layout, archetypes, types, ids);
    lemma_stored_each_len(layout, archetypes, types, ids);
    let more = types.push(archetypes[archetype]);
    let all = ids.push(id);
    assert(more.drop_last() =~= types);
    assert(all.drop_last() =~= ids);
    law_stored(before, archetypes, archetype, seq![id]);
    assert(before[archetype] + seq![id] =~= before[archetype].push(id));
}

/// Rows are stored among all archetypes.
proof fn lemma_stored_each_len(layout: Seq<Seq<u32>>, archetypes: Seq<Set<TypeId>>, types: Seq<Set<TypeId>>, ids: Seq<u32>)
    requires
        types.len() == ids.len(),
        forall|i: int| 0 <= i < types.len() ==> archetypes.contains(#[trigger] types[i]),
    ensures
        stored_each(layout, archetypes, types, ids).len() == archetypes.len(),
    decreases ids.len(),
{
    if ids.len() > 0 {
        assert forall|i: int| 0 <= i < types.drop_last().len() implies archetypes.contains(#[trigger] types.drop_last()[i]) by {
            assert(types.drop_last()[i] == types[i]);
        }
        lemma_stored_each_len(layout, archetypes, types.drop_last(), ids.drop_last());
        assert(archetypes.contains(types[types.len() - 1]));
    }
}

/// An entity whose component types are still those of its archetype keeps its row. Otherwise its row is
/// dropped, and it has a new one after the last of the archetype of its types.
pub proof fn law_moved(layout: Seq<Seq<u32>>, archetypes: Seq<Set<TypeId>>, archetype: int, id: u32)
    requires
        layout.len() <= archetypes.len(),
        archetypes.no_duplicates(),
        0 <= archetype < archetypes.len(),
    ensures
        ({
            let n = moved(layout, archetypes, archetypes[archetype], id);
            let rest = row_dropped(layout, id);
            &&& n.len() == archetypes.len()
            &&& archetype < layout.len() && layout[archetype].contains(id) ==> n == grown(layout, archetypes.len())
            &&& archetype < layout.len() && !layout[archetype].contains(id) ==> {
                &&& n[archetype] == layout[archetype].push(id)
                &&& forall|a: int| 0 <= a < layout.len() && a != archetype ==> #[trigger] n[a] == rest[a]
                &&& forall|a: int| layout.len() <= a < archetypes.len() ==> (#[trigger] n[a]).len() == 0
            }
            &&& archetype >= layout.len() ==> {
                &&& n[archetype] == seq![id]
                &&& forall|a: int| 0 <= a < layout.len() ==> #[trigger] n[a] == rest[a]
                &&& forall|a: int| layout.len() <= a < archetypes.len() && a != archetype ==> (#[trigger] n[a]).len() == 0
            }
        }),
{
    let types = archetypes[archetype];
    let n = moved(layout, archetypes, types, id);
    let rest = row_dropped(layout, id);
    assert(archetypes.contains(types));
    assert(archetypes.index_of(types) == archetype);
    law_stored(rest, archetypes, archetype, seq![id]);
    if archetype < layout.len() && !layout[archetype].contains(id) {
        assert(rest[archetype] == layout[archetype]);
        assert(n[archetype] =~= layout[archetype].push(id));
    }
    if archetype >= layout.len() {
        assert(grown(layout, archetypes.len())[archetype] =~= Seq::<u32>::empty());
        assert(n[archetype] =~= seq![id]);
    }
}

/// Once the reserved entities are created, they have the last rows of the archetype without component
/// types: first those whose IDs were never used, then those whose IDs are used again. All other rows stay
/// where they were.
pub proof fn law_flushed_layout<V>(world: World<V>)
    requires
        world.layout().len() > 0,
    ensures
        ({
            let before = world.layout();
            let n = world.flushed_layout();
            let new = world.reserved_new();
            let again = world.reserved_again();
            let rows = before[0].len() as int;
            &&& n.len() == before.len()
            &&& n[0].len() == rows + new.len() + again.len()
            &&& n[0].take(rows) == before[0]
            &&& forall|i: int| 0 <= i < new.len() ==> n[0][rows + i] == (#[trigger] new[i]).id
            &&& forall|i: int| 0 <= i < again.len() ==> n[0][rows + new.len() + i] == (#[trigger] again[i]).id
            &&& forall|a: int| 1 <= a < before.len() ==> #[trigger] n[a] == before[a]
        }),
{
    let before = world.layout();
    let n = world.flushed_layout();
    let order = world.reserved_order();
    assert(n[0] == before[0] + ids_of(order));
    assert(n[0].take(before[0].len() as int) =~= before[0]);
    assert forall|i: int| 0 <= i < world.reserved_new().len() implies n[0][before[0].len() + i] == (
    #[trigger] world.reserved_new()[i]).id by {
        assert(order[i] == world.reserved_new()[i]);
        assert(ids_of(order)[i] == order[i].id);
    }
    let k = world.reserved_new().len() as int;
    assert forall|i: int| 0 <= i < world.reserved_again().len() implies n[0][before[0].len() + k + i] == (
    #[trigger] world.reserved_again()[i]).id by {
        assert(order[k + i] == world.reserved_again()[i]);
        assert(ids_of(order)[k + i] == order[k + i].id);
    }
}

/// A world that is unmoved has every row where it was, and the same handles reserved, in the same order,
/// and the same records of bundle types.
pub proof fn law_unmoved<V>(world: World<V>, before: World<V>)
    ensures
        world.unmoved(&before) <==> {
            &&& world.layout() == before.layout()
            &&& world.reserved_new() == before.reserved_new()
            &&& world.reserved_again() == before.reserved_again()
            &&& world.records() == before.records()
        },
        world.unmoved(&before) ==> world.flushed_layout() == before.flushed_layout(),
{
}

/// Where the entities of a world are laid out, an archetype has a row for exactly the live entities that
/// have its component types, and no ID has two rows.
pub proof fn law_laid_out<V>(m: WorldModel<V>, layout: Seq<Seq<u32>>, a: int, id: u32)
    requires
        m.wf(),
        m.laid_out(layout),
        0 <= a < m.archetypes.len(),
    ensures
        layout.len() == m.archetypes.len(),
        layout[a].no_duplicates(),
        layout[a].contains(id) <==> exists|e: Entity| #[trigger]
            m.live.contains_key(e) && e.id == id && m.live[e].dom() == m.archetypes[a],
{
    assert forall|r: int, q: int| 0 <= r < layout[a].len() && 0 <= q < layout[a].len() && r != q implies layout[a][r]
        != layout[a][q] by {}
    if layout[a].contains(id) {
        let r = choose|r: int| 0 <= r < layout[a].len() && layout[a][r] == id;
        assert(m.in_archetype(layout[a][r], a));
    }
    if exists|e: Entity| #[trigger] m.live.contains_key(e) && e.id == id && m.live[e].dom() == m.archetypes[a] {
        let e = choose|e: Entity| #[trigger] m.live.contains_key(e) && e.id == id && m.live[e].dom() == m.archetypes[a];
        assert(m.archetypes.contains(m.archetypes[a]));
        assert(m.archetypes.index_of(m.live[e].dom()) == a);
    }
}

/// The components of a row are the values of its columns, each under the type of its column.
pub proof fn law_row_components<V>(archetype: Archetype<V>, r: int)
    requires
        archetype.wf(),
        0 <= r < archetype.ids_view().len(),
    ensures
        archetype.components(r).dom() == archetype.types_view().to_set(),
        forall|c: int|
            0 <= c < archetype.types_view().len() ==> archetype.components(r)[#[trigger] archetype.types_view()[c]]
                == archetype.rows()[r][c],
{
    archetype.lemma_shape();
    let types = archetype.types_view();
    assert forall|i: int, j: int| 0 <= i < types.len() && 0 <= j < types.len() && i != j implies types[i] != types[j] by {
        if i < j {
            assert(types[i] < types[j]);
        } else {
            assert(types[j] < types[i]);
        }
    }
    law_row(types, archetype.rows()[r]);
    assert(archetype.components(r).dom() =~= types.to_set());
}

/// Each row of the archetypes that store a world's entities is that of a live entity, with its components,
/// in the archetype of its component types. No ID has two rows.
pub proof fn law_stored_rows<V>(m: WorldModel<V>, archs: Seq<Archetype<V>>, a: int, r: int, b: int, q: int)
    requires
        m.wf(),
        m.stored_in(archs),
        0 <= a < archs.len(),
        0 <= r < archs[a].ids_view().len(),
        0 <= b < archs.len(),
        0 <= q < archs[b].ids_view().len(),
    ensures
        exists|e: Entity| #[trigger]
            m.live.contains_key(e) && e.id == archs[a].ids_view()[r] && m.live[e] == archs[a].components(r) && m.live[e].dom()
                == archs[a].types_view().to_set(),
        m.archetypes[a] == archs[a].types_view().to_set(),
        archs[a].ids_view()[r] == archs[b].ids_view()[q] ==> a == b && r == q,
{
    assert(m.has_row(archs[a], r));
    law_row_components(archs[a], r);
    let ids = archs[a].ids_view();
    let others = archs[b].ids_view();
    assert(ids[r] == others[q] ==> a == b && r == q);
}

/// Each live entity has a row in the archetypes that store a world's entities: in the archetype of its
/// component types, with its components.
pub proof fn law_stored_in<V>(m: WorldModel<V>, archs: Seq<Archetype<V>>, e: Entity)
    requires
        m.wf(),
        m.stored_in(archs),
        m.live.contains_key(e),
    ensures
        archs.len() == m.archetypes.len(),
        exists|a: int, r: int|
            {
                &&& 0 <= a < archs.len()
                &&& 0 <= r < archs[a].ids_view().len()
                &&& #[trigger] archs[a].ids_view()[r] == e.id
                &&& archs[a].components(r) == m.live[e]
                &&& m.archetypes[a] == m.live[e].dom()
            },
{
    let (a, r) = choose|a: int, r: int|
        0 <= a < archs.len() && 0 <= r < archs[a].ids_view().len() && #[trigger] archs[a].ids_view()[r] == e.id;
    law_stored_rows(m, archs, a, r, a, r);
    let x = choose|x: Entity| #[trigger]
        m.live.contains_key(x) && x.id == archs[a].ids_view()[r] && m.live[x] == archs[a].components(r) && m.live[x].dom()
            == archs[a].types_view().to_set();
    assert(m.contains(e) && m.contains(x));
    assert(x == e);
}

/// The listing of some types has each of them once, the smaller ones first.
pub proof fn law_listed(set: Set<TypeId>, s: Seq<TypeId>)
    requires
        increasing(s),
        s.to_set() == set,
    ensures
        listed(set).len() == s.len(),
        forall|i: int, j: int| 0 <= i < j < s.len() ==> #[trigger] listed(set)[i] < #[trigger] listed(set)[j],
        forall|t: TypeId| #[trigger] set.contains(t) <==> exists|i: int| 0 <= i < s.len() && #[trigger] listed(set)[i] == t,
{
    lemma_increasing_unique(listed(set), s);
    assert forall|t: TypeId| #[trigger] set.contains(t) implies exists|i: int|
        0 <= i < s.len() && #[trigger] listed(set)[i] == t by {
        assert(s.contains(t));
        let i = choose|i: int| 0 <= i < s.len() && s[i] == t;
        assert(listed(set)[i] == t);
    }
    assert forall|i: int| 0 <= i < s.len() implies set.contains(#[trigger] listed(set)[i]) by {
        assert(s.to_set().contains(s[i]));
    }
}

/// A list of types is increasing if and only if each type is smaller than the one right behind it.
pub proof fn law_increasing(s: Seq<TypeId>)
    ensures
        increasing(s) <==> forall|i: int, j: int| 0 <= i && j == i + 1 && j < s.len() ==> #[trigger] s[i] < #[trigger] s[j],
{
    if forall|i: int, j: int| 0 <= i && j == i + 1 && j < s.len() ==> #[trigger] s[i] < #[trigger] s[j] {
        assert forall|i: int, j: int| 0 <= i < j < s.len() implies s[i] < s[j] by {
            lemma_steps(s, i, j);
        }
    }
}

proof fn lemma_steps(s: Seq<TypeId>, i: int, j: int)
    requires
        0 <= i < j < s.len(),
        forall|i: int, j: int| 0 <= i && j == i + 1 && j < s.len() ==> #[trigger] s[i] < #[trigger] s[j],
    ensures
        s[i] < s[j],
    decreases j - i,
{
    if i + 1 < j {
        lemma_steps(s, i, j - 1);
        assert(s[j - 1] < s[j]);
    } else {
        assert(s[i] < s[j]);
    }
}

} // verus!

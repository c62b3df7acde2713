//! Where entities are stored, and what holds over several operations.
use hecs_world::archetype_set::ArchetypeSet;
use hecs_world::graph::ArchetypeGraph;
use hecs_world::world_id::advance;
use hecs_world::{Bundle, ColumnBatch, ComponentError, DynamicBundle, Entity, TypeId, World};

const A: TypeId = 5;
const B: TypeId = 3;
const C: TypeId = 9;

fn bundle(list: Vec<(TypeId, i32)>) -> DynamicBundle<i32> {
    DynamicBundle::new(None, list).unwrap()
}

fn world() -> World<i32> {
    World::with_id(1)
}

/// The IDs of the entities in each archetype, by row.
fn rows(world: &World<i32>) -> Vec<Vec<u32>> {
    world
        .archetypes()
        .iter()
        .map(|arch| (0..arch.len()).map(|r| arch.entity_id(r)).collect())
        .collect()
}

fn spawn_some(world: &mut World<i32>, count: i32) -> Vec<Entity> {
    (0..count).map(|i| world.spawn(bundle(vec![(A, 10 * i)]))).collect()
}

/// The key of the bundle type of a single component.
fn one(ty: TypeId) -> u64 {
    1_000 + ty
}

#[test]
fn new_rows_come_last_and_the_last_row_fills_gaps() {
    let mut world = world();
    assert_eq!(rows(&world), vec![Vec::<u32>::new()]);
    let list = spawn_some(&mut world, 4);
    assert_eq!(rows(&world), vec![vec![], vec![0, 1, 2, 3]]);
    world.despawn(list[1]).unwrap();
    assert_eq!(rows(&world), vec![vec![], vec![0, 3, 2]]);
    for i in [0, 2, 3] {
        assert_eq!(world.get(list[i], A), Ok(&(10 * i as i32)));
    }
    world.spawn(bundle(vec![(A, 1)]));
    assert_eq!(rows(&world), vec![vec![], vec![0, 3, 2, 1]]);
    let taken = world.take(list[0]).unwrap();
    assert_eq!(taken.key(), None);
    assert_eq!(rows(&world), vec![vec![], vec![1, 3, 2]]);
    // The last row leaves no gap
    world.despawn(list[2]).unwrap();
    assert_eq!(rows(&world), vec![vec![], vec![1, 3]]);
    // A handle whose ID is in use gets a new row
    world.spawn_at(Entity { id: 1, generation: 7 }, bundle(vec![(A, 2)]));
    assert_eq!(rows(&world), vec![vec![], vec![3, 1]]);
    world.clear();
    assert_eq!(rows(&world), vec![Vec::<u32>::new(), vec![]]);
}

#[test]
fn changed_entities_move_only_if_they_must() {
    let mut world = world();
    let list = spawn_some(&mut world, 3);
    world.insert_one(list[0], B, one(B), 1).unwrap();
    assert_eq!(rows(&world), vec![vec![], vec![2, 1], vec![0]]);
    // Replaced where it is
    world.insert_one(list[2], A, one(A), 77).unwrap();
    assert_eq!(rows(&world), vec![vec![], vec![2, 1], vec![0]]);
    world.remove_one(list[0], B, one(B)).unwrap();
    assert_eq!(rows(&world), vec![vec![], vec![2, 1, 0], vec![]]);
    assert_eq!(world.remove(list[2], &Bundle::new(None, vec![]).unwrap()), Ok(vec![]));
    assert_eq!(world.exchange_one(list[2], A, one(A), A, one(A), 78), Ok(77));
    assert_eq!(rows(&world), vec![vec![], vec![2, 1, 0], vec![]]);
    assert_eq!(world.exchange_one(list[2], A, one(A), C, one(C), 79), Ok(78));
    assert_eq!(rows(&world), vec![vec![], vec![0, 1], vec![], vec![2]]);
}

#[test]
fn reserved_entities_are_created_in_order() {
    let mut world = world();
    let list = spawn_some(&mut world, 2);
    world.despawn(list[0]).unwrap();
    world.despawn(list[1]).unwrap();
    assert_eq!(world.reserve_entity().id, 1);
    assert_eq!(world.reserve_entity().id, 0);
    assert_eq!(world.reserve_entity().id, 2);
    assert_eq!(world.reserve_entity().id, 3);
    assert_eq!(rows(&world), vec![vec![], vec![]] as Vec<Vec<u32>>);
    world.flush();
    assert_eq!(rows(&world), vec![vec![2, 3, 0, 1], vec![]]);
}

#[test]
fn batches_are_stored_in_order() {
    let mut world = world();
    let list = spawn_some(&mut world, 2);
    world.spawn_batch(&Bundle::one(None, A), vec![vec![1], vec![2]]);
    assert_eq!(rows(&world), vec![vec![], vec![0, 1, 2, 3]]);
    let column = |values: Vec<i32>| ColumnBatch::new(values.len() as u32, vec![(A, values)]).unwrap();
    world.despawn(list[0]).unwrap();
    world.spawn_column_batch(column(vec![4, 5]));
    assert_eq!(rows(&world), vec![vec![], vec![3, 1, 2, 0, 4]]);
    let handles = [Entity { id: 2, generation: 4 }, Entity { id: 3, generation: 4 }];
    world.spawn_column_batch_at(&handles, column(vec![6, 7]));
    assert_eq!(rows(&world), vec![vec![], vec![0, 1, 4, 2, 3]]);
    assert_eq!(world.get(handles[1], A), Ok(&7));
    world.extend(vec![bundle(vec![(B, 1)]), bundle(vec![(A, 2)]), bundle(vec![(B, 3)])]);
    assert_eq!(rows(&world), vec![vec![], vec![0, 1, 4, 2, 3, 6], vec![5, 7]]);
}

#[test]
fn writing_moves_nothing() {
    let mut world = world();
    let list = spawn_some(&mut world, 3);
    world.despawn(list[0]).unwrap();
    let before = rows(&world);
    *world.get_unchecked(list[2], A).unwrap() = 5;
    assert_eq!(rows(&world), before);
}

#[test]
fn a_dropped_iterator_leaves_the_whole_batch() {
    let mut world = world();
    let mut iter = world.spawn_batch(&Bundle::one(None, A), vec![vec![1], vec![2], vec![3]]);
    let first = iter.next().unwrap();
    drop(iter);
    assert_eq!(world.len(), 3);
    assert_eq!(world.get(first, A), Ok(&1));
    for id in 0..3 {
        let e = world.find_entity_from_id(id);
        assert_eq!(world.get(e, A), Ok(&(id as i32 + 1)));
    }
    let batch = ColumnBatch::new(2, vec![(B, vec![8, 9])]).unwrap();
    drop(world.spawn_column_batch(batch));
    assert_eq!(world.len(), 5);
    assert_eq!(world.get(world.find_entity_from_id(4), B), Ok(&9));
}

#[test]
fn inserting_undoes_removing() {
    let mut world = world();
    let e = world.spawn(bundle(vec![(A, 1), (B, 2), (C, 3)]));
    let other = world.spawn(bundle(vec![(A, 4), (B, 5), (C, 6)]));
    let pair = Bundle::new(Some(1), vec![C, A]).unwrap();
    let removed = world.remove(e, &pair).unwrap();
    assert_eq!(removed, vec![3, 1]);
    let generation = world.archetypes_generation();
    world.insert(e, pair.with_values(removed)).unwrap();
    assert_eq!(world.archetypes_generation(), generation);
    for (i, ty) in [A, B, C].into_iter().enumerate() {
        assert_eq!(world.get(e, ty), Ok(&(i as i32 + 1)));
        assert_eq!(world.get(other, ty), Ok(&(i as i32 + 4)));
    }
}

#[test]
fn a_refused_exchange_only_flushes() {
    let mut world = world();
    let e = world.spawn(bundle(vec![(A, 1)]));
    let reserved = world.reserve_entity();
    let generation = world.archetypes_generation();
    assert!(matches!(
        world.exchange(e, &Bundle::new(None, vec![A, B]).unwrap(), bundle(vec![(C, 1)])),
        Err(ComponentError::MissingComponent(x)) if x.ty == B
    ));
    assert_eq!(world.archetypes_generation(), generation);
    assert_eq!(world.get(e, A), Ok(&1));
    assert_eq!(rows(&world), vec![vec![reserved.id], vec![e.id]]);
}

#[test]
fn archetypes_are_only_added() {
    let mut world = world();
    let types = |world: &World<i32>| -> Vec<Vec<TypeId>> {
        world.archetypes().iter().map(|arch| arch.types().clone()).collect()
    };
    let mut seen = vec![types(&world)];
    let e = world.spawn(bundle(vec![(A, 1), (B, 2)]));
    seen.push(types(&world));
    world.insert_one(e, C, one(C), 3).unwrap();
    seen.push(types(&world));
    world.exchange_one(e, A, one(A), A, one(A), 4).unwrap();
    seen.push(types(&world));
    world.despawn(e).unwrap();
    world.clear();
    seen.push(types(&world));
    world.spawn_batch(&Bundle::one(None, C), vec![]);
    seen.push(types(&world));
    for i in 1..seen.len() {
        assert!(seen[i].starts_with(&seen[i - 1]));
    }
    assert_eq!(
        seen[seen.len() - 1],
        vec![vec![], vec![B, A], vec![B, A, C], vec![B, C], vec![C]]
    );
}

#[test]
fn numbers_grow_until_they_are_used_up() {
    let mut last = u64::MAX - 3;
    let list: Vec<Option<u64>> = (0..5).map(|_| advance(&mut last)).collect();
    assert_eq!(
        list,
        vec![Some(u64::MAX - 2), Some(u64::MAX - 1), Some(u64::MAX), None, None]
    );
}

#[test]
fn generations_tell_archetypes_apart() {
    let mut world = world();
    let start = world.archetypes_generation();
    assert_eq!(world.archetypes_generation(), start);
    let e = world.spawn(bundle(vec![]));
    world.despawn(e).unwrap();
    assert_eq!(world.archetypes_generation(), start);
    let e = world.spawn(bundle(vec![(A, 1)]));
    let after = world.archetypes_generation();
    assert_ne!(after, start);
    world.remove_one(e, A, one(A)).unwrap();
    world.insert_one(e, A, one(A), 2).unwrap();
    assert_eq!(world.archetypes_generation(), after);
}

#[test]
fn edges_are_found_again() {
    let mut archetypes = ArchetypeSet::<i32>::new();
    let mut graph = ArchetypeGraph::new();
    let ab = graph.bundle_archetype(&mut archetypes, Some(1), &vec![B, A]);
    assert_eq!(graph.bundle_archetype(&mut archetypes, Some(1), &vec![B, A]), ab);
    let target = graph.insert_target(&mut archetypes, ab, Some(2), &vec![A, C]);
    assert_eq!(target.inserted(), &vec![A, C]);
    assert_eq!(target.retained(), &vec![B]);
    let again = graph.insert_target(&mut archetypes, ab, Some(2), &vec![A, C]);
    assert_eq!(again.index(), target.index());
    assert_eq!(again.retained(), &vec![B]);
    let removed = Bundle::new(Some(3), vec![A]).unwrap();
    let index = graph.remove_target(&mut archetypes, target.index(), &removed);
    assert_eq!(archetypes.all()[index as usize].types(), &vec![B, C]);
    assert_eq!(graph.remove_target(&mut archetypes, target.index(), &removed), index);
    // Under the same key, other types lead elsewhere
    let other = graph.remove_target(&mut archetypes, target.index(), &Bundle::new(Some(3), vec![C]).unwrap());
    assert_eq!(other, ab);
    assert_eq!(archetypes.all().len(), 4);
}

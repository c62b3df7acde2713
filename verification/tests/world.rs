//! Entities and their handles.
use hecs_world::entities::Entities;
use hecs_world::{
    Bundle, ColumnBatch, ComponentError, DynamicBundle, Entity, MissingComponent, NoSuchEntity, TypeId, World,
    WorldIds,
};

#[derive(Debug, Clone, Copy, PartialEq)]
enum Value {
    Unit,
    Int(i32),
    Flag(bool),
    Text(&'static str),
}

const UNIT: TypeId = 10;
const INT: TypeId = 20;
const FLAG: TypeId = 30;
const TEXT: TypeId = 40;

fn type_of(value: &Value) -> TypeId {
    match value {
        Value::Unit => UNIT,
        Value::Int(_) => INT,
        Value::Flag(_) => FLAG,
        Value::Text(_) => TEXT,
    }
}

/// Components of a statically known combination of types, told apart by `key`.
fn keyed(key: u64, values: Vec<Value>) -> DynamicBundle<Value> {
    let list = values.into_iter().map(|v| (type_of(&v), v)).collect();
    DynamicBundle::new(Some(key), list).unwrap()
}

/// Components of types that are not statically known.
fn dynamic(values: Vec<Value>) -> DynamicBundle<Value> {
    let list = values.into_iter().map(|v| (type_of(&v), v)).collect();
    DynamicBundle::new(None, list).unwrap()
}

fn nothing() -> DynamicBundle<Value> {
    keyed(0, vec![])
}

fn types(key: u64, list: Vec<TypeId>) -> Bundle {
    Bundle::new(Some(key), list).unwrap()
}

fn world() -> World<Value> {
    World::new(&WorldIds::new()).unwrap()
}

/// The key of the bundle type of a single component.
fn one(ty: TypeId) -> u64 {
    1_000 + ty
}

#[test]
fn reuse_empty() {
    let mut world = world();
    let a = world.spawn(nothing());
    world.despawn(a).unwrap();
    let b = world.spawn(nothing());
    assert_eq!(a.id, b.id);
    assert_ne!(a.generation, b.generation);
}

#[test]
fn clear_repeats_entity_id() {
    let mut world = world();
    let a = world.spawn(nothing());
    world.clear();
    let b = world.spawn(nothing());
    assert_eq!(a.id, b.id);
    assert_eq!(a.generation, b.generation);
}

#[test]
fn spawn_at() {
    let mut world = world();
    let a = world.spawn(nothing());
    world.despawn(a).unwrap();
    let b = world.spawn(nothing());
    assert!(world.contains(b));
    assert_eq!(a.id, b.id);
    assert_ne!(a.generation, b.generation);
    world.spawn_at(a, nothing());
    assert!(!world.contains(b));
    assert_eq!(b.id, a.id);
    assert_ne!(b.generation, a.generation);
}

#[test]
fn reuse_populated() {
    let mut world = world();
    let a = world.spawn(keyed(1, vec![Value::Int(42)]));
    assert_eq!(*world.get(a, INT).unwrap(), Value::Int(42));
    world.despawn(a).unwrap();
    let b = world.spawn(keyed(2, vec![Value::Flag(true)]));
    assert_eq!(a.id, b.id);
    assert_ne!(a.generation, b.generation);
    assert!(world.get(b, INT).is_err());
    assert_eq!(*world.get(b, FLAG).unwrap(), Value::Flag(true));
}

#[test]
fn remove_nothing() {
    let mut world = world();
    let a = world.spawn(keyed(3, vec![Value::Text("abc"), Value::Int(123)]));
    world.remove(a, &types(0, vec![])).unwrap();
}

#[test]
fn bad_insert() {
    let mut world = world();
    assert!(world.insert_one(Entity::dangling(), UNIT, one(UNIT), Value::Unit).is_err());
}

#[test]
fn deterministic_ids() {
    let mut world1 = world();
    let nothing_of_each = |n: usize| (0..n).map(|_| Vec::new()).collect::<Vec<Vec<Value>>>();
    let entities = world1.spawn_batch(&types(0, vec![]), nothing_of_each(10)).collect();
    const DESPAWNS: [usize; 3] = [4, 0, 7];
    for index in DESPAWNS {
        world1.despawn(entities[index]).unwrap();
    }

    let mut world2 = world();
    for (i, entity) in entities.iter().copied().enumerate() {
        if DESPAWNS.contains(&i) {
            continue;
        }
        world2.spawn_at(entity, nothing());
    }
    world2.set_freelist(&world1.freelist());

    assert_eq!(
        world1
            .spawn_batch(&types(0, vec![]), nothing_of_each(DESPAWNS.len() + 2))
            .collect(),
        world2
            .spawn_batch(&types(0, vec![]), nothing_of_each(DESPAWNS.len() + 2))
            .collect()
    );
}

// Covers off-by-one errors in freelist handling
#[test]
fn single_element_freelist() {
    let mut world1 = world();
    let a = world1.spawn(nothing());
    world1.despawn(a).unwrap();
    let freelist = world1.freelist();

    let mut world2 = world();
    world2.set_freelist(&freelist);
    assert_eq!(world2.freelist(), freelist);
}

#[test]
fn first_handles() {
    let mut world = world();
    assert!(world.is_empty());
    let a = world.spawn(dynamic(vec![Value::Int(123), Value::Text("abc")]));
    let b = world.spawn(dynamic(vec![Value::Int(456), Value::Flag(true)]));
    assert_eq!(a, Entity { id: 0, generation: 1 });
    assert_eq!(b, Entity { id: 1, generation: 1 });
    assert_eq!(world.len(), 2);
    assert!(!world.is_empty());
    assert_eq!(world.find_entity_from_id(1), b);
}

#[test]
fn resurrection() {
    let mut world = world();
    let a = world.spawn(keyed(4, vec![Value::Int(123), Value::Text("abc")]));
    let b = world.spawn(keyed(5, vec![Value::Int(456), Value::Flag(true)]));
    world.despawn(a).unwrap();
    assert!(!world.contains(a));
    world.spawn_at(a, keyed(4, vec![Value::Int(789), Value::Text("ABC")]));
    assert!(world.contains(a));
    assert_eq!(*world.get(a, INT).unwrap(), Value::Int(789));
    assert_eq!(*world.get(b, INT).unwrap(), Value::Int(456));
}

#[test]
fn despawn_twice() {
    let mut world = world();
    let a = world.spawn(nothing());
    let b = world.spawn(dynamic(vec![Value::Int(1)]));
    let c = world.spawn(dynamic(vec![Value::Int(2)]));
    assert_eq!(world.despawn(b), Ok(()));
    assert_eq!(world.despawn(b), Err(NoSuchEntity));
    assert_eq!(world.len(), 2);
    // The entity that was stored behind the despawned one keeps its components
    assert_eq!(*world.get(c, INT).unwrap(), Value::Int(2));
    assert!(world.contains(a));
}

#[test]
fn generations_wrap_around() {
    let mut world = world();
    let last = Entity { id: 0, generation: u32::MAX };
    world.spawn_at(last, nothing());
    world.despawn(last).unwrap();
    assert_eq!(world.spawn(nothing()), Entity { id: 0, generation: 1 });
}

#[test]
fn spawn_at_frees_the_ids_before() {
    let mut world = world();
    let e = Entity { id: 3, generation: 7 };
    world.spawn_at(e, dynamic(vec![Value::Int(5)]));
    let fresh = |id: u32| Entity { id, generation: 1 };
    assert_eq!(world.freelist(), vec![fresh(0), fresh(1), fresh(2)]);
    assert_eq!(world.spawn(nothing()), fresh(2));
    assert_eq!(world.spawn(nothing()), fresh(1));
    // One in the middle of the free handles
    let mut other = self::world();
    other.spawn_at(e, nothing());
    other.spawn_at(Entity { id: 0, generation: 9 }, nothing());
    assert_eq!(other.freelist(), vec![fresh(2), fresh(1)]);
    assert_eq!(other.len(), 2);
}

#[test]
fn freelist_grows_in_order() {
    let mut world = world();
    let list = world
        .spawn_batch(&types(0, vec![]), vec![vec![], vec![], vec![]])
        .collect();
    world.despawn(list[1]).unwrap();
    world.despawn(list[0]).unwrap();
    let freelist = world.freelist();
    assert_eq!(
        freelist,
        vec![Entity { id: 1, generation: 2 }, Entity { id: 0, generation: 2 }]
    );
    assert_eq!(world.spawn(nothing()), freelist[1]);
    assert_eq!(world.spawn(nothing()), freelist[0]);
    assert_eq!(world.spawn(nothing()), Entity { id: 3, generation: 1 });
}

#[test]
fn freelist_of_a_smaller_world() {
    let mut world1 = world();
    let a = world1.spawn(nothing());
    let mut world2 = world();
    world2.spawn_at(a, nothing());
    let b = world2.spawn(nothing());
    world2.despawn(b).unwrap();
    world2.set_freelist(&world1.freelist());
    assert_eq!(world1.spawn(nothing()), world2.spawn(nothing()));
}

#[test]
fn rebuilding() {
    let mut world1 = world();
    for i in 0..6 {
        world1.spawn(dynamic(vec![Value::Int(i)]));
    }
    world1.despawn(world1.find_entity_from_id(2)).unwrap();
    world1.despawn(world1.find_entity_from_id(4)).unwrap();
    let mut world2 = world();
    let mut iter = world1.iter();
    while let Some(e) = iter.next() {
        world2.spawn_at(e.entity(), dynamic(vec![*e.get(INT).unwrap()]));
    }
    world2.set_freelist(&world1.freelist());
    assert_eq!(world2.len(), world1.len());
    for _ in 0..4 {
        assert_eq!(world1.spawn(nothing()), world2.spawn(nothing()));
    }
}

#[test]
fn reserved_entities() {
    let mut world = world();
    let gone = world.spawn(nothing());
    world.despawn(gone).unwrap();
    let a = world.reserve_entity();
    assert_eq!(a, Entity { id: 0, generation: 2 });
    let more = world.reserve_entities(2);
    assert_eq!(more, vec![Entity { id: 1, generation: 1 }, Entity { id: 2, generation: 1 }]);
    assert_eq!(world.len(), 0);
    assert!(world.contains(a) && world.contains(more[0]) && world.contains(more[1]));
    assert!(!world.contains(Entity { id: 3, generation: 1 }));
    assert!(!world.contains(Entity { id: 2, generation: 2 }));
    assert_eq!(
        world.get(a, INT),
        Err(ComponentError::MissingComponent(MissingComponent { ty: INT }))
    );
    assert_eq!(world.find_entity_from_id(0), a);
    assert!(world.iter().next().is_none());
    world.insert(more[1], dynamic(vec![Value::Int(9)])).unwrap();
    assert_eq!(world.len(), 3);
    assert_eq!(*world.get(more[1], INT).unwrap(), Value::Int(9));
    let b = world.reserve_entity();
    world.flush();
    world.flush();
    assert_eq!(b, Entity { id: 3, generation: 1 });
    assert_eq!(world.len(), 4);
    assert!(world.entity(b).is_ok());
}

#[test]
fn reserving_from_the_freelist_in_order() {
    let mut world = world();
    let list = world
        .spawn_batch(&types(0, vec![]), vec![vec![], vec![], vec![]])
        .collect();
    for e in list {
        world.despawn(e).unwrap();
    }
    let second = |id: u32| Entity { id, generation: 2 };
    assert_eq!(world.reserve_entities(2), vec![second(1), second(2)]);
    assert_eq!(world.freelist(), vec![second(0)]);
    assert_eq!(world.spawn(nothing()), second(0));
    assert_eq!(world.len(), 3);
}

#[test]
fn despawning_a_reserved_entity() {
    let mut world = world();
    let a = world.reserve_entity();
    assert_eq!(world.despawn(a), Ok(()));
    assert!(!world.contains(a));
    assert_eq!(world.spawn(nothing()), Entity { id: 0, generation: 2 });
}

#[test]
fn spawn_batch() {
    let mut world = world();
    let bundle = types(6, vec![TEXT, INT]);
    let rows = (0..1_000).map(|i| vec![Value::Text("abc"), Value::Int(i)]).collect();
    let mut iter = world.spawn_batch(&bundle, rows);
    assert_eq!(iter.len(), 1_000);
    assert_eq!(iter.size_hint(), (1_000, Some(1_000)));
    let first = iter.next().unwrap();
    assert_eq!(first, Entity { id: 0, generation: 1 });
    assert_eq!(iter.len(), 999);
    let entities = iter.collect();
    assert_eq!(entities.len(), 999);
    for i in 1..1_000 {
        assert_eq!(*world.get(entities[i - 1], INT).unwrap(), Value::Int(i as i32));
        assert_eq!(*world.get(entities[i - 1], TEXT).unwrap(), Value::Text("abc"));
    }
    assert_eq!(world.len(), 1_000);
    let mut none = world.spawn_batch(&bundle, vec![]);
    assert_eq!(none.next(), None);
}

#[test]
fn spawn_column_batch() {
    let mut world = world();
    let old = world.spawn(dynamic(vec![Value::Int(-1), Value::Flag(true)]));
    let gone = world.spawn(nothing());
    world.despawn(gone).unwrap();
    let batch = ColumnBatch::new(
        3,
        vec![
            (INT, vec![Value::Int(1), Value::Int(2), Value::Int(3)]),
            (FLAG, vec![Value::Flag(true), Value::Flag(false), Value::Flag(true)]),
        ],
    )
    .unwrap();
    let iter = world.spawn_column_batch(batch);
    assert_eq!(iter.len(), 3);
    let entities = iter.collect();
    assert_eq!(
        entities,
        vec![
            Entity { id: 1, generation: 2 },
            Entity { id: 2, generation: 1 },
            Entity { id: 3, generation: 1 },
        ]
    );
    for (i, e) in entities.iter().enumerate() {
        assert_eq!(*world.get(*e, INT).unwrap(), Value::Int(i as i32 + 1));
        assert_eq!(*world.get(*e, FLAG).unwrap(), Value::Flag(i != 1));
    }
    assert_eq!(*world.get(old, INT).unwrap(), Value::Int(-1));
    // All share one archetype
    world.despawn(old).unwrap();
    assert_eq!(*world.get(entities[2], INT).unwrap(), Value::Int(3));
    // A new archetype
    let text = ColumnBatch::new(1, vec![(TEXT, vec![Value::Text("x")])]).unwrap();
    let mut iter = world.spawn_column_batch(text);
    let e = iter.next().unwrap();
    assert_eq!(iter.next(), None);
    assert_eq!(*world.get(e, TEXT).unwrap(), Value::Text("x"));
}

#[test]
fn bad_column_batches() {
    assert!(ColumnBatch::new(2, vec![(INT, vec![Value::Int(1)])]).is_none());
    assert!(ColumnBatch::new(1, vec![(INT, vec![Value::Int(1)]), (INT, vec![Value::Int(2)])]).is_none());
    assert!(ColumnBatch::<Value>::new(2, vec![]).is_some());
}

#[test]
fn spawn_column_batch_at() {
    let batch = |first: i32| {
        ColumnBatch::new(2, vec![(INT, vec![Value::Int(first), Value::Int(first + 1)])]).unwrap()
    };
    let mut world = world();
    let a = world.spawn(dynamic(vec![Value::Int(7)]));
    let b = world.spawn(dynamic(vec![Value::Int(8)]));
    let c = Entity { id: 4, generation: 3 };
    let reserved = world.reserve_entity();
    world.spawn_column_batch_at(&[c, Entity { id: a.id, generation: 9 }], batch(100));
    assert!(!world.contains(a));
    assert!(world.contains(reserved));
    assert_eq!(*world.get(b, INT).unwrap(), Value::Int(8));
    assert_eq!(*world.get(c, INT).unwrap(), Value::Int(100));
    assert_eq!(*world.get(Entity { id: 0, generation: 9 }, INT).unwrap(), Value::Int(101));
    assert_eq!(world.len(), 4);
    assert_eq!(world.freelist(), vec![Entity { id: 3, generation: 1 }]);

    // The same, one entity at a time
    let mut other = self::world();
    let a = other.spawn(dynamic(vec![Value::Int(7)]));
    other.spawn(dynamic(vec![Value::Int(8)]));
    other.reserve_entity();
    other.spawn_at(c, dynamic(vec![Value::Int(100)]));
    other.spawn_at(Entity { id: a.id, generation: 9 }, dynamic(vec![Value::Int(101)]));
    assert_eq!(other.freelist(), world.freelist());
    assert_eq!(other.len(), world.len());
}

#[test]
fn extending() {
    let mut world = world();
    let reserved = world.reserve_entity();
    world.extend(vec![]);
    assert_eq!(world.len(), 0);
    world.extend(vec![dynamic(vec![Value::Int(1)]), dynamic(vec![Value::Flag(false)])]);
    assert_eq!(world.len(), 3);
    assert!(world.contains(reserved));
    let ids = WorldIds::new();
    let other = World::from_iter(&ids, vec![dynamic(vec![Value::Int(1)]), nothing()]).unwrap();
    assert_eq!(other.len(), 2);
    assert_eq!(*other.get(Entity { id: 0, generation: 1 }, INT).unwrap(), Value::Int(1));
    let third = World::from_iter_with_id(7, vec![dynamic(vec![Value::Int(3)])]);
    assert_eq!(third.memo().0, 7);
    assert_eq!(third.len(), 1);
    assert_eq!(*third.get(Entity { id: 0, generation: 1 }, INT).unwrap(), Value::Int(3));
}

#[test]
fn records_for_more_entities() {
    let mut entities = Entities::new();
    assert_eq!(entities.shortfall(3), 3);
    entities.set_freelist(&[Entity { id: 0, generation: 1 }, Entity { id: 1, generation: 1 }]);
    assert_eq!(entities.shortfall(3), 1);
    assert_eq!(entities.shortfall(2), 0);
    assert_eq!(entities.shortfall(1), 0);
}

#[test]
fn worlds_are_numbered() {
    let ids = WorldIds::new();
    let a: World<Value> = World::new(&ids).unwrap();
    let b: World<Value> = World::new(&ids).unwrap();
    assert_eq!(a.memo().0, 2);
    assert_eq!(b.memo().0, 3);
    let numbers = spin::Mutex::new(u64::MAX - 2);
    let c: World<Value> = World::new_locked(&mut numbers.lock()).unwrap();
    let d: World<Value> = World::new_locked(&mut numbers.lock()).unwrap();
    assert_eq!(c.memo(), (u64::MAX - 1, 1));
    assert_eq!(d.memo(), (u64::MAX, 1));
    assert!(World::<Value>::new_locked(&mut numbers.lock()).is_none());
    let e: World<Value> = World::from_iter(&ids, vec![nothing()]).unwrap();
    assert_eq!(e.memo().0, 4);
    assert_eq!(ids.next(), Some(5));
    assert_eq!(WorldIds::new().next(), Some(2));
    assert_eq!(*numbers.lock(), u64::MAX);
    let mut last = 5;
    assert_eq!(hecs_world::world_id::advance(&mut last), Some(6));
    assert_eq!(last, 6);
    let mut last = u64::MAX;
    assert_eq!(hecs_world::world_id::advance(&mut last), None);
    assert_eq!(last, u64::MAX);
}

#[test]
fn moving_between_worlds() {
    let mut world1 = world();
    let mut world2 = world();
    world2.spawn(nothing());
    let a = world1.spawn(keyed(4, vec![Value::Int(123), Value::Text("abc")]));
    let taken = world1.take(a).unwrap();
    assert_eq!(taken.get(INT), Some(&Value::Int(123)));
    assert_eq!(taken.get(FLAG), None);
    let b = world2.spawn(taken);
    assert!(!world1.contains(a));
    assert_eq!(*world2.get(b, INT).unwrap(), Value::Int(123));
    assert_eq!(*world2.get(b, TEXT).unwrap(), Value::Text("abc"));
    assert!(matches!(world1.take(a), Err(NoSuchEntity)));
}

#[test]
fn clearing() {
    let mut world = world();
    let a = world.spawn(dynamic(vec![Value::Int(1)]));
    world.spawn(dynamic(vec![Value::Int(2)]));
    world.reserve_entity();
    world.despawn(a).unwrap();
    let generation = world.archetypes_generation();
    world.clear();
    assert!(world.is_empty());
    assert!(world.freelist().is_empty());
    assert_eq!(world.archetypes_generation(), generation);
    assert_eq!(world.spawn(nothing()), Entity { id: 0, generation: 1 });
}

#[test]
fn batches_are_repeated_spawns() {
    let mut world1 = world();
    let mut world2 = world();
    for world in [&mut world1, &mut world2] {
        let list = world.spawn_batch(&types(0, vec![]), vec![vec![], vec![], vec![]]).collect();
        world.despawn(list[2]).unwrap();
        world.despawn(list[0]).unwrap();
    }
    let values = [1, 2, 3];
    let rows = values.iter().map(|i| vec![Value::Int(*i)]).collect();
    let at_once = world1.spawn_batch(&types(1, vec![INT]), rows).collect();
    let one_by_one: Vec<Entity> = values
        .iter()
        .map(|i| world2.spawn(keyed(1, vec![Value::Int(*i)])))
        .collect();
    assert_eq!(at_once, one_by_one);
    assert_eq!(world1.archetypes_generation(), world2.archetypes_generation());
    assert_eq!(world1.freelist(), world2.freelist());
}

#[test]
fn same_handles_at_once() {
    let mut world1 = world();
    let mut world2 = world();
    for world in [&mut world1, &mut world2] {
        let list = world.spawn_batch(&types(0, vec![]), vec![vec![], vec![], vec![]]).collect();
        world.despawn(list[0]).unwrap();
        world.despawn(list[1]).unwrap();
    }
    let ints = vec![Value::Int(1), Value::Int(2), Value::Int(3)];
    let batch = ColumnBatch::new(3, vec![(INT, ints)]).unwrap();
    let at_once = world1.spawn_column_batch(batch).collect();
    let one_by_one: Vec<Entity> = (0..3).map(|_| world2.spawn(nothing())).collect();
    let second = |id: u32| Entity { id, generation: 2 };
    let fresh = Entity { id: 3, generation: 1 };
    assert_eq!(at_once, vec![second(0), second(1), fresh]);
    assert_eq!(one_by_one, vec![second(1), second(0), fresh]);
}

#[test]
fn room_for_entities() {
    let mut world = world();
    assert_eq!(world.room(), u32::MAX);
    let a = world.spawn(nothing());
    world.reserve_entities(3);
    assert_eq!(world.room(), u32::MAX - 4);
    world.despawn(a).unwrap();
    assert_eq!(world.room(), u32::MAX - 3);
    world.clear();
    assert_eq!(world.room(), u32::MAX);
}

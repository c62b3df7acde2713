//! Adding, removing and reading components.
use hecs_world::{
    Bundle, ComponentError, DynamicBundle, Entity, Fetched, MissingComponent, NoSuchEntity, Query, QueryOneError,
    TypeId, World,
};

const A: TypeId = 5;
const B: TypeId = 3;
const C: TypeId = 9;
const D: TypeId = 1;

fn bundle(list: Vec<(TypeId, i32)>) -> DynamicBundle<i32> {
    DynamicBundle::new(None, list).unwrap()
}

fn world() -> World<i32> {
    World::with_id(1)
}

fn missing<T>(ty: TypeId) -> Result<T, ComponentError> {
    Err(ComponentError::MissingComponent(MissingComponent { ty }))
}

/// The key of the bundle type of a single component.
fn one(ty: TypeId) -> u64 {
    1_000 + ty
}

#[test]
fn bundles_are_distinctly_typed() {
    assert!(DynamicBundle::new(None, vec![(A, 1), (A, 2)]).is_none());
    assert!(Bundle::new(None, vec![A, B, A]).is_none());
    let b = bundle(vec![(A, 1), (B, 2)]);
    assert_eq!(b.get(A), Some(&1));
    assert_eq!(b.get(B), Some(&2));
    assert_eq!(b.get(C), None);
    assert_eq!(b.types(), &vec![B, A]);
}

#[test]
fn inserting() {
    let mut world = world();
    let e = world.spawn(bundle(vec![(A, 123), (B, 7)]));
    let other = world.spawn(bundle(vec![(A, 1), (B, 2)]));
    world.insert(e, bundle(vec![(A, 456), (C, 1)])).unwrap();
    assert_eq!(world.get(e, A), Ok(&456));
    assert_eq!(world.get(e, B), Ok(&7));
    assert_eq!(world.get(e, C), Ok(&1));
    assert_eq!(world.get(other, A), Ok(&1));
    assert_eq!(world.get(other, B), Ok(&2));
    assert_eq!(world.get(other, C), missing(C));
    // Nothing but replacements
    world.insert(other, bundle(vec![(B, 20)])).unwrap();
    assert_eq!(world.get(other, A), Ok(&1));
    assert_eq!(world.get(other, B), Ok(&20));
    world.despawn(other).unwrap();
    assert_eq!(world.insert(other, bundle(vec![])), Err(NoSuchEntity));
    assert_eq!(world.insert_one(e, D, one(D), 4), Ok(()));
    assert_eq!(world.get(e, D), Ok(&4));
}

#[test]
fn inserting_again_along_the_same_edge() {
    let mut world = world();
    let static_bundle = |a: i32| DynamicBundle::new(Some(77), vec![(A, a), (D, a + 1)]).unwrap();
    let list: Vec<Entity> = (0..3).map(|i| world.spawn(bundle(vec![(B, i)]))).collect();
    for (i, e) in list.iter().enumerate() {
        world.insert(*e, static_bundle(10 * i as i32)).unwrap();
    }
    let generation = world.archetypes_generation();
    for (i, e) in list.iter().enumerate() {
        assert_eq!(world.get(*e, A), Ok(&(10 * i as i32)));
        assert_eq!(world.get(*e, D), Ok(&(10 * i as i32 + 1)));
        assert_eq!(world.get(*e, B), Ok(&(i as i32)));
    }
    // The same key for other types is told apart
    world
        .insert(list[0], DynamicBundle::new(Some(77), vec![(C, 5)]).unwrap())
        .unwrap();
    assert_eq!(world.get(list[0], C), Ok(&5));
    assert_ne!(world.archetypes_generation(), generation);
    assert_eq!(world.archetypes().len(), 4);
}

#[test]
fn removing() {
    let mut world = world();
    let e = world.spawn(bundle(vec![(A, 123), (B, 7), (C, 1)]));
    let other = world.spawn(bundle(vec![(A, 1), (B, 2), (C, 3)]));
    let pair = Bundle::new(Some(8), vec![A, B]).unwrap();
    assert_eq!(world.remove(e, &pair), Ok(vec![123, 7]));
    assert_eq!(world.get(e, A), missing(A));
    assert_eq!(world.get(e, B), missing(B));
    assert_eq!(world.get(e, C), Ok(&1));
    assert_eq!(world.get(other, A), Ok(&1));
    // A missing component leaves everything as it is
    assert_eq!(world.remove(e, &Bundle::new(Some(9), vec![C, B, A]).unwrap()), missing(B));
    assert_eq!(world.get(e, C), Ok(&1));
    assert_eq!(world.remove_one(e, C, one(C)), Ok(1));
    assert_eq!(world.remove_one(e, C, one(C)), missing(C));
    assert!(world.contains(e));
    assert_eq!(world.remove(other, &pair), Ok(vec![1, 2]));
    assert_eq!(world.remove(Entity::dangling(), &pair), Err(ComponentError::NoSuchEntity));
}

#[test]
fn removing_undoes_inserting() {
    let mut world = world();
    let e = world.spawn(bundle(vec![(A, 1)]));
    world.insert(e, bundle(vec![(B, 2), (C, 3)])).unwrap();
    let removed = Bundle::new(None, vec![C, B]).unwrap();
    assert_eq!(world.remove(e, &removed), Ok(vec![3, 2]));
    assert_eq!(world.get(e, A), Ok(&1));
    assert_eq!(world.get(e, B), missing(B));
    world.insert(e, removed.with_values(vec![3, 2])).unwrap();
    assert_eq!(world.get(e, B), Ok(&2));
    assert_eq!(world.get(e, C), Ok(&3));
}

#[test]
fn exchanging() {
    let mut world = world();
    let e = world.spawn(bundle(vec![(A, 1), (B, 2)]));
    let other = world.spawn(bundle(vec![(A, 10), (B, 20)]));
    let a = Bundle::one(None, A);
    assert_eq!(world.exchange(e, &a, bundle(vec![(C, 3)])), Ok(vec![1]));
    assert_eq!(world.get(e, A), missing(A));
    assert_eq!(world.get(e, B), Ok(&2));
    assert_eq!(world.get(e, C), Ok(&3));
    // The same type out and in
    assert_eq!(world.exchange(other, &a, bundle(vec![(A, 11), (B, 21)])), Ok(vec![10]));
    assert_eq!(world.get(other, A), Ok(&11));
    assert_eq!(world.get(other, B), Ok(&21));
    assert_eq!(world.exchange(e, &a, bundle(vec![(D, 4)])), missing(A));
    assert_eq!(world.get(e, D), missing(D));
    assert_eq!(world.exchange_one(e, C, one(C), D, one(D), 5), Ok(3));
    assert_eq!(world.get(e, D), Ok(&5));
    assert_eq!(
        world.exchange_one(Entity::dangling(), C, one(C), D, one(D), 5),
        Err(ComponentError::NoSuchEntity)
    );
}

#[test]
fn exchanging_is_removing_and_inserting() {
    let make = || {
        let mut world = world();
        let e = world.spawn(bundle(vec![(A, 1), (B, 2)]));
        (world, e)
    };
    let (mut one, e) = make();
    let (mut two, _) = make();
    let removed = one.exchange(e, &Bundle::one(None, B), bundle(vec![(C, 3)])).unwrap();
    assert_eq!(two.remove(e, &Bundle::one(None, B)).unwrap(), removed);
    two.insert(e, bundle(vec![(C, 3)])).unwrap();
    for ty in [A, B, C] {
        assert_eq!(one.get(e, ty), two.get(e, ty));
    }
    assert_eq!(one.archetypes().len(), two.archetypes().len());
}

#[test]
fn archetypes_are_counted() {
    let mut world = world();
    let start = world.archetypes_generation();
    let e = world.spawn(bundle(vec![(A, 123), (B, 1)]));
    let after = world.archetypes_generation();
    assert_ne!(start, after);
    world.spawn(bundle(vec![(B, 1), (A, 5)]));
    assert_eq!(world.archetypes_generation(), after);
    assert_eq!(world.memo().1, 2);
    world.reserve(&Bundle::one(None, C), 10);
    assert_ne!(world.archetypes_generation(), after);
    world.despawn(e).unwrap();
    let archetypes = world.archetypes();
    assert_eq!(archetypes.len(), 3);
    assert_eq!(archetypes[0].len(), 0);
    assert_eq!(archetypes[1].types(), &vec![B, A]);
    assert_eq!(archetypes[1].len(), 1);
    assert_eq!(archetypes[1].entity_id(0), 1);
    assert_eq!(archetypes[2].types(), &vec![C]);
    assert!(archetypes[2].is_empty());
}

#[test]
fn entity_refs() {
    let mut world = world();
    let e = world.spawn(bundle(vec![(A, 1)]));
    let r = world.entity(e).unwrap();
    assert_eq!(r.entity(), e);
    assert_eq!(r.get(A), Some(&1));
    assert_eq!(r.get(B), None);
    assert!(r.satisfies(&Query::Shared(A)));
    assert!(!r.satisfies(&Query::Shared(B)));
    assert!(world.entity(Entity::dangling()).is_err());
    assert_eq!(world.satisfies(e, &Query::Unique(A)), Ok(true));
    assert_eq!(world.satisfies(e, &Query::Unique(B)), Ok(false));
    assert_eq!(world.satisfies(Entity::dangling(), &Query::Unique(B)), Err(NoSuchEntity));
}

#[test]
fn writing_one_component() {
    let mut world = world();
    let e = world.spawn(bundle(vec![(A, 1), (B, 2)]));
    let other = world.spawn(bundle(vec![(A, 3), (B, 4)]));
    *world.get_unchecked(e, B).unwrap() = 20;
    assert_eq!(world.get(e, B), Ok(&20));
    assert_eq!(world.get(e, A), Ok(&1));
    assert_eq!(world.get(other, B), Ok(&4));
    assert_eq!(
        world.get_unchecked(e, C),
        Err(ComponentError::MissingComponent(MissingComponent { ty: C }))
    );
    assert_eq!(world.get_unchecked(Entity::dangling(), C), Err(ComponentError::NoSuchEntity));
    let reserved = world.reserve_entity();
    assert_eq!(
        world.get_unchecked(reserved, A),
        Err(ComponentError::MissingComponent(MissingComponent { ty: A }))
    );
}

#[test]
fn iterating() {
    let mut world = world();
    let a = world.spawn(bundle(vec![]));
    let b = world.spawn(bundle(vec![]));
    let c = world.spawn(bundle(vec![(A, 5)]));
    let mut iter = world.iter();
    assert_eq!(iter.len(), 3);
    assert_eq!(iter.size_hint(), (3, Some(3)));
    let mut seen = Vec::new();
    while let Some(e) = iter.next() {
        seen.push((e.entity(), e.get(A).copied()));
    }
    assert_eq!(seen.len(), 3);
    assert!(seen.contains(&(a, None)));
    assert!(seen.contains(&(b, None)));
    assert!(seen.contains(&(c, Some(5))));
    assert!(iter.next().is_none());
}

#[test]
fn querying() {
    let mut world = world();
    let a = world.spawn(bundle(vec![(A, 123), (B, 1), (C, 7)]));
    let b = world.spawn(bundle(vec![(A, 456), (B, 0)]));
    let c = world.spawn(bundle(vec![(A, 42), (C, 8)]));
    let query = Query::Tuple(vec![Query::Shared(A), Query::Shared(B)]);
    let found = world.query(&query).iter();
    assert_eq!(found.len(), 2);
    assert!(found.contains(&(a, vec![Some(&123), Some(&1)])));
    assert!(found.contains(&(b, vec![Some(&456), Some(&0)])));
    let optional = Query::Tuple(vec![
        Query::Shared(A),
        Query::Optional(Box::new(Query::Tuple(vec![Query::Shared(B), Query::Shared(C)]))),
    ]);
    let found = world.query(&optional).iter();
    assert_eq!(found.len(), 3);
    assert!(found.contains(&(a, vec![Some(&123), Some(&1), Some(&7)])));
    assert!(found.contains(&(b, vec![Some(&456), None, None])));
    assert!(found.contains(&(c, vec![Some(&42), None, None])));
    let reserved = world.reserve_entity();
    assert_eq!(world.query(&Query::Tuple(vec![])).iter().len(), 3);
    let everything = Query::Tuple(vec![]);
    let view = world.view(&everything);
    assert!(view.contains(c));
    assert!(!view.contains(reserved));
}

#[test]
fn querying_one() {
    let mut world = world();
    let a = world.spawn(bundle(vec![(A, 123), (B, 1)]));
    let query = Query::Tuple(vec![Query::Shared(A), Query::Shared(B)]);
    let one = world.query_one(a, &query).unwrap();
    assert_eq!(one.get(), Some(vec![Some(&123), Some(&1)]));
    let other = Query::Shared(C);
    assert_eq!(world.query_one(a, &other).unwrap().get(), None);
    assert!(world.query_one(Entity::dangling(), &other).is_err());
    let reserved = world.reserve_entity();
    let maybe = Query::Optional(Box::new(Query::Shared(A)));
    assert_eq!(world.query_one(reserved, &maybe).unwrap().get(), Some(vec![None]));
    assert_eq!(world.query_one(reserved, &query).unwrap().get(), None);
}

#[test]
fn viewing() {
    let mut world = world();
    let a = world.spawn(bundle(vec![(A, 1), (B, 2)]));
    let b = world.spawn(bundle(vec![(A, 3)]));
    let query = Query::Shared(B);
    let view = world.view(&query);
    assert_eq!(view.get(a), Some(vec![Some(&2)]));
    assert_eq!(view.get(b), None);
    assert!(view.contains(a));
    assert!(!view.contains(b));
    assert!(!view.contains(Entity::dangling()));
}

fn write(items: Vec<Option<Fetched<i32>>>, value: i32) -> usize {
    let mut written = 0;
    for item in items {
        if let Some(Fetched::Unique(x)) = item {
            *x = value;
            written += 1;
        }
    }
    written
}

fn read(items: &Vec<Option<Fetched<i32>>>) -> Vec<Option<i32>> {
    items
        .iter()
        .map(|item| match item {
            Some(Fetched::Shared(x)) => Some(**x),
            Some(Fetched::Unique(x)) => Some(**x),
            None => None,
        })
        .collect()
}

#[test]
fn querying_one_mutably() {
    let mut world = world();
    let a = world.spawn(bundle(vec![(A, 123), (B, 1), (C, 5)]));
    let b = world.spawn(bundle(vec![(A, 9), (B, 9), (C, 9)]));
    let query = Query::Tuple(vec![
        Query::Unique(A),
        Query::Shared(B),
        Query::Shared(B),
        Query::Optional(Box::new(Query::Unique(D))),
    ]);
    assert!(query.is_sound());
    let items = world.query_one_mut(a, &query).unwrap();
    assert_eq!(read(&items), vec![Some(123), Some(1), Some(1), None]);
    assert_eq!(write(items, 246), 1);
    assert_eq!(world.get(a, A), Ok(&246));
    assert_eq!(world.get(a, B), Ok(&1));
    assert_eq!(world.get(b, A), Ok(&9));
    assert!(matches!(
        world.query_one_mut(a, &Query::Shared(D)),
        Err(QueryOneError::Unsatisfied)
    ));
    assert!(matches!(
        world.query_one_mut(Entity::dangling(), &query),
        Err(QueryOneError::NoSuchEntity)
    ));
    let reserved = world.reserve_entity();
    let maybe = Query::Optional(Box::new(Query::Unique(A)));
    assert_eq!(read(&world.query_one_mut(reserved, &maybe).unwrap()), vec![None]);
}

#[test]
fn sound_queries() {
    assert!(Query::Tuple(vec![Query::Shared(A), Query::Shared(A)]).is_sound());
    assert!(!Query::Tuple(vec![Query::Unique(A), Query::Shared(A)]).is_sound());
    assert!(!Query::Tuple(vec![Query::Shared(A), Query::Optional(Box::new(Query::Unique(A)))]).is_sound());
    assert!(Query::Tuple(vec![Query::Unique(A), Query::Unique(B)]).is_sound());
    assert!(!Query::Tuple(vec![Query::Shared(A), Query::Optional(Box::new(Query::Unique(B)))]).is_read_only());
    assert!(Query::Tuple(vec![Query::Shared(A), Query::Shared(A)]).is_read_only());
    assert!(Query::Unique(A).clashes_with(&Query::Shared(A)));
    assert!(!Query::Shared(A).clashes_with(&Query::Shared(A)));
    assert!(!Query::Unique(A).clashes_with(&Query::Unique(B)));
}

#[test]
fn querying_mutably() {
    let mut world = world();
    let a = world.spawn(bundle(vec![(A, 1), (B, 10)]));
    let b = world.spawn(bundle(vec![(A, 2)]));
    let c = world.spawn(bundle(vec![(A, 3), (B, 30)]));
    let d = world.spawn(bundle(vec![(B, 40)]));
    let query = Query::Tuple(vec![Query::Unique(A), Query::Optional(Box::new(Query::Shared(B)))]);
    let mut count = 0;
    for (e, items) in world.query_mut(&query) {
        let values = read(&items);
        assert_eq!(values[1].is_some(), e != b);
        write(items, values[0].unwrap() * 100);
        count += 1;
    }
    assert_eq!(count, 3);
    assert_eq!(world.get(a, A), Ok(&100));
    assert_eq!(world.get(b, A), Ok(&200));
    assert_eq!(world.get(c, A), Ok(&300));
    assert_eq!(world.get(c, B), Ok(&30));
    assert_eq!(world.get(d, B), Ok(&40));
}

#[test]
fn querying_many_mutably() {
    let mut world = world();
    let list: Vec<Entity> = (0..5).map(|i| world.spawn(bundle(vec![(A, i), (B, 10 * i)]))).collect();
    let lone = world.spawn(bundle(vec![(A, 50), (C, 51)]));
    let lacking = world.spawn(bundle(vec![(C, 60)]));
    let gone = world.spawn(bundle(vec![]));
    world.despawn(gone).unwrap();
    let reserved = world.reserve_entity();
    let query = Query::Unique(A);
    let many = [list[3], lone, gone, list[1], lacking, reserved];
    let results = world.query_many_mut(&many, &query);
    let values: Vec<Result<Vec<Option<i32>>, QueryOneError>> =
        results.iter().map(|r| r.as_ref().map(read).map_err(|e| *e)).collect();
    assert_eq!(
        values,
        vec![
            Ok(vec![Some(3)]),
            Ok(vec![Some(50)]),
            Err(QueryOneError::NoSuchEntity),
            Ok(vec![Some(1)]),
            Err(QueryOneError::Unsatisfied),
            Err(QueryOneError::Unsatisfied),
        ]
    );
    // All references can be held at once
    let mut next = 1000;
    for items in results.into_iter().flatten() {
        write(items, next);
        next += 1;
    }
    assert_eq!(world.get(list[3], A), Ok(&1000));
    assert_eq!(world.get(lone, A), Ok(&1001));
    assert_eq!(world.get(list[1], A), Ok(&1002));
    assert_eq!(world.get(list[0], A), Ok(&0));
    assert_eq!(world.get(list[3], B), Ok(&30));
    assert_eq!(world.get(lacking, C), Ok(&60));
}

#[test]
fn viewing_mutably() {
    let mut world = world();
    let a = world.spawn(bundle(vec![(A, 1)]));
    let b = world.spawn(bundle(vec![(B, 2)]));
    let query = Query::Unique(A);
    let mut view = world.view_mut(&query);
    assert!(view.contains(a));
    assert!(!view.contains(b));
    assert_eq!(view.get(a), Some(vec![Some(&1)]));
    assert!(view.get_mut(b).is_none());
    assert_eq!(write(view.get_mut(a).unwrap(), 5), 1);
    assert_eq!(view.get(a), Some(vec![Some(&5)]));
    assert_eq!(world.get(a, A), Ok(&5));
}

#[test]
fn error_messages() {
    assert_eq!(ComponentError::NoSuchEntity.message(), "no such entity");
    assert_eq!(QueryOneError::NoSuchEntity.message(), "no such entity");
    assert_eq!(QueryOneError::Unsatisfied.message(), "unsatisfied");
    assert_eq!(ComponentError::from(NoSuchEntity), ComponentError::NoSuchEntity);
    assert_eq!(QueryOneError::from(NoSuchEntity), QueryOneError::NoSuchEntity);
    let x = MissingComponent { ty: A };
    assert_eq!(ComponentError::from(x), ComponentError::MissingComponent(x));
}

//! Several queries at the same time.
use hecs_world::{BorrowConflict, DynamicBundle, Entity, Fetched, NoSuchEntity, Query, TypeId, World};

const A: TypeId = 5;
const B: TypeId = 3;
const C: TypeId = 9;

fn bundle(list: Vec<(TypeId, i32)>) -> DynamicBundle<i32> {
    DynamicBundle::new(None, list).unwrap()
}

fn pair(a: Query, b: Query) -> Query {
    Query::Tuple(vec![a, b])
}

/// Adds to every component that can be written.
fn raise(items: Vec<Option<Fetched<i32>>>, by: i32) {
    for item in items {
        if let Some(Fetched::Unique(x)) = item {
            *x += by;
        }
    }
}

#[test]
fn writing_and_reading_different_components() {
    let mut world = World::with_id(1);
    let e = world.spawn(bundle(vec![(A, 1), (B, 2)]));
    let (write_a, read_b) = (Query::Unique(A), Query::Shared(B));
    let mut sharing = world.share();
    let mut first = sharing.query(&write_a);
    let mut second = sharing.query(&read_b);
    for (_, items) in sharing.iter(&mut first).unwrap() {
        raise(items, 10);
    }
    assert_eq!(sharing.iter(&mut second).unwrap().len(), 1);
    // The borrow is held, so that the query can be executed again
    for (_, items) in sharing.iter(&mut first).unwrap() {
        raise(items, 100);
    }
    let world = sharing.into_world();
    assert_eq!(world.get(e, A), Ok(&111));
    assert_eq!(world.get(e, B), Ok(&2));
}

#[test]
fn conflicting_queries_are_refused() {
    let mut world = World::with_id(1);
    world.spawn(bundle(vec![(A, 1), (B, 2)]));
    let (write_a, read_a) = (Query::Unique(A), pair(Query::Shared(A), Query::Shared(B)));
    let mut sharing = world.share();
    let mut first = sharing.query(&write_a);
    let mut second = sharing.query(&read_a);
    let mut third = sharing.query(&write_a);
    assert!(sharing.iter(&mut first).is_ok());
    assert!(matches!(sharing.iter(&mut second), Err(BorrowConflict)));
    assert!(matches!(sharing.iter(&mut third), Err(BorrowConflict)));
    assert!(matches!(sharing.view(&read_a), Err(BorrowConflict)));
    sharing.release(first);
    assert!(sharing.iter(&mut second).is_ok());
    assert!(sharing.iter(&mut third).is_err());
    // Any number of readers
    let view = sharing.view(&read_a).unwrap();
    sharing.release(second);
    assert!(sharing.iter(&mut third).is_err());
    sharing.release(view);
    assert!(sharing.iter(&mut third).is_ok());
}

#[test]
fn queries_that_no_entity_satisfies_both_go_together() {
    let mut world = World::with_id(1);
    let e = world.spawn(bundle(vec![(A, 1), (B, 2)]));
    let f = world.spawn(bundle(vec![(A, 3), (C, 4)]));
    // An archetype of all three that holds no entity
    let gone = world.spawn(bundle(vec![(A, 5), (B, 6), (C, 7)]));
    world.despawn(gone).unwrap();
    let with_b = pair(Query::Unique(A), Query::Shared(B));
    let with_c = pair(Query::Unique(A), Query::Shared(C));
    let mut sharing = world.share();
    let mut first = sharing.query(&with_b);
    let mut second = sharing.query(&with_c);
    for (_, items) in sharing.iter(&mut first).unwrap() {
        raise(items, 10);
    }
    for (_, items) in sharing.iter(&mut second).unwrap() {
        raise(items, 20);
    }
    let mut world = sharing.into_world();
    assert_eq!(world.get(e, A), Ok(&11));
    assert_eq!(world.get(f, A), Ok(&23));
    // Now there is one
    world.spawn(bundle(vec![(A, 5), (B, 6), (C, 7)]));
    let mut sharing = world.share();
    let mut first = sharing.query(&with_b);
    let mut second = sharing.query(&with_c);
    assert!(sharing.iter(&mut first).is_ok());
    assert!(sharing.iter(&mut second).is_err());
}

#[test]
fn querying_single_entities() {
    let mut world = World::with_id(1);
    let a = world.spawn(bundle(vec![(A, 123), (B, 1)]));
    let b = world.spawn(bundle(vec![(A, 5)]));
    let reserved = world.reserve_entity();
    let query = pair(Query::Unique(A), Query::Shared(B));
    let write_a = Query::Unique(A);
    let maybe = Query::Optional(Box::new(Query::Shared(C)));
    let mut sharing = world.share();
    let mut one = sharing.query_one(a, &query).unwrap();
    let items = sharing.get_one(&mut one).unwrap().unwrap();
    raise(items, 123);
    // Another entity of the same component types stands in the way, one of others does not
    let mut again = sharing.query_one(a, &write_a).unwrap();
    assert!(sharing.get_one(&mut again).is_err());
    let mut other = sharing.query_one(b, &write_a).unwrap();
    assert_eq!(sharing.get_one(&mut other).unwrap().unwrap().len(), 1);
    let mut all = sharing.query(&write_a);
    assert!(sharing.iter(&mut all).is_err());
    sharing.release_one(one);
    assert!(sharing.get_one(&mut again).is_ok());
    // Not satisfied
    let mut lacking = sharing.query_one(b, &query).unwrap();
    assert!(matches!(sharing.get_one(&mut lacking), Ok(None)));
    let mut nothing = sharing.query_one(reserved, &maybe).unwrap();
    assert!(matches!(sharing.get_one(&mut nothing), Ok(Some(items)) if items.len() == 1 && items[0].is_none()));
    assert!(matches!(sharing.query_one(Entity::dangling(), &maybe), Err(NoSuchEntity)));
    let world = sharing.into_world();
    assert_eq!(world.get(a, A), Ok(&246));
}

#[test]
fn viewing_while_sharing() {
    let mut world = World::with_id(1);
    let a = world.spawn(bundle(vec![(A, 1)]));
    let b = world.spawn(bundle(vec![(B, 2)]));
    let write_a = Query::Unique(A);
    let mut sharing = world.share();
    let view = sharing.view(&write_a).unwrap();
    raise(sharing.get(&view, a).unwrap(), 1);
    raise(sharing.get(&view, a).unwrap(), 1);
    assert!(sharing.get(&view, b).is_none());
    assert!(sharing.get(&view, Entity::dangling()).is_none());
    assert_eq!(sharing.into_world().get(a, A), Ok(&3));
}

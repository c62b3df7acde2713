//! The hasher of archetype edges.
use hecs_world::maps::IndexTypeIdHasher;
use std::hash::{Hash, Hasher};

#[test]
fn keys_are_combined() {
    let mut hasher = IndexTypeIdHasher::default();
    assert_eq!(hasher.finish(), 0);
    hasher.write_u32(0b1100);
    hasher.write_u64(0b1010);
    assert_eq!(hasher.finish(), 0b0110);
    let mut other = IndexTypeIdHasher::default();
    (0b1100u32, 0b1010u64).hash(&mut other);
    assert_eq!(other.finish(), 0b0110);
}

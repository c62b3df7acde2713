//! The hash maps by which archetypes are found.
//!
//! The tables are `hashbrown` maps. Their contents are named here, and each operation that the
//! library performs on one says what it does to the contents.
use core::hash::{BuildHasherDefault, Hasher};
use hashbrown::HashMap;
use vstd::prelude::*;

use crate::types::TypeId;

verus! {

/// Identifies a statically known bundle type.
pub type BundleKey = u64;

/// Hasher of keys that consist of an archetype's position and a type's number.
pub struct IndexTypeIdHasher(u64);

impl IndexTypeIdHasher {
    /// What has been hashed so far.
    pub closed spec fn state(&self) -> u64 {
        self.0
    }
}

impl Default for IndexTypeIdHasher {
    fn default() -> (r: Self)
        ensures
            r.state() == 0,
    {
        IndexTypeIdHasher(0)
    }
}

impl Hasher for IndexTypeIdHasher {
    fn write_u32(&mut self, index: u32)
        ensures
            final(self).state() == old(self).state() ^ (index as u64),
    {
        self.0 = self.0 ^ (index as u64);
    }

    fn write_u64(&mut self, type_id: u64)
        ensures
            final(self).state() == old(self).state() ^ type_id,
    {
        self.0 = self.0 ^ type_id;
    }

    /// Keys are made of fixed-width integers only, so that no bytes are ever hashed.
    fn write(&mut self, _bytes: &[u8])
        ensures
            final(self).state() == old(self).state(),
    {
    }

    fn finish(&self) -> (r: u64)
        ensures
            r == self.state(),
    {
        self.0
    }
}

/// Maps sorted component type sets to archetypes.
#[verifier::external_body]
pub struct TypeSetIndex {
    map: HashMap<Box<[TypeId]>, u32>,
}

/// What a `TypeSetIndex` holds.
pub uninterp spec fn type_set_entries(index: TypeSetIndex) -> Map<Seq<TypeId>, u32>;

impl TypeSetIndex {
    /// `hashbrown::HashMap::default` makes a map without entries.
    #[verifier::external_body]
    pub(crate) fn new() -> (r: TypeSetIndex)
        ensures
            type_set_entries(r).is_empty(),
    {
        TypeSetIndex { map: HashMap::default() }
    }

    /// `hashbrown::HashMap::get` finds the value of a key, if there is one.
    #[verifier::external_body]
    pub(crate) fn get(&self, types: &[TypeId]) -> (r: Option<u32>)
        ensures
            r == (if type_set_entries(*self).contains_key(types@) {
                Some(type_set_entries(*self)[types@])
            } else {
                None
            }),
    {
        self.map.get(types).copied()
    }

    /// `hashbrown::HashMap::insert` sets the value of a key and returns the one that it had.
    #[verifier::external_body]
    pub(crate) fn insert(&mut self, types: Vec<TypeId>, archetype: u32) -> (r: Option<u32>)
        ensures
            type_set_entries(*final(self)) == type_set_entries(*old(self)).insert(types@, archetype),
            r == (if type_set_entries(*old(self)).contains_key(types@) {
                Some(type_set_entries(*old(self))[types@])
            } else {
                None
            }),
    {
        self.map.insert(types.into_boxed_slice(), archetype)
    }
}

/// Maps statically known bundle types to archetypes.
#[verifier::external_body]
pub struct BundleMap {
    map: HashMap<BundleKey, u32, BuildHasherDefault<IndexTypeIdHasher>>,
}

/// What a `BundleMap` holds.
pub uninterp spec fn bundle_entries(map: BundleMap) -> Map<BundleKey, u32>;

impl BundleMap {
    /// `hashbrown::HashMap::default` makes a map without entries.
    #[verifier::external_body]
    pub(crate) fn new() -> (r: BundleMap)
        ensures
            bundle_entries(r).is_empty(),
    {
        BundleMap { map: HashMap::default() }
    }

    /// `hashbrown::HashMap::get` finds the value of a key, if there is one.
    #[verifier::external_body]
    pub(crate) fn get(&self, key: BundleKey) -> (r: Option<u32>)
        ensures
            r == (if bundle_entries(*self).contains_key(key) {
                Some(bundle_entries(*self)[key])
            } else {
                None
            }),
    {
        self.map.get(&key).copied()
    }

    /// `hashbrown::HashMap::insert` sets the value of a key and returns the one that it had.
    #[verifier::external_body]
    pub(crate) fn insert(&mut self, key: BundleKey, archetype: u32) -> (r: Option<u32>)
        ensures
            bundle_entries(*final(self)) == bundle_entries(*old(self)).insert(key, archetype),
            r == (if bundle_entries(*old(self)).contains_key(key) {
                Some(bundle_entries(*old(self))[key])
            } else {
                None
            }),
    {
        self.map.insert(key, archetype)
    }
}

/// Maps a source archetype and a statically known bundle type to the record of the archetype that
/// an entity is moved to when the components of that bundle are inserted or removed.
#[verifier::external_body]
pub struct EdgeMap {
    map: HashMap<(u32, BundleKey), usize, BuildHasherDefault<IndexTypeIdHasher>>,
}

/// What an `EdgeMap` holds.
pub uninterp spec fn edge_entries(map: EdgeMap) -> Map<(u32, BundleKey), usize>;

impl EdgeMap {
    /// `hashbrown::HashMap::default` makes a map without entries.
    #[verifier::external_body]
    pub(crate) fn new() -> (r: EdgeMap)
        ensures
            edge_entries(r).is_empty(),
    {
        EdgeMap { map: HashMap::default() }
    }

    /// `hashbrown::HashMap::get` finds the value of a key, if there is one.
    #[verifier::external_body]
    pub(crate) fn get(&self, key: (u32, BundleKey)) -> (r: Option<usize>)
        ensures
            r == (if edge_entries(*self).contains_key(key) {
                Some(edge_entries(*self)[key])
            } else {
                None
            }),
    {
        self.map.get(&key).copied()
    }

    /// `hashbrown::HashMap::insert` sets the value of a key and returns the one that it had.
    #[verifier::external_body]
    pub(crate) fn insert(&mut self, key: (u32, BundleKey), target: usize) -> (r: Option<usize>)
        ensures
            edge_entries(*final(self)) == edge_entries(*old(self)).insert(key, target),
            r == (if edge_entries(*old(self)).contains_key(key) {
                Some(edge_entries(*old(self))[key])
            } else {
                None
            }),
    {
        self.map.insert(key, target)
    }
}

} // verus!

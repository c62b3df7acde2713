//! An archetypal entity-component store: a world of entities, each holding any number of
//! distinctly typed components.

pub mod archetype;
pub mod archetype_set;
pub mod bundle;
pub mod column_batch;
pub mod entities;
pub mod entity_ref;
pub mod errors;
pub mod fetch;
pub mod graph;
pub mod history;
pub mod iter;
pub mod laws;
pub mod layout;
pub mod maps;
pub mod model;
pub mod query;
pub mod refs;
pub mod rows;
pub mod types;
pub mod world;
pub mod world_id;

pub use archetype::Archetype;
pub use bundle::{Bundle, DynamicBundle};
pub use column_batch::ColumnBatch;
pub use entities::{Entity, NoSuchEntity};
pub use entity_ref::EntityRef;
pub use errors::{ComponentError, MissingComponent, QueryOneError};
pub use fetch::Fetched;
pub use iter::{Iter, SpawnBatchIter, SpawnColumnBatchIter};
pub use query::{Leaf, Query};
pub use types::{Component, TypeId};
pub use world::{
    ArchetypesGeneration, BorrowConflict, QueryBorrow, QueryOne, SharedQuery, SharedQueryOne, Sharing, ViewBorrow,
    ViewMut, World,
};
pub use world_id::WorldIds;

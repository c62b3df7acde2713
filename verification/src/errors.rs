//! Errors that arise when accessing entities and components.
use vstd::prelude::*;
use vstd::std_specs::convert::FromSpec;

use crate::entities::NoSuchEntity;
use crate::types::TypeId;

verus! {

/// Error indicating that an entity did not have a required component.
#[derive(Debug, Clone, Copy, PartialEq, Eq, Hash, Structural)]
pub struct MissingComponent {
    /// The type of the component.
    pub ty: TypeId,
}

/// Errors that arise when accessing components.
#[derive(Debug, Clone, Copy, PartialEq, Eq, Hash, Structural)]
pub enum ComponentError {
    /// The entity was already despawned
    NoSuchEntity,
    /// The entity did not have a requested component
    MissingComponent(MissingComponent),
}

impl ComponentError {
    /// What went wrong, in words.
    pub fn message(&self) -> (r: &'static str)
        ensures
            r@ == (match *self {
                ComponentError::NoSuchEntity => "no such entity"@,
                ComponentError::MissingComponent(_) => "missing component"@,
            }),
    {
        match self {
            ComponentError::NoSuchEntity => "no such entity",
            ComponentError::MissingComponent(_) => "missing component",
        }
    }
}

impl From<NoSuchEntity> for ComponentError {
    fn from(e: NoSuchEntity) -> (r: Self) {
        ComponentError::NoSuchEntity
    }
}

impl vstd::std_specs::convert::FromSpecImpl<NoSuchEntity> for ComponentError {
    open spec fn obeys_from_spec() -> bool {
        true
    }

    open spec fn from_spec(e: NoSuchEntity) -> Self {
        ComponentError::NoSuchEntity
    }
}

impl From<MissingComponent> for ComponentError {
    fn from(x: MissingComponent) -> (r: Self) {
        ComponentError::MissingComponent(x)
    }
}

impl vstd::std_specs::convert::FromSpecImpl<MissingComponent> for ComponentError {
    open spec fn obeys_from_spec() -> bool {
        true
    }

    open spec fn from_spec(x: MissingComponent) -> Self {
        ComponentError::MissingComponent(x)
    }
}

/// Errors that arise when querying a single entity.
#[derive(Debug, Clone, Copy, PartialEq, Eq, Hash, Structural)]
pub enum QueryOneError {
    /// The entity was already despawned
    NoSuchEntity,
    /// The entity exists but does not satisfy the query
    Unsatisfied,
}

impl QueryOneError {
    /// What went wrong, in words.
    pub fn message(&self) -> (r: &'static str)
        ensures
            r@ == (match *self {
                QueryOneError::NoSuchEntity => "no such entity"@,
                QueryOneError::Unsatisfied => "unsatisfied"@,
            }),
    {
        match self {
            QueryOneError::NoSuchEntity => "no such entity",
            QueryOneError::Unsatisfied => "unsatisfied",
        }
    }
}

impl From<NoSuchEntity> for QueryOneError {
    fn from(e: NoSuchEntity) -> (r: Self) {
        QueryOneError::NoSuchEntity
    }
}

impl vstd::std_specs::convert::FromSpecImpl<NoSuchEntity> for QueryOneError {
    open spec fn obeys_from_spec() -> bool {
        true
    }

    open spec fn from_spec(e: NoSuchEntity) -> Self {
        QueryOneError::NoSuchEntity
    }
}

/// An entity that does not exist is told as such in every error, and so is the component that is missing.
pub proof fn law_converted_errors(e: NoSuchEntity, x: MissingComponent)
    ensures
        <ComponentError as FromSpec<NoSuchEntity>>::from_spec(e) is NoSuchEntity,
        <QueryOneError as FromSpec<NoSuchEntity>>::from_spec(e) is NoSuchEntity,
        <ComponentError as FromSpec<MissingComponent>>::from_spec(x) == ComponentError::MissingComponent(x),
        <ComponentError as FromSpec<NoSuchEntity>>::obeys_from_spec(),
        <QueryOneError as FromSpec<NoSuchEntity>>::obeys_from_spec(),
        <ComponentError as FromSpec<MissingComponent>>::obeys_from_spec(),
{
}

} // verus!

//! The failures and warnings the stash reports.
use vstd::prelude::*;

use crate::id::StableId;

verus! {

/// Everything that can go wrong, or be worth a warning, in the stash.
///
/// The first four are failures: the operation that returns one has changed
/// nothing.  `UnregisteredComponent` is only ever a warning: the operation
/// went through, and the named component was left behind.
#[derive(Clone, Copy, Debug, PartialEq, Eq, Structural)]
pub enum Error {
    /// The identifier does not belong to a live entity.
    NoSuchEntity,
    /// The store already holds a snapshot.
    AlreadyStored,
    /// The store holds no snapshot.
    NothingStored,
    /// The text or bytes are not the encoding of an identifier.
    MalformedId,
    /// A component of `entity` has a `kind` that the registry does not know.
    UnregisteredComponent { entity: StableId, kind: u64 },
}

impl Error {
    /// Whether the operation that reported this went through regardless.
    pub open spec fn spec_is_warning(&self) -> bool {
        *self is UnregisteredComponent
    }

    /// Whether the operation that reported this went through regardless.
    #[verifier::when_used_as_spec(spec_is_warning)]
    pub fn is_warning(&self) -> (b: bool)
        ensures
            b == self.spec_is_warning(),
    {
        match self {
            Error::UnregisteredComponent { .. } => true,
            _ => false,
        }
    }
}

} // verus!

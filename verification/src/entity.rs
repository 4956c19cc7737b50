//! Entity handles.

use vstd::prelude::*;

verus! {

/// An opaque handle naming one object of a scene.
///
/// Handles are allocated elsewhere; that two handles are equal exactly when
/// their identifiers are equal is all the hierarchy relies on.
#[derive(Clone, Copy, Debug, PartialEq, Eq, Hash, Structural)]
pub struct Entity {
    pub(crate) id: u64,
}

impl Entity {
    /// The handle with identifier `id`.
    pub fn new(id: u64) -> (entity: Entity)
        ensures
            entity.key() == id,
    {
        Entity { id }
    }

    /// The identifier behind the handle.
    pub closed spec fn key(self) -> u64 {
        self.id
    }

    /// Handles with one identifier are one handle.
    pub proof fn lemma_key_determines(a: Entity, b: Entity)
        ensures
            a.key() == b.key() <==> a == b,
    {
    }

    /// Returns the identifier behind the handle.
    pub fn id(&self) -> (id: u64)
        ensures
            id == self.key(),
    {
        self.id
    }
}

} // verus!

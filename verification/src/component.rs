//! What a scheduler asks of every store of components.

use vstd::prelude::*;
use crate::entity::Entity;

verus! {

/// A store that keeps one kind of component per entity and destroys
/// components in two steps: entities are marked while the frame runs, and
/// the marks are committed once it is over.
pub trait ComponentManager {
    /// The entities that are marked and not yet committed.
    spec fn pending(&self) -> Set<Entity>;

    /// The marks can be committed: the store is consistent and still holds
    /// a component for every marked entity.
    spec fn committable(&self) -> bool;

    /// Marks the component of `entity` for destruction.
    fn destroy_all(&mut self, entity: Entity)
        ensures
            final(self).pending() == old(self).pending().insert(entity),
    ;

    /// Destroys the components of the marked entities and clears the marks.
    fn destroy_marked(&mut self)
        requires
            old(self).committable(),
        ensures
            final(self).pending() == Set::<Entity>::empty(),
            final(self).committable(),
    ;
}

} // verus!

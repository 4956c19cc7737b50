//! The transform of one entity: its local state, the state last derived from
//! its ancestors, and a flag that says whether the two still agree.

use vstd::prelude::*;

verus! {

/// The spatial state of one entity.
///
/// `L` is what places the entity relative to its parent (position, rotation
/// and scale); `D` is what a pass over the hierarchy derives from it and from
/// the parent's derived state (the world-space counterparts and their
/// matrices). Neither is interpreted here: the arithmetic that turns one into
/// the other is supplied by the caller of [`Transform::update`].
///
/// Every change of the local state marks the transform as out of date, and
/// only [`Transform::update`] clears the mark. The derived state can be read
/// only while the mark is clear.
#[derive(Clone, Debug)]
pub struct Transform<L, D> {
    local: L,
    derived: D,
    out_of_date: bool,
}

impl<L, D> Transform<L, D> {
    /// The local state.
    pub closed spec fn local_value(&self) -> L {
        self.local
    }

    /// The derived state as last stored, whether or not it is current.
    pub closed spec fn derived_value(&self) -> D {
        self.derived
    }

    /// Whether the local state changed after the derived state was computed.
    pub closed spec fn stale(&self) -> bool {
        self.out_of_date
    }

    /// A transform with the given local and derived state, marked as current.
    ///
    /// The caller passes a derived state that matches the local one: for an
    /// entity placed at the origin both are the identity.
    pub fn new(local: L, derived: D) -> (transform: Self)
        ensures
            transform.local_value() == local,
            transform.derived_value() == derived,
            !transform.stale(),
    {
        Transform { local, derived, out_of_date: false }
    }

    /// The local state.
    pub fn local(&self) -> (local: &L)
        ensures
            *local == self.local_value(),
    {
        &self.local
    }

    /// Replaces the local state and marks the transform as out of date.
    pub fn set_local(&mut self, local: L)
        ensures
            final(self).local_value() == local,
            final(self).derived_value() == old(self).derived_value(),
            final(self).stale(),
    {
        self.local = local;
        self.out_of_date = true;
    }

    /// Whether the derived state lags behind the local state.
    pub fn is_out_of_date(&self) -> (stale: bool)
        ensures
            stale == self.stale(),
    {
        self.out_of_date
    }

    /// The derived state. It may be read only while it is current.
    pub fn derived(&self) -> (derived: &D)
        requires
            !self.stale(),
        ensures
            *derived == self.derived_value(),
    {
        &self.derived
    }

    /// What `compose` makes of the local state of this transform and the
    /// derived state of its parent. Nothing is stored.
    pub fn derive<F: Fn(&L, &D) -> D>(&self, parent: &D, compose: &F) -> (derived: D)
        requires
            forall|local: &L, above: &D| call_requires(compose, (local, above)),
        ensures
            call_ensures(compose, (&self.local_value(), parent), derived),
    {
        compose(&self.local, parent)
    }

    /// Stores a derived state that was computed for the local state as it is
    /// now, and marks the transform as current.
    pub(crate) fn store_derived(&mut self, derived: D)
        ensures
            final(self).local_value() == old(self).local_value(),
            final(self).derived_value() == derived,
            !final(self).stale(),
    {
        self.derived = derived;
        self.out_of_date = false;
    }

    /// Recomputes the derived state from the local state and the derived
    /// state of the parent, and marks the transform as current.
    ///
    /// `compose` receives the local state of this transform and the derived
    /// state of its parent. The new derived state is what it returns.
    pub fn update<F: Fn(&L, &D) -> D>(&mut self, parent: &D, compose: &F)
        requires
            forall|local: &L, above: &D| call_requires(compose, (local, above)),
        ensures
            final(self).local_value() == old(self).local_value(),
            !final(self).stale(),
            call_ensures(
                compose,
                (&old(self).local_value(), parent),
                final(self).derived_value(),
            ),
    {
        let derived = self.derive(parent, compose);
        self.store_derived(derived);
    }

    /// Two transforms with the same local state, the same derived state and
    /// the same mark are one transform.
    pub proof fn lemma_equal(a: Self, b: Self)
        requires
            a.local_value() == b.local_value(),
            a.derived_value() == b.derived_value(),
            a.stale() == b.stale(),
        ensures
            a == b,
    {
    }
}

} // verus!

//! Recomputing derived states: for one entity and its ancestors, or for the
//! whole hierarchy, row by row.

use vstd::prelude::*;
use crate::entity::Entity;
use crate::hierarchy::in_subtree;
use crate::hierarchy::linked;
use crate::hierarchy::parent_above;
use crate::hierarchy::Shape;
use crate::hierarchy::ancestor;
use crate::hierarchy::lemma_ancestor_row;
use crate::transform::Transform;
use super::TransformManager;

verus! {

broadcast use vstd::std_specs::hash::group_hash_axioms;

impl<L, D> TransformManager<L, D> {
    /// The derived state that the derived state of `entity` is composed
    /// with: that of its parent, or the stand-in where it has none.
    pub open spec fn derived_above(&self, entity: Entity) -> D {
        match self.parent_of(entity) {
            Some(parent) => self.transform_of(parent).derived_value(),
            None => self.root(),
        }
    }

    /// The transform of `entity` in `after` is the one in `before`, brought
    /// up to date: the local state is kept, and the derived state is what
    /// `compose` returned for it and for the derived state above `entity`
    /// in `after`.
    pub open spec fn updated<F: Fn(&L, &D) -> D>(
        before: Self,
        after: Self,
        entity: Entity,
        compose: F,
    ) -> bool {
        &&& after.transform_of(entity).local_value() == before.transform_of(entity).local_value()
        &&& !after.transform_of(entity).stale()
        &&& call_ensures(
            compose,
            (&before.transform_of(entity).local_value(), &after.derived_above(entity)),
            after.transform_of(entity).derived_value(),
        )
    }

    /// `after` has the slots, the index and the stand-in of `before`.
    pub open spec fn same_layout(before: Self, after: Self) -> bool {
        &&& after.entries() == before.entries()
        &&& after.index() == before.index()
        &&& after.marked() == before.marked()
        &&& after.root() == before.root()
    }

    /// `after` is `before` with every transform brought up to date.
    pub open spec fn refreshed<F: Fn(&L, &D) -> D>(before: Self, after: Self, compose: F) -> bool {
        &&& Self::same_layout(before, after)
        &&& forall|e: Entity| #[trigger]
            before.contains(e) ==> Self::updated(before, after, e, compose)
    }

    /// Stores `derived` as the derived state of the transform in slot
    /// `slot` of row `row`.
    fn store_at(&mut self, row: usize, slot: usize, derived: D)
        requires
            old(self).wf(),
            row < old(self).entries().len(),
            slot < old(self).entries()[row as int].len(),
        ensures
            final(self).wf(),
            Self::same_layout(*old(self), *final(self)),
            final(self).shape() == old(self).shape(),
            final(self).transforms().len() == old(self).transforms().len(),
            forall|r: int, s: int|
                0 <= r < old(self).transforms().len() && 0 <= s < old(self).transforms()[r].len()
                    && !(r == row && s == slot) ==> #[trigger] final(self).transforms()[r][s]
                    == old(self).transforms()[r][s],
            final(self).transforms()[row as int][slot as int].local_value() == old(
                self,
            ).transforms()[row as int][slot as int].local_value(),
            final(self).transforms()[row as int][slot as int].derived_value() == derived,
            !final(self).transforms()[row as int][slot as int].stale(),
    {
        proof {
            assert(self.transforms()[row as int].len() == self.entries()[row as int].len());
        }
        let ghost before = *self;
        self.transforms[row][slot].store_derived(derived);
        proof {
            assert(self.entries() =~= before.entries());
            assert(self.index() =~= before.index());
            assert(self.marked() =~= before.marked());
            assert forall|r: int| 0 <= r < self.entries().len() implies (
            #[trigger] self.transforms()[r]).len() == self.entries()[r].len() by {
                assert(before.transforms()[r].len() == before.entries()[r].len());
            }
            assert(self.wf());
            assert(self.shape() =~= before.shape());
        }
    }

    /// Brings the transform of `entity` up to date, after those of its
    /// ancestors, from the root down. The other transforms are as they were.
    pub fn update_single<F: Fn(&L, &D) -> D>(&mut self, entity: Entity, compose: &F)
        requires
            old(self).wf(),
            linked(old(self).shape()),
            old(self).contains(entity),
            forall|local: &L, above: &D| call_requires(compose, (local, above)),
        ensures
            final(self).wf(),
            Self::same_layout(*old(self), *final(self)),
            final(self).shape() == old(self).shape(),
            forall|e: Entity| #[trigger]
                old(self).contains(e) ==> if in_subtree(old(self).shape(), e, entity) {
                    Self::updated(*old(self), *final(self), e, *compose)
                } else {
                    final(self).transform_of(e) == old(self).transform_of(e)
                },
        decreases old(self).row_of(entity),
    {
        let ghost before = *self;
        let ghost shape = self.shape();
        proof {
            assert(self.index().contains_key(entity));
            assert(shape.contains_key(entity));
        }
        let (row, index) = self.location(entity).unwrap();
        let (_, parent) = self.entities[row][index];
        proof {
            assert(self.transforms()[row as int].len() == self.entries()[row as int].len());
            assert(parent == self.parent_of(entity));
        }
        match parent {
            None => {
                let derived = self.transforms[row][index].derive(&self.root, compose);
                self.store_at(row, index, derived);
                proof {
                    assert forall|e: Entity| #[trigger] before.contains(e) implies if in_subtree(
                        shape,
                        e,
                        entity,
                    ) {
                        Self::updated(before, *self, e, *compose)
                    } else {
                        self.transform_of(e) == before.transform_of(e)
                    } by {
                        assert(before.index().contains_key(e));
                        if in_subtree(shape, e, entity) {
                            assert(shape[entity].row == 0);
                            assert(ancestor(shape, entity, 0) == Some(entity));
                        }
                    }
                }
            },
            Some(parent) => {
                proof {
                    assert(shape.contains_key(parent));
                    assert(parent_above(shape, entity) == Some(parent));
                }
                // First the parent.
                self.update_single(parent, compose);
                let ghost middle = *self;
                proof {
                    assert(self.index().contains_key(parent));
                    assert(in_subtree(shape, parent, parent));
                    assert(Self::updated(before, middle, parent, *compose));
                }
                // Now the entity itself, with what was derived for the parent.
                let (parent_row, parent_index) = self.location(parent).unwrap();
                proof {
                    assert(self.transforms()[parent_row as int].len()
                        == self.entries()[parent_row as int].len());
                    assert(middle.transform_of(entity) == before.transform_of(entity)) by {
                        if in_subtree(shape, entity, entity) && in_subtree(shape, entity, parent) {
                            lemma_ancestor_row(
                                shape,
                                parent,
                                (shape[parent].row - shape[entity].row) as nat,
                            );
                        }
                    }
                }
                let derived = self.transforms[row][index].derive(
                    self.transforms[parent_row][parent_index].derived(),
                    compose,
                );
                self.store_at(row, index, derived);
                proof {
                    assert forall|e: Entity| #[trigger] before.contains(e) implies if in_subtree(
                        shape,
                        e,
                        entity,
                    ) {
                        Self::updated(before, *self, e, *compose)
                    } else {
                        self.transform_of(e) == before.transform_of(e)
                    } by {
                        assert(before.index().contains_key(e));
                        Self::lemma_above(shape, e, entity, parent);
                        if e != entity {
                            assert(self.transform_of(e) == middle.transform_of(e));
                            if in_subtree(shape, e, parent) {
                                assert(Self::updated(before, middle, e, *compose));
                                // The entity above `e` is not `entity`, which stands below.
                                match before.parent_of(e) {
                                    Some(q) => {
                                        assert(shape.contains_key(e));
                                        assert(shape[e].parent == Some(q));
                                        assert(before.index().contains_key(q));
                                        assert(self.transform_of(q) == middle.transform_of(q));
                                    },
                                    None => {},
                                }
                            }
                        }
                    }
                }
            },
        }
    }

    /// The slot `(r, s)` of `after` holds the transform that `before` holds
    /// there, brought up to date.
    spec fn slot_updated<F: Fn(&L, &D) -> D>(
        before: Self,
        after: Self,
        r: int,
        s: int,
        compose: F,
    ) -> bool {
        &&& after.transforms()[r][s].local_value() == before.transforms()[r][s].local_value()
        &&& !after.transforms()[r][s].stale()
        &&& call_ensures(
            compose,
            (&before.transforms()[r][s].local_value(), &after.derived_above(before.entries()[r][s].0)),
            after.transforms()[r][s].derived_value(),
        )
    }

    /// Whether a pass that has reached slot `slot` of row `row` has been at
    /// slot `s` of row `r`.
    spec fn passed(row: int, slot: int, r: int, s: int) -> bool {
        r < row || (r == row && s < slot)
    }

    /// The state of a pass that has reached slot `slot` of row `row`: the
    /// slots before it are up to date, the others untouched.
    spec fn pass_reached<F: Fn(&L, &D) -> D>(
        before: Self,
        now: Self,
        row: int,
        slot: int,
        compose: F,
    ) -> bool {
        &&& now.wf()
        &&& Self::same_layout(before, now)
        &&& forall|r: int, s: int|
            0 <= r < before.entries().len() && 0 <= s < before.entries()[r].len() ==> if Self::passed(
                row,
                slot,
                r,
                s,
            ) {
                Self::slot_updated(before, now, r, s, compose)
            } else {
                #[trigger] now.transforms()[r][s] == before.transforms()[r][s]
            }
    }

    /// Brings one more slot up to date.
    fn update_slot<F: Fn(&L, &D) -> D>(
        &mut self,
        row: usize,
        slot: usize,
        compose: &F,
        Ghost(before): Ghost<Self>,
    )
        requires
            before.wf(),
            linked(before.shape()),
            Self::pass_reached(before, *old(self), row as int, slot as int, *compose),
            row < before.entries().len(),
            slot < before.entries()[row as int].len(),
            forall|local: &L, above: &D| call_requires(compose, (local, above)),
        ensures
            Self::pass_reached(before, *final(self), row as int, slot + 1, *compose),
    {
        let ghost start = *self;
        let ghost entity = before.entries()[row as int][slot as int].0;
        let (_, parent) = self.entities[row][slot];
        proof {
            assert(self.transforms()[row as int].len() == self.entries()[row as int].len());
            assert(before.index().contains_key(before.entries()[row as int][slot as int].0));
            assert(before.shape().contains_key(entity));
            assert(parent == before.parent_of(entity));
            assert(start.transforms()[row as int][slot as int] == before.transforms()[row as int][slot as int]);
        }
        // The derived state of the parent, or the stand-in where there is no parent.
        let derived = match parent {
            None => self.transforms[row][slot].derive(&self.root, compose),
            Some(parent) => {
                proof {
                    assert(before.shape().contains_key(parent));
                    assert(before.index().contains_key(parent));
                    assert(self.index().contains_key(parent));
                }
                let (parent_row, parent_slot) = self.location(parent).unwrap();
                proof {
                    assert(self.transforms()[parent_row as int].len()
                        == self.entries()[parent_row as int].len());
                    assert(Self::passed(row as int, slot as int, parent_row as int, parent_slot as int));
                    assert(Self::slot_updated(
                        before,
                        start,
                        parent_row as int,
                        parent_slot as int,
                        *compose,
                    ));
                }
                self.transforms[row][slot].derive(
                    self.transforms[parent_row][parent_slot].derived(),
                    compose,
                )
            },
        };
        self.store_at(row, slot, derived);
        proof {
            let now = *self;
            assert forall|r: int, s: int|
                0 <= r < before.entries().len() && 0 <= s < before.entries()[r].len() implies if Self::passed(
                row as int,
                slot + 1,
                r,
                s,
            ) {
                Self::slot_updated(before, now, r, s, *compose)
            } else {
                #[trigger] now.transforms()[r][s] == before.transforms()[r][s]
            } by {
                assert(before.transforms()[r].len() == before.entries()[r].len());
                assert(start.transforms()[r].len() == start.entries()[r].len());
                let e = before.entries()[r][s].0;
                assert(before.index().contains_key(before.entries()[r][s].0));
                assert(before.shape().contains_key(e));
                if r == row && s == slot {
                    assert(now.derived_above(e) == start.derived_above(e)) by {
                        Self::lemma_above_kept(before, start, now, row as int, slot as int, e);
                    }
                } else {
                    assert(now.transforms()[r][s] == start.transforms()[r][s]);
                    if Self::passed(row as int, slot as int, r, s) {
                        assert(Self::slot_updated(before, start, r, s, *compose));
                        assert(now.derived_above(e) == start.derived_above(e)) by {
                            Self::lemma_above_kept(before, start, now, row as int, slot as int, e);
                        }
                    }
                }
            }
        }
    }

    /// What is above an entity at or before the slot `(row, slot)` is not
    /// touched by a change of the transform in that slot.
    proof fn lemma_above_kept(before: Self, start: Self, now: Self, row: int, slot: int, e: Entity)
        requires
            before.wf(),
            linked(before.shape()),
            Self::same_layout(before, start),
            Self::same_layout(before, now),
            before.contains(e),
            before.row_of(e) <= row,
            0 <= row < before.entries().len(),
            0 <= slot < before.entries()[row].len(),
            forall|r: int, s: int|
                0 <= r < before.entries().len() && 0 <= s < before.entries()[r].len() && !(r == row
                    && s == slot) ==> #[trigger] now.transforms()[r][s] == start.transforms()[r][s],
        ensures
            now.derived_above(e) == start.derived_above(e),
    {
        assert(before.shape().contains_key(e));
        match before.parent_of(e) {
            Some(p) => {
                assert(before.shape().contains_key(p));
                assert(before.index().contains_key(p));
                let r = before.row_of(p) as int;
                let s = before.slot_of(p) as int;
                assert(now.transforms()[r][s] == start.transforms()[r][s]);
            },
            None => {},
        }
    }

    /// Brings every transform up to date, row by row from row 0 down, so
    /// that each is composed with the derived state that this pass has
    /// computed for its parent. Every transform is recomputed, whether or
    /// not it was marked as out of date.
    pub fn transform_update<F: Fn(&L, &D) -> D>(&mut self, compose: &F)
        requires
            old(self).wf(),
            linked(old(self).shape()),
            forall|local: &L, above: &D| call_requires(compose, (local, above)),
        ensures
            final(self).wf(),
            final(self).shape() == old(self).shape(),
            Self::refreshed(*old(self), *final(self), *compose),
    {
        let ghost before = *self;
        let mut row: usize = 0;
        while row < self.entities.len()
            invariant
                before.wf(),
                linked(before.shape()),
                forall|local: &L, above: &D| call_requires(compose, (local, above)),
                row <= before.entries().len(),
                Self::pass_reached(before, *self, row as int, 0, *compose),
            decreases before.entries().len() - row,
        {
            let mut slot: usize = 0;
            while slot < self.entities[row].len()
                invariant
                    before.wf(),
                    linked(before.shape()),
                    forall|local: &L, above: &D| call_requires(compose, (local, above)),
                    row < before.entries().len(),
                    slot <= before.entries()[row as int].len(),
                    Self::pass_reached(before, *self, row as int, slot as int, *compose),
                decreases before.entries()[row as int].len() - slot,
            {
                self.update_slot(row, slot, compose, Ghost(before));
                slot += 1;
            }
            proof {
                assert forall|r: int, s: int|
                    0 <= r < before.entries().len() && 0 <= s < before.entries()[r].len() implies (
                Self::passed(row as int, slot as int, r, s) <==> Self::passed(row + 1, 0, r, s)) by {}
            }
            row += 1;
        }
        proof {
            let now = *self;
            assert forall|e: Entity| #[trigger] before.contains(e) implies Self::updated(
                before,
                now,
                e,
                *compose,
            ) by {
                assert(before.index().contains_key(e));
                let r = before.row_of(e) as int;
                let s = before.slot_of(e) as int;
                assert(Self::passed(row as int, 0, r, s));
                assert(Self::slot_updated(before, now, r, s, *compose));
            }
            assert(now.shape() =~= before.shape());
        }
    }

    /// After a pass the derived state of an entity without a parent is what
    /// `compose` returned for its local state and the stand-in.
    pub proof fn lemma_root_composed_with_stand_in<F: Fn(&L, &D) -> D>(
        before: Self,
        after: Self,
        compose: F,
        entity: Entity,
    )
        requires
            Self::refreshed(before, after, compose),
            before.contains(entity),
            before.parent_of(entity) is None,
        ensures
            call_ensures(
                compose,
                (&before.transform_of(entity).local_value(), &before.root()),
                after.transform_of(entity).derived_value(),
            ),
            after.transform_of(entity).local_value() == before.transform_of(entity).local_value(),
    {
        assert(Self::updated(before, after, entity, compose));
    }

    /// `compose` returns one result for each pair of arguments.
    pub open spec fn single_valued<F: Fn(&L, &D) -> D>(compose: F) -> bool {
        forall|local: &L, above: &D, one: D, other: D|
            #[trigger] call_ensures(compose, (local, above), one) && #[trigger] call_ensures(
                compose,
                (local, above),
                other,
            ) ==> one == other
    }

    /// A pass over a hierarchy that the pass before has brought up to date,
    /// with nothing changed in between, leaves every transform as it is,
    /// provided `compose` returns one result for each pair of arguments.
    pub proof fn lemma_second_pass_changes_nothing<F: Fn(&L, &D) -> D>(
        first: Self,
        second: Self,
        third: Self,
        compose: F,
        entity: Entity,
    )
        requires
            first.wf(),
            linked(first.shape()),
            Self::refreshed(first, second, compose),
            Self::refreshed(second, third, compose),
            Self::single_valued(compose),
            first.contains(entity),
        ensures
            third.transform_of(entity) == second.transform_of(entity),
        decreases first.row_of(entity),
    {
        assert(first.index().contains_key(entity));
        assert(second.contains(entity));
        assert(first.shape().contains_key(entity));
        assert(Self::updated(first, second, entity, compose));
        assert(Self::updated(second, third, entity, compose));
        match first.parent_of(entity) {
            Some(parent) => {
                assert(first.shape().contains_key(parent));
                Self::lemma_second_pass_changes_nothing(first, second, third, compose, parent);
            },
            None => {},
        }
        assert(third.derived_above(entity) == second.derived_above(entity));
        Transform::lemma_equal(third.transform_of(entity), second.transform_of(entity));
    }

    /// What stands above the parent of `entity` or is that parent, and
    /// `entity` itself, is what stands above `entity`.
    proof fn lemma_above(shape: Shape, e: Entity, entity: Entity, parent: Entity)
        requires
            parent_above(shape, entity) == Some(parent),
            shape.contains_key(e),
        ensures
            in_subtree(shape, e, entity) <==> e == entity || in_subtree(shape, e, parent),
            in_subtree(shape, e, parent) ==> shape[e].row < shape[entity].row,
    {
        if shape[entity].row >= shape[e].row {
            let k = (shape[entity].row - shape[e].row) as nat;
            if k == 0 {
                assert(ancestor(shape, entity, 0) == Some(entity));
            } else {
                assert(ancestor(shape, entity, k) == ancestor(shape, parent, (k - 1) as nat));
            }
        }
    }
}

} // verus!

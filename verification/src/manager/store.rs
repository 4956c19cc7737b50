//! Putting transforms into the store, finding them, and taking them out.

use vstd::prelude::*;
use std::collections::HashSet;
use vstd::std_specs::iter::IteratorSpec;
use crate::component::ComponentManager;
use crate::entity::Entity;
use crate::transform::Transform;
use crate::hierarchy::Link;
use crate::hierarchy::childless;
use crate::hierarchy::linked;
use crate::hierarchy::lemma_linked_with_root;
use crate::hierarchy::lemma_linked_without_leaf;
use super::TransformManager;

verus! {

broadcast use vstd::std_specs::hash::group_hash_axioms;

impl<L, D> TransformManager<L, D> {
    /// Appends `transform` to row `row` as the transform of `entity`, with
    /// `parent` recorded for it. Rows that are missing up to `row` are
    /// created empty.
    pub(crate) fn place(
        &mut self,
        entity: Entity,
        parent: Option<Entity>,
        transform: Transform<L, D>,
        row: usize,
    )
        requires
            old(self).wf(),
            !old(self).contains(entity),
            parent is None <==> row == 0,
            row < usize::MAX,
        ensures
            final(self).wf(),
            final(self).entries().len() == if old(self).entries().len() > row {
                old(self).entries().len()
            } else {
                (row + 1) as nat
            },
            forall|r: int|
                0 <= r < final(self).entries().len() && r != row ==> (#[trigger] final(self).entries()[r])
                    == if r < old(self).entries().len() {
                    old(self).entries()[r]
                } else {
                    Seq::empty()
                },
            final(self).entries()[row as int] == (if row < old(self).entries().len() {
                old(self).entries()[row as int]
            } else {
                Seq::empty()
            }).push((entity, parent)),
            final(self).transforms().len() == final(self).entries().len(),
            forall|r: int|
                0 <= r < final(self).transforms().len() && r != row ==> (#[trigger] final(self).transforms()[r])
                    == if r < old(self).transforms().len() {
                    old(self).transforms()[r]
                } else {
                    Seq::empty()
                },
            final(self).transforms()[row as int] == (if row < old(self).transforms().len() {
                old(self).transforms()[row as int]
            } else {
                Seq::empty()
            }).push(transform),
            final(self).index() == old(self).index().insert(
                entity,
                (row as nat, (final(self).entries()[row as int].len() - 1) as nat),
            ),
            final(self).shape() == old(self).shape().insert(
                entity,
                Link { row: row as nat, parent },
            ),
            final(self).payloads() == old(self).payloads().insert(entity, transform),
            final(self).marked() == old(self).marked(),
            final(self).root() == old(self).root(),
    {
        let ghost before = *self;
        while self.transforms.len() < row + 1
            invariant
                row < usize::MAX,
                before.wf(),
                self.wf(),
                self.entries().len() >= before.entries().len(),
                self.entries().len() <= row + 1 || self.entries().len() == before.entries().len(),
                forall|r: int|
                    0 <= r < self.entries().len() ==> #[trigger] self.entries()[r] == if r
                        < before.entries().len() {
                        before.entries()[r]
                    } else {
                        Seq::empty()
                    },
                forall|r: int|
                    0 <= r < self.entries().len() ==> #[trigger] self.transforms()[r] == if r
                        < before.entries().len() {
                        before.transforms()[r]
                    } else {
                        Seq::empty()
                    },
                self.index() == before.index(),
                self.marked() == before.marked(),
                self.root() == before.root(),
            decreases row + 1 - self.transforms.len(),
        {
            let ghost prev = *self;
            self.transforms.push(Vec::new());
            self.entities.push(Vec::new());
            proof {
                assert(self.index() =~= before.index());
                assert(self.marked() =~= before.marked());
                assert(self.entries() =~= prev.entries().push(Seq::empty()));
                assert(self.transforms() =~= prev.transforms().push(Seq::empty()));
                assert forall|r: int, s: int|
                    0 <= r < self.entries().len() && 0 <= s < self.entries()[r].len() implies {
                    &&& self.index().contains_key((#[trigger] self.entries()[r][s]).0)
                    &&& self.index()[self.entries()[r][s].0] == (r as nat, s as nat)
                    &&& (self.entries()[r][s].1 is None <==> r == 0)
                } by {
                    assert(self.entries()[r][s] == prev.entries()[r][s]);
                }
                assert forall|e: Entity| #[trigger] self.index().contains_key(e) implies {
                    &&& self.index()[e].0 < self.entries().len()
                    &&& self.index()[e].1 < self.entries()[self.index()[e].0 as int].len()
                    &&& self.entries()[self.index()[e].0 as int][self.index()[e].1 as int].0 == e
                } by {
                    assert(prev.index().contains_key(e));
                }
            }
        }
        let ghost grown = *self;
        let slot = self.transforms[row].len();
        self.transforms[row].push(transform);
        self.entities[row].push((entity, parent));
        self.indices.insert(entity.id, (row, slot));
        proof {
            assert(self.index() =~= before.index().insert(entity, (row as nat, slot as nat)));
            assert(self.marked() =~= before.marked());
            assert(self.entries()[row as int] =~= grown.entries()[row as int].push(
                (entity, parent),
            ));
            assert(self.transforms()[row as int] =~= grown.transforms()[row as int].push(
                transform,
            ));
            assert forall|r: int| 0 <= r < self.entries().len() && r != row implies (
            #[trigger] self.entries()[r]) == grown.entries()[r] && self.transforms()[r]
                == grown.transforms()[r] by {}
            assert forall|r: int, s: int|
                0 <= r < self.entries().len() && 0 <= s < self.entries()[r].len() implies {
                &&& self.index().contains_key((#[trigger] self.entries()[r][s]).0)
                &&& self.index()[self.entries()[r][s].0] == (r as nat, s as nat)
                &&& (self.entries()[r][s].1 is None <==> r == 0)
            } by {
                if r == row && s == slot {
                } else {
                    assert(self.entries()[r][s] == grown.entries()[r][s]);
                    assert(grown.index().contains_key(grown.entries()[r][s].0));
                }
            }
            assert forall|e: Entity| #[trigger] self.index().contains_key(e) implies {
                &&& self.index()[e].0 < self.entries().len()
                &&& self.index()[e].1 < self.entries()[self.index()[e].0 as int].len()
                &&& self.entries()[self.index()[e].0 as int][self.index()[e].1 as int].0 == e
            } by {
                if e != entity {
                    assert(grown.index().contains_key(e));
                }
            }
            assert(self.wf());
            assert(self.shape() =~= before.shape().insert(
                entity,
                Link { row: row as nat, parent },
            )) by {
                assert forall|e: Entity| before.contains(e) implies self.shape()[e]
                    == before.shape()[e] by {
                    assert(grown.index().contains_key(e));
                }
            }
            assert(self.payloads() =~= before.payloads().insert(entity, transform)) by {
                assert forall|e: Entity| before.contains(e) implies self.payloads()[e]
                    == before.payloads()[e] by {
                    assert(grown.index().contains_key(e));
                }
            }
        }
    }

    /// Gives `entity` the transform `transform`, as a root: in row 0, after
    /// the entities that are there, with no parent. The transform is handed
    /// back to be changed in place.
    pub fn assign(&mut self, entity: Entity, transform: Transform<L, D>) -> (assigned: &mut Transform<
        L,
        D,
    >)
        requires
            old(self).wf(),
            !old(self).contains(entity),
        ensures
            *assigned == transform,
            final(self).wf(),
            final(self).entries() == old(self).entries().update(
                0,
                old(self).entries()[0].push((entity, None)),
            ),
            final(self).transforms() == old(self).transforms().update(
                0,
                old(self).transforms()[0].push(*final(assigned)),
            ),
            final(self).index() == old(self).index().insert(
                entity,
                (0nat, old(self).entries()[0].len()),
            ),
            final(self).shape() == old(self).shape().insert(
                entity,
                Link { row: 0, parent: None },
            ),
            final(self).payloads() == old(self).payloads().insert(entity, *final(assigned)),
            forall|e: Entity| final(self).contains(e) <==> old(self).contains(e) || e == entity,
            linked(old(self).shape()) ==> linked(final(self).shape()),
            final(self).marked() == old(self).marked(),
            final(self).root() == old(self).root(),
    {
        let ghost before = *self;
        proof {
            if linked(self.shape()) {
                lemma_linked_with_root(self.shape(), entity);
            }
        }
        self.place(entity, None, transform, 0);
        proof {
            let placed = *self;
            let slot = before.entries()[0].len() as int;
            assert(placed.entries() =~= before.entries().update(
                0,
                before.entries()[0].push((entity, None)),
            ));
            assert(placed.index().contains_key(entity));
            assert(placed.transforms()[0].len() == placed.entries()[0].len());
            assert(before.transforms()[0].len() == before.entries()[0].len());
            assert(placed.payloads()[entity] == transform);
            assert forall|changed: Transform<L, D>|
                #![trigger placed.transforms()[0].update(slot, changed)]
                placed.transforms().update(0, placed.transforms()[0].update(slot, changed))
                    == before.transforms().update(0, before.transforms()[0].push(changed)) by {
                assert(placed.transforms()[0].update(slot, changed) =~= before.transforms()[0].push(
                    changed,
                ));
                assert(placed.transforms().update(0, placed.transforms()[0].update(slot, changed))
                    =~= before.transforms().update(0, before.transforms()[0].push(changed)));
            }
            assert forall|changed: Transform<L, D>|
                #![trigger placed.payloads().insert(entity, changed)]
                placed.payloads().insert(entity, changed) == before.payloads().insert(
                    entity,
                    changed,
                ) by {
                assert(placed.payloads().insert(entity, changed) =~= before.payloads().insert(
                    entity,
                    changed,
                ));
            }
        }
        self.get_mut(entity)
    }

    /// The transform of `entity`.
    pub fn get(&self, entity: Entity) -> (transform: &Transform<L, D>)
        requires
            self.wf(),
            self.contains(entity),
        ensures
            *transform == self.transform_of(entity),
            *transform == self.payloads()[entity],
    {
        let (row, index) = *self.indices.get(&entity.id).unwrap();
        assert(self.index().contains_key(entity));
        assert(self.transforms()[row as int].len() == self.entries()[row as int].len());
        &self.transforms[row][index]
    }

    /// The transform of `entity`, to be changed in place. Nothing else in
    /// the store changes.
    pub fn get_mut(&mut self, entity: Entity) -> (transform: &mut Transform<L, D>)
        requires
            old(self).wf(),
            old(self).contains(entity),
        ensures
            *transform == old(self).transform_of(entity),
            *transform == old(self).payloads()[entity],
            final(self).wf(),
            final(self).entries() == old(self).entries(),
            final(self).index() == old(self).index(),
            final(self).shape() == old(self).shape(),
            final(self).payloads() == old(self).payloads().insert(entity, *final(transform)),
            final(self).transforms() == old(self).transforms().update(
                old(self).row_of(entity) as int,
                old(self).transforms()[old(self).row_of(entity) as int].update(
                    old(self).slot_of(entity) as int,
                    *final(transform),
                ),
            ),
            final(self).marked() == old(self).marked(),
            final(self).root() == old(self).root(),
    {
        let (row, index) = *self.indices.get(&entity.id).unwrap();
        proof {
            assert(self.index().contains_key(entity));
            assert(self.transforms()[row as int].len() == self.entries()[row as int].len());
            let before = *self;
            assert forall|after: Self|
                Self::differs_in_one_transform(before, after, row as int, index as int) implies {
                &&& (#[trigger] after.transforms()) == before.transforms().update(
                    row as int,
                    before.transforms()[row as int].update(
                        index as int,
                        after.transforms@[row as int]@[index as int],
                    ),
                )
                &&& after.wf()
                &&& after.entries() == before.entries()
                &&& after.index() == before.index()
                &&& after.marked() == before.marked()
                &&& after.shape() == before.shape()
                &&& after.payloads() == before.payloads().insert(
                    entity,
                    after.transforms@[row as int]@[index as int],
                )
            } by {
                Self::lemma_one_transform_differs(before, after, entity);
            }
        }
        &mut self.transforms[row][index]
    }

    /// `after` is `before` with the transform at `(row, slot)` replaced.
    spec fn differs_in_one_transform(before: Self, after: Self, row: int, slot: int) -> bool {
        &&& after.entities == before.entities
        &&& after.indices == before.indices
        &&& after.marked_for_destroy == before.marked_for_destroy
        &&& after.root == before.root
        &&& after.transforms@.len() == before.transforms@.len()
        &&& 0 <= row < before.transforms@.len()
        &&& 0 <= slot < before.transforms@[row]@.len()
        &&& after.transforms@[row]@ == before.transforms@[row]@.update(
            slot,
            after.transforms@[row]@[slot],
        )
        &&& forall|r: int|
            0 <= r < before.transforms@.len() && r != row ==> after.transforms@[r]
                == before.transforms@[r]
    }

    proof fn lemma_one_transform_differs(before: Self, after: Self, entity: Entity)
        requires
            before.wf(),
            before.contains(entity),
            Self::differs_in_one_transform(
                before,
                after,
                before.row_of(entity) as int,
                before.slot_of(entity) as int,
            ),
        ensures
            after.transforms() == before.transforms().update(
                before.row_of(entity) as int,
                before.transforms()[before.row_of(entity) as int].update(
                    before.slot_of(entity) as int,
                    after.transforms@[before.row_of(entity) as int]@[before.slot_of(
                        entity,
                    ) as int],
                ),
            ),
            after.wf(),
            after.entries() == before.entries(),
            after.index() == before.index(),
            after.marked() == before.marked(),
            after.shape() == before.shape(),
            after.payloads() == before.payloads().insert(
                entity,
                after.transforms@[before.row_of(entity) as int]@[before.slot_of(entity) as int],
            ),
    {
        let row = before.row_of(entity) as int;
        let index = before.slot_of(entity) as int;
        let changed = after.transforms@[row]@[index];
        assert(after.entries() =~= before.entries());
        assert(after.index() =~= before.index());
        assert(after.marked() =~= before.marked());
        assert(after.transforms() =~= before.transforms().update(
            row,
            before.transforms()[row].update(index, changed),
        ));
        assert forall|r: int| 0 <= r < after.entries().len() implies (
        #[trigger] after.transforms()[r]).len() == after.entries()[r].len() by {
            assert(before.transforms()[r].len() == before.entries()[r].len());
        }
        assert(after.wf());
        assert(after.shape() =~= before.shape());
        assert(after.payloads() =~= before.payloads().insert(entity, changed)) by {
            assert forall|e: Entity| before.contains(e) && e != entity implies after.payloads()[e]
                == before.payloads()[e] by {
                assert(before.index().contains_key(e));
            }
        }
    }

    /// Takes the transform of `entity` out of the store.
    ///
    /// The last entry of the row moves into the slot that is freed, and the
    /// index follows it. Entities that have `entity` as their parent keep
    /// their entries as they are: a caller that removes a parent answers for
    /// its children.
    pub fn remove(&mut self, entity: Entity) -> (removed: Transform<L, D>)
        requires
            old(self).wf(),
            old(self).contains(entity),
        ensures
            removed == old(self).transform_of(entity),
            removed == old(self).payloads()[entity],
            final(self).wf(),
            final(self).entries() == old(self).entries().update(
                old(self).row_of(entity) as int,
                Self::swap_removed(
                    old(self).entries()[old(self).row_of(entity) as int],
                    old(self).slot_of(entity) as int,
                ),
            ),
            final(self).transforms() == old(self).transforms().update(
                old(self).row_of(entity) as int,
                Self::swap_removed(
                    old(self).transforms()[old(self).row_of(entity) as int],
                    old(self).slot_of(entity) as int,
                ),
            ),
            forall|e: Entity| final(self).contains(e) <==> old(self).contains(e) && e != entity,
            final(self).shape() == old(self).shape().remove(entity),
            final(self).payloads() == old(self).payloads().remove(entity),
            linked(old(self).shape()) && childless(old(self).shape(), entity) ==> linked(
                final(self).shape(),
            ),
            final(self).marked() == old(self).marked(),
            final(self).root() == old(self).root(),
    {
        let ghost before = *self;
        proof {
            assert(self.index().contains_key(entity));
            if linked(self.shape()) && childless(self.shape(), entity) {
                lemma_linked_without_leaf(self.shape(), entity);
            }
        }
        let (row, index) = self.indices.remove(&entity.id).unwrap();
        proof {
            assert(before.transforms()[row as int].len() == before.entries()[row as int].len());
        }
        let (removed_entity, _) = self.entities[row].swap_remove(index);
        let ghost moved = before.entries()[row as int].last().0;
        if index != self.entities[row].len() {
            let (moved_entity, _) = self.entities[row][index];
            self.indices.insert(moved_entity.id, (row, index));
        }
        let removed = self.transforms[row].swap_remove(index);
        proof {
            let last = (before.entries()[row as int].len() - 1) as int;
            assert(before.index().contains_key(before.entries()[row as int][last].0));
            assert(self.index() =~= if index as int == last {
                before.index().remove(entity)
            } else {
                before.index().remove(entity).insert(moved, (row as nat, index as nat))
            });
            assert(self.marked() =~= before.marked());
            assert(self.entries() =~= before.entries().update(
                row as int,
                Self::swap_removed(before.entries()[row as int], index as int),
            ));
            assert(self.transforms() =~= before.transforms().update(
                row as int,
                Self::swap_removed(before.transforms()[row as int], index as int),
            ));
            assert forall|r: int| 0 <= r < self.entries().len() implies (
            #[trigger] self.transforms()[r]).len() == self.entries()[r].len() by {
                assert(before.transforms()[r].len() == before.entries()[r].len());
            }
            assert forall|r: int, s: int|
                0 <= r < self.entries().len() && 0 <= s < self.entries()[r].len() implies {
                &&& self.index().contains_key((#[trigger] self.entries()[r][s]).0)
                &&& self.index()[self.entries()[r][s].0] == (r as nat, s as nat)
                &&& (self.entries()[r][s].1 is None <==> r == 0)
            } by {
                if r == row && s == index {
                    assert(self.entries()[r][s] == before.entries()[r][last]);
                } else {
                    assert(self.entries()[r][s] == before.entries()[r][s]);
                    assert(before.index().contains_key(before.entries()[r][s].0));
                }
            }
            assert forall|e: Entity| #[trigger] self.index().contains_key(e) implies {
                &&& self.index()[e].0 < self.entries().len()
                &&& self.index()[e].1 < self.entries()[self.index()[e].0 as int].len()
                &&& self.entries()[self.index()[e].0 as int][self.index()[e].1 as int].0 == e
            } by {
                assert(before.index().contains_key(e));
            }
            assert(self.wf());
            assert(self.shape() =~= before.shape().remove(entity)) by {
                assert forall|e: Entity| before.contains(e) && e != entity implies
                    self.shape()[e] == before.shape()[e] by {
                    assert(before.index().contains_key(e));
                }
            }
            assert(self.payloads() =~= before.payloads().remove(entity)) by {
                assert forall|e: Entity| before.contains(e) && e != entity implies
                    self.payloads()[e] == before.payloads()[e] by {
                    assert(before.index().contains_key(e));
                }
            }
        }
        removed
    }

    /// A row after the entry at `slot` was replaced by the last entry and the
    /// row was shortened by one.
    pub open spec fn swap_removed<T>(row: Seq<T>, slot: int) -> Seq<T> {
        row.update(slot, row.last()).drop_last()
    }

    /// Marks the transform of `entity` for destruction. It stays in the store
    /// until the marks are committed.
    pub fn destroy(&mut self, entity: Entity)
        ensures
            final(self).marked() == old(self).marked().insert(entity),
            final(self).entries() == old(self).entries(),
            final(self).transforms() == old(self).transforms(),
            final(self).index() == old(self).index(),
            final(self).root() == old(self).root(),
    {
        self.marked_for_destroy.insert(entity.id);
        proof {
            assert(self.marked() =~= old(self).marked().insert(entity));
            assert(self.entries() =~= old(self).entries());
            assert(self.transforms() =~= old(self).transforms());
            assert(self.index() =~= old(self).index());
        }
    }

    /// Removes the transform of `entity` at once. Its children, if it has
    /// any, are left as they are.
    pub fn destroy_immediate(&mut self, entity: Entity)
        requires
            old(self).wf(),
            old(self).contains(entity),
        ensures
            final(self).wf(),
            final(self).entries() == old(self).entries().update(
                old(self).row_of(entity) as int,
                Self::swap_removed(
                    old(self).entries()[old(self).row_of(entity) as int],
                    old(self).slot_of(entity) as int,
                ),
            ),
            forall|e: Entity| final(self).contains(e) <==> old(self).contains(e) && e != entity,
            final(self).shape() == old(self).shape().remove(entity),
            final(self).payloads() == old(self).payloads().remove(entity),
            linked(old(self).shape()) && childless(old(self).shape(), entity) ==> linked(
                final(self).shape(),
            ),
            final(self).marked() == old(self).marked(),
            final(self).root() == old(self).root(),
    {
        let _ = self.remove(entity);
    }
}

impl<L, D> ComponentManager for TransformManager<L, D> {
    open spec fn pending(&self) -> Set<Entity> {
        self.marked()
    }

    open spec fn committable(&self) -> bool {
        &&& self.wf()
        &&& forall|e: Entity| self.marked().contains(e) ==> self.contains(e)
    }

    /// Marks the transform of `entity` for destruction, as
    /// [`TransformManager::destroy`] does.
    fn destroy_all(&mut self, entity: Entity)
        ensures
            final(self).marked() == old(self).marked().insert(entity),
            final(self).entries() == old(self).entries(),
            final(self).transforms() == old(self).transforms(),
            final(self).index() == old(self).index(),
            final(self).root() == old(self).root(),
    {
        self.destroy(entity);
    }

    /// Removes the transform of every marked entity and clears the marks.
    ///
    /// Every marked entity must still have its transform. The order in which
    /// the marked entities are removed is not fixed, and with it the slots
    /// of the entities that stay; their rows, parents and transforms are.
    fn destroy_marked(&mut self)
        ensures
            final(self).wf(),
            final(self).marked() == Set::<Entity>::empty(),
            final(self).shape() == old(self).shape().remove_keys(old(self).marked()),
            final(self).payloads() == old(self).payloads().remove_keys(old(self).marked()),
            forall|e: Entity|
                final(self).contains(e) <==> old(self).contains(e) && !old(self).marked().contains(
                    e,
                ),
            final(self).entries().len() == old(self).entries().len(),
            final(self).root() == old(self).root(),
    {
        let ghost before = *self;
        let mut marked_for_destroy = HashSet::new();
        std::mem::swap(&mut marked_for_destroy, &mut self.marked_for_destroy);
        proof {
            assert(self.entries() =~= before.entries());
            assert(self.transforms() =~= before.transforms());
            assert(self.index() =~= before.index());
            assert(self.marked() =~= Set::<Entity>::empty());
            assert(self.shape() =~= before.shape());
            assert(self.payloads() =~= before.payloads());
        }
        let ghost keys = marked_for_destroy@;
        proof {
            assert forall|k: u64| keys.contains(k) implies before.contains(Entity { id: k }) by {
                assert(before.marked().contains(Entity { id: k }));
            }
        }
        let ghost order = marked_for_destroy.iter().remaining();
        let ghost mut gone = Set::<Entity>::empty();
        let ghost mut count = 0int;
        for key in it: marked_for_destroy.iter()
            invariant
                before.wf(),
                self.wf(),
                it.seq() == order,
                count == it.index(),
                order.unref().to_set() == keys,
                order.no_duplicates(),
                forall|k: u64| keys.contains(k) ==> before.contains(Entity { id: k }),
                forall|e: Entity|
                    gone.contains(e) <==> exists|i: int|
                        0 <= i < count && *(#[trigger] order[i]) == e.id,
                self.marked() == Set::<Entity>::empty(),
                self.shape() == before.shape().remove_keys(gone),
                self.payloads() == before.payloads().remove_keys(gone),
                self.entries().len() == before.entries().len(),
                self.root() == before.root(),
        {
            let entity = Entity { id: *key };
            proof {
                assert(order.unref()[count] == *key);
                assert(order.unref().to_set().contains(*key));
                assert(before.contains(entity));
                assert(!gone.contains(entity)) by {
                    if gone.contains(entity) {
                        let i = choose|i: int| 0 <= i < count && *(#[trigger] order[i]) == entity.id;
                        assert(order[i] == order[count]);
                    }
                }
                assert(self.shape().contains_key(entity));
            }
            let ghost round = *self;
            self.destroy_immediate(entity);
            proof {
                let next = gone.insert(entity);
                assert(self.shape() =~= before.shape().remove_keys(next));
                assert(self.payloads() =~= before.payloads().remove_keys(next));
                assert(self.entries().len() == round.entries().len());
                assert forall|e: Entity|
                    next.contains(e) <==> exists|i: int|
                        0 <= i < count + 1 && *(#[trigger] order[i]) == e.id by {
                    if gone.contains(e) {
                        let i = choose|i: int| 0 <= i < count && *(#[trigger] order[i]) == e.id;
                        assert(0 <= i < count + 1 && *order[i] == e.id);
                    }
                    if e == entity {
                        assert(*order[count] == e.id);
                    }
                    if exists|i: int| 0 <= i < count + 1 && *(#[trigger] order[i]) == e.id {
                        let i = choose|i: int|
                            0 <= i < count + 1 && *(#[trigger] order[i]) == e.id;
                        if i < count {
                            assert(gone.contains(e));
                        }
                    }
                }
                gone = next;
                count = count + 1;
            }
        }
        proof {
            assert(count == order.len());
            assert forall|e: Entity|
                self.contains(e) <==> before.contains(e) && !gone.contains(e) by {
                assert(self.shape().contains_key(e) <==> before.shape().contains_key(e)
                    && !gone.contains(e));
            }
            assert(gone =~= before.marked()) by {
                assert forall|e: Entity| gone.contains(e) <==> before.marked().contains(e) by {
                    if gone.contains(e) {
                        let i = choose|i: int| 0 <= i < count && *(#[trigger] order[i]) == e.id;
                        assert(order.unref()[i] == e.id);
                        assert(order.unref().to_set().contains(e.id));
                    }
                    if before.marked().contains(e) {
                        assert(order.unref().to_set().contains(e.id));
                        let i = choose|i: int|
                            0 <= i < order.unref().len() && order.unref()[i] == e.id;
                        assert(*order[i] == e.id);
                    }
                }
            }
        }
    }
}

} // verus!

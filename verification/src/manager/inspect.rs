//! Questions about the hierarchy that a caller can ask at run time.

use vstd::prelude::*;
use vstd::std_specs::iter::IteratorSpec;
use crate::component::ComponentManager;
use crate::entity::Entity;
use crate::hierarchy::ancestor;
use crate::hierarchy::in_subtree;
use crate::hierarchy::link_holds;
use crate::hierarchy::linked;
use crate::hierarchy::parent_above;
use crate::hierarchy::lemma_ancestor_add;
use crate::hierarchy::lemma_ancestor_below;
use super::TransformManager;

verus! {

broadcast use vstd::std_specs::hash::group_hash_axioms;

impl<L, D> TransformManager<L, D> {
    /// The parent recorded for `entity`, if `entity` has a transform and a
    /// parent.
    pub fn parent(&self, entity: Entity) -> (parent: Option<Entity>)
        requires
            self.wf(),
        ensures
            parent == if self.contains(entity) {
                self.parent_of(entity)
            } else {
                None
            },
    {
        match self.location(entity) {
            Some((row, slot)) => {
                proof {
                    assert(self.index().contains_key(entity));
                }
                let (_, parent) = self.entities[row][slot];
                parent
            },
            None => None,
        }
    }

    /// The number of slots in row `row`; 0 for a row that does not exist.
    pub fn row_len(&self, row: usize) -> (len: usize)
        requires
            self.wf(),
        ensures
            len == if row < self.entries().len() {
                self.entries()[row as int].len()
            } else {
                0
            },
    {
        if row < self.entities.len() {
            self.entities[row].len()
        } else {
            0
        }
    }

    /// The entity in slot `slot` of row `row` and the parent recorded for
    /// it, if there is such a slot.
    pub fn entry(&self, row: usize, slot: usize) -> (entry: Option<(Entity, Option<Entity>)>)
        requires
            self.wf(),
        ensures
            entry == if row < self.entries().len() && slot < self.entries()[row as int].len() {
                Some(self.entries()[row as int][slot as int])
            } else {
                None
            },
    {
        if row < self.entities.len() && slot < self.entities[row].len() {
            Some(self.entities[row][slot])
        } else {
            None
        }
    }

    /// Whether `entity` is marked for destruction.
    pub fn is_marked(&self, entity: Entity) -> (marked: bool)
        ensures
            marked == self.marked().contains(entity),
    {
        self.marked_for_destroy.contains(&entity.id)
    }

    /// Whether every entity that is marked for destruction still has its
    /// transform, so that the marks can be committed.
    pub fn marks_are_stored(&self) -> (stored: bool)
        requires
            self.wf(),
        ensures
            stored == self.committable(),
    {
        let ghost order = self.marked_for_destroy.iter().remaining();
        let ghost mut count = 0int;
        for key in it: self.marked_for_destroy.iter()
            invariant
                it.seq() == order,
                count == it.index(),
                order.unref().to_set() == self.marked_for_destroy@,
                forall|i: int|
                    0 <= i < count ==> self.indices@.contains_key(*(#[trigger] order[i])),
        {
            if !self.indices.contains_key(key) {
                proof {
                    let entity = Entity { id: *key };
                    assert(order.unref()[count] == *key);
                    assert(order.unref().to_set().contains(*key));
                    assert(self.marked().contains(entity));
                    assert(!self.contains(entity));
                }
                return false;
            }
            proof {
                count = count + 1;
            }
        }
        proof {
            assert forall|e: Entity| self.marked().contains(e) implies self.contains(e) by {
                assert(order.unref().to_set().contains(e.id));
                let i = choose|i: int| 0 <= i < order.unref().len() && order.unref()[i] == e.id;
                assert(*order[i] == e.id);
            }
        }
        true
    }

    /// Whether `entity` is `root` or stands below it.
    pub fn stands_below(&self, root: Entity, entity: Entity) -> (below: bool)
        requires
            self.wf(),
        ensures
            below == in_subtree(self.shape(), root, entity),
    {
        let ghost shape = self.shape();
        let root_row = match self.location(root) {
            Some((row, _)) => row,
            None => {
                return false;
            },
        };
        let mut at = match self.location(entity) {
            Some(at) => at,
            None => {
                return false;
            },
        };
        if at.0 < root_row {
            return false;
        }
        proof {
            assert(self.index().contains_key(entity));
            assert(self.index().contains_key(root));
            assert(shape.contains_key(entity) && shape.contains_key(root));
        }
        let ghost span = (shape[entity].row - shape[root].row) as nat;
        let mut current = entity;
        while at.0 > root_row
            invariant
                self.wf(),
                shape == self.shape(),
                shape.contains_key(entity),
                shape.contains_key(root),
                shape.contains_key(current),
                root_row == shape[root].row,
                at.0 == self.row_of(current),
                at.1 == self.slot_of(current),
                shape[root].row <= shape[current].row <= shape[entity].row,
                span == shape[entity].row - shape[root].row,
                ancestor(shape, entity, (shape[entity].row - shape[current].row) as nat) == Some(
                    current,
                ),
            decreases at.0,
        {
            let ghost steps = (shape[entity].row - shape[current].row) as nat;
            proof {
                assert(self.index().contains_key(current));
                lemma_ancestor_add(shape, entity, steps, 1);
                assert(ancestor(shape, current, 1) == match parent_above(shape, current) {
                    Some(p) => ancestor(shape, p, 0),
                    None => None,
                });
                if ancestor(shape, entity, span) is Some {
                    lemma_ancestor_below(shape, entity, steps + 1, (span - steps - 1) as nat);
                }
            }
            let (_, parent) = self.entities[at.0][at.1];
            let above = match parent {
                Some(parent) => parent,
                None => {
                    return false;
                },
            };
            let next = match self.location(above) {
                Some(next) => next,
                None => {
                    return false;
                },
            };
            proof {
                assert(self.index().contains_key(above));
            }
            assert(next.0 < self.entities.len());
            if next.0 + 1 != at.0 {
                return false;
            }
            proof {
                assert(self.index().contains_key(above));
                assert(parent_above(shape, current) == Some(above));
                assert(ancestor(shape, above, 0) == Some(above));
            }
            current = above;
            at = next;
        }
        current == root
    }

    /// Whether rows are depths: every entity with a parent stands one row
    /// below that parent, which has a transform.
    pub fn rows_are_depths(&self) -> (consistent: bool)
        requires
            self.wf(),
        ensures
            consistent == linked(self.shape()),
    {
        let ghost shape = self.shape();
        let mut row: usize = 0;
        while row < self.entities.len()
            invariant
                self.wf(),
                shape == self.shape(),
                row <= self.entries().len(),
                forall|r: int, s: int|
                    0 <= r < row && 0 <= s < self.entries()[r].len() ==> link_holds(
                        shape,
                        #[trigger] self.entries()[r][s].0,
                    ),
            decreases self.entries().len() - row,
        {
            let mut slot: usize = 0;
            while slot < self.entities[row].len()
                invariant
                    self.wf(),
                    shape == self.shape(),
                    row < self.entries().len(),
                    slot <= self.entries()[row as int].len(),
                    forall|r: int, s: int|
                        0 <= r < row && 0 <= s < self.entries()[r].len() ==> link_holds(
                            shape,
                            #[trigger] self.entries()[r][s].0,
                        ),
                    forall|s: int|
                        0 <= s < slot ==> link_holds(
                            shape,
                            #[trigger] self.entries()[row as int][s].0,
                        ),
                decreases self.entries()[row as int].len() - slot,
            {
                let (entity, parent) = self.entities[row][slot];
                proof {
                    assert(self.index().contains_key(self.entries()[row as int][slot as int].0));
                    assert(shape.contains_key(entity));
                    assert(shape[entity].parent == parent);
                    assert(shape[entity].row == row);
                }
                match parent {
                    Some(parent) => {
                        match self.location(parent) {
                            Some((parent_row, _)) => {
                                proof {
                                    assert(self.index().contains_key(parent));
                                }
                                assert(parent_row < self.entities.len());
                                if parent_row + 1 != row {
                                    return false;
                                }
                            },
                            None => {
                                return false;
                            },
                        }
                    },
                    None => {},
                }
                slot += 1;
            }
            row += 1;
        }
        proof {
            assert forall|e: Entity| #[trigger] shape.contains_key(e) implies link_holds(
                shape,
                e,
            ) by {
                assert(self.index().contains_key(e));
                assert(self.entries()[self.row_of(e) as int][self.slot_of(e) as int].0 == e);
            }
        }
        true
    }
}

} // verus!

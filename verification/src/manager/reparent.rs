//! Hanging an entity, with everything below it, under a new parent.

use vstd::prelude::*;
use crate::entity::Entity;
use crate::hierarchy::Shape;
use crate::hierarchy::children_in;
use crate::hierarchy::children_of;
use crate::hierarchy::in_subtree;
use crate::hierarchy::linked;
use crate::hierarchy::lemma_linked_reparented;
use crate::hierarchy::moved_by;
use crate::hierarchy::parent_above;
use crate::hierarchy::reparented;
use crate::hierarchy::lemma_child_in_subtree;
use crate::hierarchy::lemma_children_in_distinct;
use crate::hierarchy::lemma_children_in_member;
use crate::hierarchy::lemma_subtree_branch;
use crate::hierarchy::lemma_subtree_parent;
use crate::hierarchy::lemma_subtree_transitive;
use crate::hierarchy::lemma_subtrees_apart;
use super::TransformManager;

verus! {

impl<L, D> TransformManager<L, D> {
    /// The children of `entity` that row `row` holds, in the order of their
    /// slots. A row that does not exist holds none.
    pub fn children_at(&self, row: usize, entity: Entity) -> (kids: Vec<Entity>)
        requires
            self.wf(),
        ensures
            kids@ == self.children_in_row(row as int, entity),
            kids@.no_duplicates(),
            forall|e: Entity|
                kids@.contains(e) <==> self.contains(e) && self.row_of(e) == row
                    && self.parent_of(e) == Some(entity),
    {
        let mut kids = Vec::new();
        if row < self.entities.len() {
            let mut slot: usize = 0;
            while slot < self.entities[row].len()
                invariant
                    row < self.entities@.len(),
                    slot <= self.entities@[row as int]@.len(),
                    kids@ == children_in(self.entities@[row as int]@.take(slot as int), entity),
                decreases self.entities@[row as int]@.len() - slot,
            {
                let (child, maybe_parent) = self.entities[row][slot];
                proof {
                    let longer = self.entities@[row as int]@.take(slot + 1);
                    assert(longer.drop_last() =~= self.entities@[row as int]@.take(slot as int));
                    assert(longer.last() == (child, maybe_parent));
                }
                match maybe_parent {
                    Some(parent) => {
                        if parent == entity {
                            kids.push(child);
                        }
                    },
                    None => {},
                }
                slot += 1;
            }
            proof {
                assert(self.entities@[row as int]@.take(slot as int) =~= self.entities@[row as int]@);
            }
        }
        proof {
            self.lemma_children_in_row(row as int, entity);
        }
        kids
    }

    /// The children of `entity` that row `row` holds, in the order of their
    /// slots.
    pub open spec fn children_in_row(&self, row: int, entity: Entity) -> Seq<Entity> {
        children_of(self.entries(), row, entity)
    }

    /// The children found in a row are the stored entities of that row with
    /// that parent, each once.
    pub proof fn lemma_children_in_row(&self, row: int, entity: Entity)
        requires
            self.wf(),
        ensures
            self.children_in_row(row, entity).no_duplicates(),
            forall|e: Entity|
                self.children_in_row(row, entity).contains(e) <==> self.contains(e)
                    && self.row_of(e) == row && self.parent_of(e) == Some(entity),
    {
        if 0 <= row < self.entries().len() {
            let entries = self.entries()[row];
            assert forall|s: int, t: int| 0 <= s < t < entries.len() implies entries[s].0
                != entries[t].0 by {
                assert(self.index()[self.entries()[row][s].0] == (row as nat, s as nat));
                assert(self.index()[self.entries()[row][t].0] == (row as nat, t as nat));
            }
            lemma_children_in_distinct(entries, entity);
            assert forall|e: Entity|
                self.children_in_row(row, entity).contains(e) <==> self.contains(e)
                    && self.row_of(e) == row && self.parent_of(e) == Some(entity) by {
                lemma_children_in_member(entries, entity, e);
                if self.children_in_row(row, entity).contains(e) {
                    let s = choose|s: int|
                        0 <= s < entries.len() && #[trigger] entries[s] == (e, Some(entity));
                    assert(self.index()[self.entries()[row][s].0] == (row as nat, s as nat));
                }
                if self.contains(e) && self.row_of(e) == row && self.parent_of(e) == Some(entity) {
                    assert(self.index().contains_key(e));
                    assert(entries[self.slot_of(e) as int] == (e, Some(entity)));
                }
            }
        } else {
            assert forall|e: Entity|
                !(self.contains(e) && self.row_of(e) == row && self.parent_of(e) == Some(
                    entity,
                )) by {
                if self.contains(e) {
                    assert(self.index().contains_key(e));
                }
            }
        }
    }

    /// Hangs `child`, with everything below it, under `parent`.
    ///
    /// Afterwards `child` stands one row below `parent`, and each of its
    /// descendants as many rows below `child` as before. The transforms are
    /// as they were. `parent` may not stand below `child`.
    pub fn set_child(&mut self, parent: Entity, child: Entity)
        requires
            old(self).wf(),
            old(self).contains(parent),
            old(self).contains(child),
            !in_subtree(old(self).shape(), child, parent),
            old(self).entries().len() + old(self).row_of(parent) + 1 - old(self).row_of(child)
                <= usize::MAX,
        ensures
            final(self).wf(),
            final(self).shape() == reparented(old(self).shape(), parent, child),
            final(self).payloads() == old(self).payloads(),
            linked(old(self).shape()) ==> linked(final(self).shape()),
            forall|e: Entity| final(self).contains(e) <==> old(self).contains(e),
            final(self).entries().len() >= old(self).entries().len(),
            final(self).entries().len() > old(self).entries().len() ==> exists|e: Entity|
                final(self).contains(e) && #[trigger] final(self).row_of(e) + 1
                    == final(self).entries().len(),
            final(self).marked() == old(self).marked(),
            final(self).root() == old(self).root(),
    {
        let ghost origin = self.shape();
        let ghost depth = self.entries().len();
        proof {
            if linked(origin) {
                assert(origin.contains_key(parent) && origin.contains_key(child));
                lemma_linked_reparented(origin, parent, child);
            }
            assert(self.index().contains_key(parent));
            assert(self.index().contains_key(child));
            assert forall|e: Entity| origin.contains_key(e) implies origin[e].row < depth by {
                assert(self.index().contains_key(e));
            }
            assert(self.shape() =~= moved_by(origin, parent, child, Set::empty()));
        }
        let (parent_row, _) = self.location(parent).unwrap();
        let child_row = parent_row + 1;
        self.set_row_recursive(
            child,
            Some(parent),
            child_row,
            Ghost(origin),
            Ghost(child),
            Ghost(parent),
            Ghost(Set::empty()),
            Ghost(depth),
        );
        proof {
            assert(Set::<Entity>::empty().union(Set::new(|e: Entity| in_subtree(origin, child, e)))
                =~= Set::new(|e: Entity| in_subtree(origin, child, e)));
            assert forall|e: Entity| self.contains(e) <==> old(self).contains(e) by {
                assert(self.shape().contains_key(e) <==> origin.contains_key(e));
            }
            if self.entries().len() > old(self).entries().len() {
                let e = choose|e: Entity|
                    in_subtree(origin, child, e) && #[trigger] self.shape()[e].row + 1
                        == self.entries().len();
                assert(self.shape().contains_key(e));
                assert(self.row_of(e) + 1 == self.entries().len());
            }
        }
    }

    /// Moves `entity` to row `new_row` with `parent` recorded for it, and
    /// then its children, found in the row below the one it left, one row
    /// further, and so on down.
    ///
    /// `origin` is the hierarchy before the first move, `top` the entity
    /// that is hung under `target`, and `moved` the entities that this has
    /// reached so far.
    fn set_row_recursive(
        &mut self,
        entity: Entity,
        parent: Option<Entity>,
        new_row: usize,
        Ghost(origin): Ghost<Shape>,
        Ghost(top): Ghost<Entity>,
        Ghost(target): Ghost<Entity>,
        Ghost(moved): Ghost<Set<Entity>>,
        Ghost(depth): Ghost<nat>,
    )
        requires
            old(self).wf(),
            origin.contains_key(target),
            !in_subtree(origin, top, target),
            in_subtree(origin, top, entity),
            forall|e: Entity| moved.contains(e) ==> in_subtree(origin, top, e),
            forall|e: Entity| in_subtree(origin, entity, e) ==> !moved.contains(e),
            old(self).shape() == moved_by(origin, target, top, moved),
            new_row == origin[entity].row + origin[target].row + 1 - origin[top].row,
            parent == if entity == top {
                Some(target)
            } else {
                origin[entity].parent
            },
            forall|e: Entity| origin.contains_key(e) ==> origin[e].row < depth,
            depth + origin[target].row + 1 - origin[top].row <= usize::MAX,
        ensures
            final(self).wf(),
            final(self).shape() == moved_by(
                origin,
                target,
                top,
                moved.union(Set::new(|e: Entity| in_subtree(origin, entity, e))),
            ),
            final(self).payloads() == old(self).payloads(),
            final(self).marked() == old(self).marked(),
            final(self).root() == old(self).root(),
            final(self).entries().len() >= old(self).entries().len(),
            final(self).entries().len() > old(self).entries().len() ==> exists|e: Entity|
                in_subtree(origin, entity, e) && #[trigger] final(self).shape()[e].row + 1
                    == final(self).entries().len(),
        decreases depth - origin[entity].row,
    {
        let ghost start = *self;
        let ghost below = Set::new(|e: Entity| in_subtree(origin, entity, e));
        proof {
            assert(in_subtree(origin, entity, entity));
            assert(start.shape().contains_key(entity));
            assert(start.shape()[entity].row == origin[entity].row);
            assert(self.index().contains_key(entity));
            if entity != top {
                lemma_subtree_parent(origin, top, entity);
            }
        }
        // Remove the old entry.
        let (old_row, _) = self.location(entity).unwrap();
        assert(old_row < self.entities.len());
        let transform = self.remove(entity);

        // Add the entity to its new row, which is created if it is missing.
        self.place(entity, parent, transform, new_row);
        let ghost placed = *self;
        proof {
            assert(placed.shape() =~= moved_by(origin, target, top, moved.insert(entity)));
            assert(placed.payloads() =~= start.payloads());
        }

        // The children are collected before any of them moves.
        let kids = self.children_at(old_row + 1, entity);
        proof {
            assert forall|e: Entity| kids@.contains(e) implies parent_above(origin, e) == Some(
                entity,
            ) by {
                assert(placed.shape().contains_key(e));
                assert(placed.shape()[e].row == old_row + 1);
                assert(placed.shape()[e].parent == Some(entity));
                if e == entity {
                    if entity != top {
                        lemma_subtree_parent(origin, top, entity);
                    }
                } else if moved.contains(e) {
                    if e != top {
                        lemma_subtree_parent(origin, top, e);
                        lemma_child_in_subtree(origin, entity, e);
                    }
                }
            }
            assert forall|e: Entity| parent_above(origin, e) == Some(entity) implies kids@.contains(
                e,
            ) by {
                lemma_child_in_subtree(origin, entity, e);
                assert(!moved.contains(e));
                assert(placed.shape().contains_key(e));
                assert(placed.shape()[e].row == old_row + 1);
                assert(placed.shape()[e].parent == Some(entity));
            }
        }
        proof {
            if placed.entries().len() > start.entries().len() {
                assert(placed.shape()[entity].row + 1 == placed.entries().len());
            }
        }
        let ghost mut done = moved.insert(entity);
        let mut i: usize = 0;
        while i < kids.len()
            invariant
                i <= kids.len(),
                self.wf(),
                origin.contains_key(target),
                !in_subtree(origin, top, target),
                in_subtree(origin, top, entity),
                forall|e: Entity| moved.contains(e) ==> in_subtree(origin, top, e),
                forall|e: Entity| in_subtree(origin, entity, e) ==> !moved.contains(e),
                new_row == origin[entity].row + origin[target].row + 1 - origin[top].row,
                forall|e: Entity| origin.contains_key(e) ==> origin[e].row < depth,
                depth + origin[target].row + 1 - origin[top].row <= usize::MAX,
                kids@.no_duplicates(),
                forall|e: Entity| kids@.contains(e) <==> parent_above(origin, e) == Some(entity),
                self.shape() == moved_by(origin, target, top, done),
                self.payloads() == start.payloads(),
                self.marked() == start.marked(),
                self.root() == start.root(),
                self.entries().len() >= start.entries().len(),
                self.entries().len() > start.entries().len() ==> exists|e: Entity|
                    in_subtree(origin, entity, e) && done.contains(e)
                        && #[trigger] self.shape()[e].row + 1 == self.entries().len(),
                forall|e: Entity|
                    done.contains(e) <==> moved.contains(e) || e == entity || exists|j: int|
                        0 <= j < i && in_subtree(origin, #[trigger] kids@[j], e),
            decreases kids.len() - i,
        {
            let kid = kids[i];
            let ghost round = *self;
            proof {
                assert(kids@.contains(kid));
                lemma_child_in_subtree(origin, entity, kid);
                lemma_subtree_transitive(origin, top, entity, kid);
                assert forall|e: Entity| done.contains(e) implies in_subtree(origin, top, e) by {
                    if !moved.contains(e) && e != entity {
                        let j = choose|j: int|
                            0 <= j < i && in_subtree(origin, #[trigger] kids@[j], e);
                        assert(kids@.contains(kids@[j]));
                        lemma_child_in_subtree(origin, entity, kids@[j]);
                        lemma_subtree_transitive(origin, entity, kids@[j], e);
                        lemma_subtree_transitive(origin, top, entity, e);
                    }
                }
                assert forall|e: Entity| in_subtree(origin, kid, e) implies !done.contains(e) by {
                    lemma_subtree_transitive(origin, entity, kid, e);
                    if done.contains(e) && e != entity {
                        let j = choose|j: int|
                            0 <= j < i && in_subtree(origin, #[trigger] kids@[j], e);
                        assert(kids@.contains(kids@[j]));
                        assert(parent_above(origin, kids@[j]) == Some(entity));
                        assert(parent_above(origin, kid) == Some(entity));
                        lemma_subtrees_apart(origin, kids@[j], kid, e);
                    }
                }
            }
            self.set_row_recursive(
                kid,
                Some(entity),
                new_row + 1,
                Ghost(origin),
                Ghost(top),
                Ghost(target),
                Ghost(done),
                Ghost(depth),
            );
            proof {
                let next = done.union(Set::new(|e: Entity| in_subtree(origin, kid, e)));
                assert forall|e: Entity|
                    next.contains(e) <==> moved.contains(e) || e == entity || exists|j: int|
                        0 <= j < i + 1 && in_subtree(origin, #[trigger] kids@[j], e) by {
                    if next.contains(e) && !moved.contains(e) && e != entity {
                        if in_subtree(origin, kid, e) {
                            assert(in_subtree(origin, kids@[i as int], e));
                        } else {
                            let j = choose|j: int|
                                0 <= j < i && in_subtree(origin, #[trigger] kids@[j], e);
                            assert(0 <= j < i + 1 && in_subtree(origin, kids@[j], e));
                        }
                    }
                    if exists|j: int|
                        0 <= j < i + 1 && in_subtree(origin, #[trigger] kids@[j], e) {
                        let j = choose|j: int|
                            0 <= j < i + 1 && in_subtree(origin, #[trigger] kids@[j], e);
                        if j < i {
                            assert(done.contains(e));
                        }
                    }
                }
                if self.entries().len() > start.entries().len() {
                    if self.entries().len() > round.entries().len() {
                        let e = choose|e: Entity|
                            in_subtree(origin, kid, e) && #[trigger] self.shape()[e].row + 1
                                == self.entries().len();
                        lemma_subtree_transitive(origin, entity, kid, e);
                        assert(next.contains(e));
                    } else {
                        let e = choose|e: Entity|
                            in_subtree(origin, entity, e) && done.contains(e)
                                && #[trigger] round.shape()[e].row + 1 == round.entries().len();
                        assert(next.contains(e));
                        assert(self.shape()[e].row == round.shape()[e].row);
                    }
                }
                done = next;
            }
            i += 1;
        }
        proof {
            assert(done =~= moved.union(below)) by {
                assert forall|e: Entity| done.contains(e) <==> moved.union(below).contains(e) by {
                    if done.contains(e) && !moved.contains(e) && e != entity {
                        let j = choose|j: int|
                            0 <= j < i && in_subtree(origin, #[trigger] kids@[j], e);
                        assert(kids@.contains(kids@[j]));
                        lemma_child_in_subtree(origin, entity, kids@[j]);
                        lemma_subtree_transitive(origin, entity, kids@[j], e);
                    }
                    if below.contains(e) && e != entity {
                        let branch = lemma_subtree_branch(origin, entity, e);
                        assert(kids@.contains(branch));
                        let j = choose|j: int| 0 <= j < kids@.len() && kids@[j] == branch;
                        assert(in_subtree(origin, kids@[j], e));
                    }
                }
            }
        }
    }
}

} // verus!

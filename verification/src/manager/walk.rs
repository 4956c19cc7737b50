//! Walking the hierarchy depth first, parents before their children.

use vstd::prelude::*;
use crate::entity::Entity;
use crate::hierarchy::children_of;
use crate::hierarchy::in_subtree;
use crate::hierarchy::parent_above;
use crate::hierarchy::walk_each;
use crate::hierarchy::walk_from;
use crate::hierarchy::lemma_child_in_subtree;
use crate::hierarchy::lemma_concat_member;
use crate::hierarchy::lemma_subtree_branch;
use crate::hierarchy::lemma_subtree_transitive;
use crate::hierarchy::lemma_subtrees_apart;
use crate::hierarchy::lemma_walk_each_member;
use crate::transform::Transform;
use super::TransformManager;

verus! {

impl<L, D> TransformManager<L, D> {
    /// The entities met by a walk that starts at `entity`: `entity` itself,
    /// then, for each of its children in the order of their slots, what a
    /// walk from that child meets. Empty if `entity` has no transform.
    pub open spec fn preorder(&self, entity: Entity) -> Seq<Entity> {
        if self.contains(entity) {
            walk_from(self.entries(), self.row_of(entity) as int, entity)
        } else {
            Seq::empty()
        }
    }

    /// Walks the hierarchy depth first from `entity` and returns the
    /// entities in the order in which the walk meets them. The walk meets
    /// nothing if `entity` has no transform.
    pub fn walk_children(&self, entity: Entity) -> (order: Vec<Entity>)
        requires
            self.wf(),
        ensures
            order@ == self.preorder(entity),
            order@.no_duplicates(),
            forall|e: Entity| order@.contains(e) <==> in_subtree(self.shape(), entity, e),
    {
        proof {
            self.lemma_walk_meets_once(entity);
            assert forall|e: Entity|
                self.preorder(entity).contains(e) <==> in_subtree(self.shape(), entity, e) by {
                self.lemma_walk_meets_subtree(entity, e);
            }
        }
        let mut order = Vec::new();
        match self.location(entity) {
            Some((row, _)) => {
                proof {
                    assert(self.index().contains_key(entity));
                }
                self.walk_into(row, entity, &mut order);
            },
            None => {},
        }
        order
    }

    /// Appends to `order` the walk from `entity`, which stands in row `row`.
    fn walk_into(&self, row: usize, entity: Entity, order: &mut Vec<Entity>)
        requires
            self.wf(),
            row < self.entries().len(),
        ensures
            final(order)@ == old(order)@ + walk_from(self.entries(), row as int, entity),
        decreases self.entries().len() - row,
    {
        let ghost before = order@;
        let ghost rows = self.entries();
        order.push(entity);
        assert(row < self.entities.len());
        let child_row = row + 1;
        if self.entities.len() > child_row {
            let kids = self.children_at(child_row, entity);
            let mut i: usize = 0;
            while i < kids.len()
                invariant
                    self.wf(),
                    rows == self.entries(),
                    i <= kids.len(),
                    child_row == row + 1,
                    child_row < self.entries().len(),
                    order@ == before + seq![entity] + walk_each(
                        rows,
                        child_row as int,
                        kids@.take(i as int),
                    ),
                decreases kids.len() - i,
            {
                proof {
                    assert(kids@.take(i + 1).drop_last() =~= kids@.take(i as int));
                }
                self.walk_into(child_row, kids[i], order);
                i += 1;
            }
            proof {
                assert(kids@.take(i as int) =~= kids@);
                assert(order@ =~= before + walk_from(rows, row as int, entity));
            }
        } else {
            proof {
                assert(order@ =~= before + walk_from(rows, row as int, entity));
            }
        }
    }

    /// Walks the hierarchy depth first from `entity` and hands each entity
    /// that the walk meets, with its transform, to `visit`. What `visit`
    /// returns takes the place of the transform. Nothing happens if
    /// `entity` has no transform.
    pub fn walk_hierarchy<F: Fn(Entity, &Transform<L, D>) -> Transform<L, D>>(
        &mut self,
        entity: Entity,
        visit: &F,
    )
        requires
            old(self).wf(),
            forall|e: Entity, t: &Transform<L, D>| call_requires(visit, (e, t)),
        ensures
            final(self).wf(),
            Self::same_layout(*old(self), *final(self)),
            final(self).shape() == old(self).shape(),
            forall|e: Entity| #[trigger]
                old(self).contains(e) ==> Self::visited_if(
                    *old(self),
                    *final(self),
                    *visit,
                    e,
                    old(self).preorder(entity).contains(e),
                ),
        decreases
                if old(self).contains(entity) {
                    old(self).entries().len() - old(self).row_of(entity)
                } else {
                    0
                },
    {
        let ghost before = *self;
        let ghost shape = self.shape();
        if let Some((row, _)) = self.location(entity) {
            proof {
                assert(self.index().contains_key(entity));
            }
            let changed = visit(entity, self.get(entity));
            let slot = self.get_mut(entity);
            *slot = changed;
            proof {
                assert forall|e: Entity| #[trigger] before.contains(e) implies Self::visited_if(
                    before,
                    *self,
                    *visit,
                    e,
                    e == entity,
                ) by {
                    assert(self.payloads()[e] == self.transform_of(e));
                    assert(before.payloads()[e] == before.transform_of(e));
                }
            }
            assert(row < self.entities.len());
            let child_row = row + 1;
            let kids = self.children_at(child_row, entity);
            proof {
                assert(self.children_in_row(child_row as int, entity) == before.children_in_row(
                    child_row as int,
                    entity,
                ));
            }
            let mut i: usize = 0;
            while i < kids.len()
                invariant
                    before == *old(self),
                    before.wf(),
                    self.wf(),
                    Self::same_layout(before, *self),
                    self.shape() == shape,
                    shape == before.shape(),
                    forall|e: Entity, t: &Transform<L, D>| call_requires(visit, (e, t)),
                    before.contains(entity),
                    before.row_of(entity) == row,
                    child_row == row + 1,
                    i <= kids.len(),
                    kids@ == before.children(entity),
                    forall|e: Entity| #[trigger]
                        before.contains(e) ==> Self::visited_if(
                            before,
                            *self,
                            *visit,
                            e,
                            Self::met(before, entity, kids@, i as int, e),
                        ),
                decreases kids.len() - i,
            {
                let kid = kids[i];
                let ghost round = *self;
                proof {
                    before.lemma_children_in_row(child_row as int, entity);
                    assert(kids@ == before.children_in_row(child_row as int, entity));
                    assert(kids@[i as int] == kid && kids@.contains(kid));
                    assert(before.contains(kid));
                    assert(before.row_of(kid) == child_row);
                    assert(round.index() == before.index());
                    assert(round.contains(kid) && round.row_of(kid) == child_row);
                    assert(before.index().contains_key(entity));
                    assert(round.entries().len() == before.entries().len());
                }
                self.walk_hierarchy(kid, visit);
                proof {
                    assert forall|e: Entity| #[trigger] before.contains(e) implies Self::visited_if(
                        before,
                        *self,
                        *visit,
                        e,
                        Self::met(before, entity, kids@, i + 1, e),
                    ) by {
                        assert(round.contains(e));
                        Self::lemma_walk_step(before, round, *self, *visit, entity, i as int, e);
                    }
                }
                i += 1;
            }
            proof {
                assert forall|e: Entity| #[trigger] before.contains(e) implies Self::visited_if(
                    before,
                    *self,
                    *visit,
                    e,
                    before.preorder(entity).contains(e),
                ) by {
                    before.lemma_walk_met(entity, e);
                }
            }
        }
    }

    /// The children of `entity`: the entities in the row below it that have
    /// it recorded as their parent, in the order of their slots.
    pub open spec fn children(&self, entity: Entity) -> Seq<Entity> {
        self.children_in_row(self.row_of(entity) as int + 1, entity)
    }

    /// The transform of `e` went through `visit` if `met` says so, and is
    /// as it was if not.
    pub open spec fn visited_if<F: Fn(Entity, &Transform<L, D>) -> Transform<L, D>>(
        before: Self,
        after: Self,
        visit: F,
        e: Entity,
        met: bool,
    ) -> bool {
        if met {
            call_ensures(visit, (e, &before.transform_of(e)), after.transform_of(e))
        } else {
            after.transform_of(e) == before.transform_of(e)
        }
    }

    /// Whether a walk from `entity` that has gone through the first `done`
    /// of the children `kids` has met `e`.
    spec fn met(before: Self, entity: Entity, kids: Seq<Entity>, done: int, e: Entity) -> bool {
        e == entity || exists|j: int|
            0 <= j < done && j < kids.len() && before.preorder(#[trigger] kids[j]).contains(e)
    }

    /// One more child walked: what holds of `e` after it.
    proof fn lemma_walk_step<F: Fn(Entity, &Transform<L, D>) -> Transform<L, D>>(
        before: Self,
        round: Self,
        now: Self,
        visit: F,
        entity: Entity,
        done: int,
        e: Entity,
    )
        requires
            before.wf(),
            before.contains(entity),
            before.contains(e),
            Self::same_layout(before, round),
            0 <= done < before.children(entity).len(),
            Self::visited_if(
                before,
                round,
                visit,
                e,
                Self::met(
                    before,
                    entity,
                    before.children(entity),
                    done,
                    e,
                ),
            ),
            Self::visited_if(
                round,
                now,
                visit,
                e,
                round.preorder(
                    before.children(entity)[done],
                ).contains(e),
            ),
        ensures
            Self::visited_if(
                before,
                now,
                visit,
                e,
                Self::met(
                    before,
                    entity,
                    before.children(entity),
                    done + 1,
                    e,
                ),
            ),
    {
        let shape = before.shape();
        let row = before.row_of(entity) as int + 1;
        let kids = before.children(entity);
        let kid = kids[done];
        before.lemma_children_in_row(row, entity);
        assert(kids == before.children_in_row(row, entity));
        assert(kids[done] == kid && kids.contains(kid));
        assert(before.contains(kid));
        assert(before.index().contains_key(kid));
        assert(before.index().contains_key(entity));
        assert(round.preorder(kid) == before.preorder(kid));
        if before.preorder(kid).contains(e) {
            before.lemma_walk_within_subtree(kid, e);
            assert(e != entity);
            if Self::met(before, entity, kids, done, e) {
                let j = choose|j: int|
                    0 <= j < done && j < kids.len() && before.preorder(
                        #[trigger] kids[j],
                    ).contains(e);
                assert(kids.contains(kids[j]));
                assert(before.index().contains_key(kids[j]));
                before.lemma_walk_within_subtree(kids[j], e);
                lemma_subtrees_apart(shape, kids[j], kid, e);
            }
            assert(before.preorder(kids[done]).contains(e));
            assert(Self::met(before, entity, kids, done + 1, e));
        } else {
            if Self::met(before, entity, kids, done + 1, e) && e != entity {
                let j = choose|j: int|
                    0 <= j < done + 1 && j < kids.len() && before.preorder(
                        #[trigger] kids[j],
                    ).contains(e);
                assert(j < done);
                assert(Self::met(before, entity, kids, done, e));
            }
            if Self::met(before, entity, kids, done, e) && e != entity {
                let j = choose|j: int|
                    0 <= j < done && j < kids.len() && before.preorder(
                        #[trigger] kids[j],
                    ).contains(e);
                assert(Self::met(before, entity, kids, done + 1, e));
            }
        }
    }

    /// A walk that has gone through all children has met what the walk
    /// from the entity meets.
    proof fn lemma_walk_met(&self, entity: Entity, e: Entity)
        requires
            self.wf(),
            self.contains(entity),
        ensures
            self.preorder(entity).contains(e) <==> Self::met(
                *self,
                entity,
                self.children(entity),
                self.children(entity).len() as int,
                e,
            ),
    {
        let rows = self.entries();
        let row = self.row_of(entity) as int;
        let kids = self.children_in_row(row + 1, entity);
        assert(self.index().contains_key(entity));
        self.lemma_children_in_row(row + 1, entity);
        assert(seq![entity].contains(e) <==> e == entity) by {
            assert(seq![entity][0] == entity);
            if seq![entity].contains(e) {
                let k = choose|k: int| 0 <= k < seq![entity].len() && seq![entity][k] == e;
            }
        }
        assert forall|j: int| 0 <= j < kids.len() implies self.preorder(#[trigger] kids[j])
            == walk_from(rows, row + 1, kids[j]) by {
            assert(kids == self.children_in_row(row + 1, entity));
            assert(kids.contains(kids[j]));
            assert(self.contains(kids[j]));
        }
        if row + 1 < rows.len() {
            let below = walk_each(rows, row + 1, kids);
            lemma_concat_member(seq![entity], below, e);
            lemma_walk_each_member(rows, row + 1, kids, e);
            if below.contains(e) {
                let j = choose|j: int|
                    0 <= j < kids.len() && walk_from(rows, row + 1, #[trigger] kids[j]).contains(e);
                assert(self.preorder(kids[j]).contains(e));
            }
            if Self::met(*self, entity, kids, kids.len() as int, e) && e != entity {
                let j = choose|j: int|
                    0 <= j < kids.len() && j < kids.len() && self.preorder(
                        #[trigger] kids[j],
                    ).contains(e);
                assert(walk_from(rows, row + 1, kids[j]).contains(e));
            }
        } else {
            assert(kids.len() == 0);
        }
    }

    /// What the walk from an entity meets stands below that entity.
    pub proof fn lemma_walk_within_subtree(&self, entity: Entity, e: Entity)
        requires
            self.wf(),
            self.preorder(entity).contains(e),
        ensures
            in_subtree(self.shape(), entity, e),
        decreases self.entries().len() - self.row_of(entity),
    {
        let rows = self.entries();
        let shape = self.shape();
        let row = self.row_of(entity) as int;
        assert(self.index().contains_key(entity));
        assert(shape.contains_key(entity));
        if e != entity {
            assert(row + 1 < rows.len()) by {
                if !(row + 1 < rows.len()) {
                    assert(seq![entity][0] == entity);
                    let i = choose|i: int| 0 <= i < seq![entity].len() && seq![entity][i] == e;
                }
            }
            let kids = children_of(rows, row + 1, entity);
            lemma_concat_member(seq![entity], walk_each(rows, row + 1, kids), e);
            assert(!seq![entity].contains(e)) by {
                if seq![entity].contains(e) {
                    let i = choose|i: int| 0 <= i < seq![entity].len() && seq![entity][i] == e;
                }
            }
            lemma_walk_each_member(rows, row + 1, kids, e);
            let j = choose|j: int|
                0 <= j < kids.len() && walk_from(rows, row + 1, #[trigger] kids[j]).contains(e);
            let kid = kids[j];
            self.lemma_children_in_row(row + 1, entity);
            assert(kids.contains(kid));
            assert(self.index().contains_key(kid));
            assert(parent_above(shape, kid) == Some(entity));
            self.lemma_walk_within_subtree(kid, e);
            lemma_child_in_subtree(shape, entity, kid);
            lemma_subtree_transitive(shape, entity, kid, e);
        }
    }

    /// What stands below an entity is met by the walk from that entity.
    pub proof fn lemma_subtree_within_walk(&self, entity: Entity, e: Entity)
        requires
            self.wf(),
            in_subtree(self.shape(), entity, e),
        ensures
            self.preorder(entity).contains(e),
        decreases self.entries().len() - self.row_of(entity),
    {
        let rows = self.entries();
        let shape = self.shape();
        let row = self.row_of(entity) as int;
        assert(self.index().contains_key(entity));
        assert(self.index().contains_key(e));
        let walk = walk_from(rows, row, entity);
        assert(walk[0] == entity);
        if e != entity {
            let kid = lemma_subtree_branch(shape, entity, e);
            assert(self.index().contains_key(kid));
            let kids = children_of(rows, row + 1, entity);
            self.lemma_children_in_row(row + 1, entity);
            assert(kids.contains(kid));
            let j = choose|j: int| 0 <= j < kids.len() && kids[j] == kid;
            self.lemma_subtree_within_walk(kid, e);
            lemma_walk_each_member(rows, row + 1, kids, e);
            lemma_concat_member(seq![entity], walk_each(rows, row + 1, kids), e);
        }
    }

    /// The walk from an entity meets no entity twice.
    pub proof fn lemma_walk_meets_once(&self, entity: Entity)
        requires
            self.wf(),
        ensures
            self.preorder(entity).no_duplicates(),
        decreases
                if self.contains(entity) {
                    self.entries().len() - self.row_of(entity)
                } else {
                    0
                },
    {
        if self.contains(entity) {
            assert(self.index().contains_key(entity));
            let rows = self.entries();
            let row = self.row_of(entity) as int;
            if row + 1 < rows.len() {
                let kids = self.children(entity);
                self.lemma_children_in_row(row + 1, entity);
                self.lemma_walks_meet_once(entity, kids.len() as int);
                let below = walk_each(rows, row + 1, kids);
                assert(kids.take(kids.len() as int) =~= kids);
                assert forall|i: int, j: int|
                    0 <= i < seq![entity].len() && 0 <= j < below.len() implies seq![entity][i]
                    != below[j] by {
                    if below[j] == entity {
                        assert(below.contains(entity));
                        lemma_walk_each_member(rows, row + 1, kids, entity);
                        let k = choose|k: int|
                            0 <= k < kids.len() && walk_from(
                                rows,
                                row + 1,
                                #[trigger] kids[k],
                            ).contains(entity);
                        assert(kids == self.children_in_row(row + 1, entity));
                        assert(kids.contains(kids[k]));
                        assert(self.contains(kids[k]));
                        assert(walk_from(rows, row + 1, kids[k]) == self.preorder(kids[k]));
                        self.lemma_walk_within_subtree(kids[k], entity);
                    }
                }
                vstd::seq_lib::lemma_no_dup_in_concat(seq![entity], below);
            }
        }
    }

    /// The walks from the first `done` children of an entity meet no entity
    /// twice.
    proof fn lemma_walks_meet_once(&self, entity: Entity, done: int)
        requires
            self.wf(),
            self.contains(entity),
            0 <= done <= self.children(entity).len(),
            self.row_of(entity) + 1 < self.entries().len(),
        ensures
            walk_each(
                self.entries(),
                self.row_of(entity) as int + 1,
                self.children(entity).take(done),
            ).no_duplicates(),
        decreases self.entries().len() - self.row_of(entity), done,
    {
        let rows = self.entries();
        let shape = self.shape();
        let row = self.row_of(entity) as int + 1;
        let kids = self.children(entity);
        self.lemma_children_in_row(row, entity);
        if done > 0 {
            let kid = kids[done - 1];
            assert(kids == self.children_in_row(row, entity));
            assert(kids.contains(kid));
            assert(self.contains(kid));
            assert(self.index().contains_key(entity));
            assert(walk_from(rows, row, kid) == self.preorder(kid));
            self.lemma_walks_meet_once(entity, done - 1);
            self.lemma_walk_meets_once(kid);
            let front = walk_each(rows, row, kids.take(done - 1));
            let back = walk_from(rows, row, kid);
            assert(kids.take(done).drop_last() =~= kids.take(done - 1));
            assert(kids.take(done).last() == kid);
            assert forall|i: int, j: int| 0 <= i < front.len() && 0 <= j < back.len() implies front[i]
                != back[j] by {
                if front[i] == back[j] {
                    let e = front[i];
                    assert(front.contains(e));
                    assert(back.contains(e));
                    lemma_walk_each_member(rows, row, kids.take(done - 1), e);
                    let k = choose|k: int|
                        0 <= k < kids.take(done - 1).len() && walk_from(
                            rows,
                            row,
                            #[trigger] kids.take(done - 1)[k],
                        ).contains(e);
                    let other = kids[k];
                    assert(kids.take(done - 1)[k] == other);
                    assert(kids.contains(other));
                    assert(self.contains(other));
                    assert(walk_from(rows, row, other) == self.preorder(other));
                    self.lemma_walk_within_subtree(other, e);
                    self.lemma_walk_within_subtree(kid, e);
                    lemma_subtrees_apart(shape, other, kid, e);
                }
            }
            vstd::seq_lib::lemma_no_dup_in_concat(front, back);
        }
    }

    /// A walk meets exactly the entities that stand below the entity it
    /// starts at, that entity among them.
    pub proof fn lemma_walk_meets_subtree(&self, entity: Entity, e: Entity)
        requires
            self.wf(),
        ensures
            self.preorder(entity).contains(e) <==> in_subtree(self.shape(), entity, e),
    {
        if self.preorder(entity).contains(e) {
            self.lemma_walk_within_subtree(entity, e);
        }
        if in_subtree(self.shape(), entity, e) {
            self.lemma_subtree_within_walk(entity, e);
        }
    }
}

} // verus!

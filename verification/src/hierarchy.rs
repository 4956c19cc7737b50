//! The hierarchy as a mathematical object: for each entity its row and its
//! parent, and what follows from them: ancestors, subtrees, and the
//! condition that rows are depths.

use vstd::prelude::*;
use crate::entity::Entity;

verus! {

/// Where an entity stands in the hierarchy: the row that holds it and the
/// parent recorded for it.
pub struct Link {
    pub row: nat,
    pub parent: Option<Entity>,
}

/// The row and the parent of every stored entity.
pub type Shape = Map<Entity, Link>;

/// The parent of `e` as the rows see it: the parent recorded for `e`,
/// provided it is stored exactly one row above `e`.
pub open spec fn parent_above(shape: Shape, e: Entity) -> Option<Entity> {
    if shape.contains_key(e) {
        match shape[e].parent {
            Some(p) => if shape.contains_key(p) && shape[p].row + 1 == shape[e].row {
                Some(p)
            } else {
                None
            },
            None => None,
        }
    } else {
        None
    }
}

/// The entity reached from `e` by `k` steps of [`parent_above`], if there
/// is one.
pub open spec fn ancestor(shape: Shape, e: Entity, k: nat) -> Option<Entity>
    decreases k,
{
    if k == 0 {
        if shape.contains_key(e) {
            Some(e)
        } else {
            None
        }
    } else {
        match parent_above(shape, e) {
            Some(p) => ancestor(shape, p, (k - 1) as nat),
            None => None,
        }
    }
}

/// Whether `e` is `root` or one of its descendants, where a child is an
/// entity that stands one row below the parent recorded for it.
pub open spec fn in_subtree(shape: Shape, root: Entity, e: Entity) -> bool {
    &&& shape.contains_key(root)
    &&& shape.contains_key(e)
    &&& shape[e].row >= shape[root].row
    &&& ancestor(shape, e, (shape[e].row - shape[root].row) as nat) == Some(root)
}

/// Rows are depths: an entity without a parent stands in row 0, and every
/// other entity stands one row below its parent, which is stored.
pub open spec fn linked(shape: Shape) -> bool {
    forall|e: Entity| #[trigger] shape.contains_key(e) ==> link_holds(shape, e)
}

/// `e` stands in row 0 without a parent, or one row below its parent, which
/// is stored.
pub open spec fn link_holds(shape: Shape, e: Entity) -> bool {
    match shape[e].parent {
        Some(p) => shape.contains_key(p) && shape[p].row + 1 == shape[e].row,
        None => shape[e].row == 0,
    }
}

/// No stored entity has `e` recorded as its parent.
pub open spec fn childless(shape: Shape, e: Entity) -> bool {
    forall|c: Entity| #[trigger] shape.contains_key(c) ==> shape[c].parent != Some(e)
}

/// The hierarchy after the subtree of `child` was hung below `parent`:
/// `child` stands one row below `parent` and has it as its parent, and every
/// descendant of `child` has moved by as many rows as `child` did.
pub open spec fn reparented(shape: Shape, parent: Entity, child: Entity) -> Shape {
    moved_by(
        shape,
        parent,
        child,
        Set::new(|e: Entity| in_subtree(shape, child, e)),
    )
}

/// The hierarchy while the subtree of `child` is on its way below `parent`:
/// the entities in `moved` stand in their new rows, the others where they
/// were.
pub open spec fn moved_by(shape: Shape, parent: Entity, child: Entity, moved: Set<Entity>) -> Shape {
    Map::new(
        |e: Entity| shape.contains_key(e),
        |e: Entity|
            Link {
                row: if moved.contains(e) {
                    (shape[e].row + shape[parent].row + 1 - shape[child].row) as nat
                } else {
                    shape[e].row
                },
                parent: if e == child && moved.contains(e) {
                    Some(parent)
                } else {
                    shape[e].parent
                },
            },
    )
}

/// The entities of one row that have `parent` recorded as their parent, in
/// the order of their slots.
pub open spec fn children_in(row: Seq<(Entity, Option<Entity>)>, parent: Entity) -> Seq<Entity>
    decreases row.len(),
{
    if row.len() == 0 {
        Seq::empty()
    } else if row.last().1 == Some(parent) {
        children_in(row.drop_last(), parent).push(row.last().0)
    } else {
        children_in(row.drop_last(), parent)
    }
}

/// The `(entity, parent)` pairs of a store, row by row.
pub type Rows = Seq<Seq<(Entity, Option<Entity>)>>;

/// The entities of row `row` that have `parent` recorded as their parent,
/// in the order of their slots; none where there is no such row.
pub open spec fn children_of(rows: Rows, row: int, parent: Entity) -> Seq<Entity> {
    if 0 <= row < rows.len() {
        children_in(rows[row], parent)
    } else {
        Seq::empty()
    }
}

/// What a walk meets that starts at an entity of row `row`: the entity, and
/// then, for each of its children in the row below, in the order of their
/// slots, what a walk from that child meets.
pub open spec fn walk_from(rows: Rows, row: int, entity: Entity) -> Seq<Entity>
    decreases rows.len() - row, 0nat,
{
    if 0 <= row && row + 1 < rows.len() {
        seq![entity] + walk_each(rows, row + 1, children_of(rows, row + 1, entity))
    } else {
        seq![entity]
    }
}

/// What the walks from `kids`, entities of row `row`, meet, one walk after
/// the other.
pub open spec fn walk_each(rows: Rows, row: int, kids: Seq<Entity>) -> Seq<Entity>
    decreases rows.len() - row, 1 + kids.len(),
{
    if kids.len() == 0 || row < 0 || row >= rows.len() {
        Seq::empty()
    } else {
        walk_each(rows, row, kids.drop_last()) + walk_from(rows, row, kids.last())
    }
}

/// An entity is met by one of several walks exactly if it is met by the
/// walk from one of the entities they start at.
pub proof fn lemma_walk_each_member(rows: Rows, row: int, kids: Seq<Entity>, e: Entity)
    requires
        0 <= row < rows.len(),
    ensures
        walk_each(rows, row, kids).contains(e) <==> exists|j: int|
            0 <= j < kids.len() && walk_from(rows, row, #[trigger] kids[j]).contains(e),
    decreases kids.len(),
{
    if kids.len() > 0 {
        let rest = kids.drop_last();
        let front = walk_each(rows, row, rest);
        let back = walk_from(rows, row, kids.last());
        lemma_walk_each_member(rows, row, rest, e);
        lemma_concat_member(front, back, e);
        if front.contains(e) {
            let j = choose|j: int|
                0 <= j < rest.len() && walk_from(rows, row, #[trigger] rest[j]).contains(e);
            assert(walk_from(rows, row, kids[j]).contains(e));
        }
        if back.contains(e) {
            assert(walk_from(rows, row, kids[kids.len() - 1]).contains(e));
        }
        if exists|j: int|
            0 <= j < kids.len() && walk_from(rows, row, #[trigger] kids[j]).contains(e) {
            let j = choose|j: int|
                0 <= j < kids.len() && walk_from(rows, row, #[trigger] kids[j]).contains(e);
            if j < rest.len() {
                assert(walk_from(rows, row, rest[j]).contains(e));
            }
        }
    }
}

/// What two sequences hold one after the other is what either holds.
pub proof fn lemma_concat_member(front: Seq<Entity>, back: Seq<Entity>, e: Entity)
    ensures
        (front + back).contains(e) <==> front.contains(e) || back.contains(e),
{
    let both = front + back;
    if both.contains(e) {
        let i = choose|i: int| 0 <= i < both.len() && both[i] == e;
        if i < front.len() {
            assert(front[i] == e);
        } else {
            assert(back[i - front.len()] == e);
        }
    }
    if front.contains(e) {
        let i = choose|i: int| 0 <= i < front.len() && front[i] == e;
        assert(both[i] == e);
    }
    if back.contains(e) {
        let i = choose|i: int| 0 <= i < back.len() && back[i] == e;
        assert(both[front.len() + i] == e);
    }
}

/// An entity is among the children found in a row exactly if one of the
/// row's slots holds it with that parent.
pub proof fn lemma_children_in_member(
    row: Seq<(Entity, Option<Entity>)>,
    parent: Entity,
    e: Entity,
)
    ensures
        children_in(row, parent).contains(e) <==> exists|s: int|
            0 <= s < row.len() && #[trigger] row[s] == (e, Some(parent)),
    decreases row.len(),
{
    if row.len() > 0 {
        let rest = row.drop_last();
        lemma_children_in_member(rest, parent, e);
        let kids = children_in(row, parent);
        let before = children_in(rest, parent);
        if children_in(row, parent).contains(e) {
            if before.contains(e) {
                let s = choose|s: int| 0 <= s < rest.len() && #[trigger] rest[s] == (e, Some(parent));
                assert(row[s] == (e, Some(parent)));
            } else {
                assert(row.last().1 == Some(parent));
                let i = choose|i: int| 0 <= i < kids.len() && kids[i] == e;
                if i < before.len() {
                    assert(before[i] == e);
                }
                assert(row[row.len() - 1] == (e, Some(parent)));
            }
        }
        if exists|s: int| 0 <= s < row.len() && #[trigger] row[s] == (e, Some(parent)) {
            let s = choose|s: int| 0 <= s < row.len() && #[trigger] row[s] == (e, Some(parent));
            if s < rest.len() {
                assert(rest[s] == (e, Some(parent)));
                assert(before.contains(e));
                let i = choose|i: int| 0 <= i < before.len() && before[i] == e;
                assert(kids[i] == e);
            } else {
                assert(kids.last() == e);
            }
        }
    }
}

/// In a row that holds no entity twice, no child is found twice.
pub proof fn lemma_children_in_distinct(row: Seq<(Entity, Option<Entity>)>, parent: Entity)
    requires
        forall|s: int, t: int| 0 <= s < t < row.len() ==> row[s].0 != row[t].0,
    ensures
        children_in(row, parent).no_duplicates(),
    decreases row.len(),
{
    if row.len() > 0 {
        let rest = row.drop_last();
        lemma_children_in_distinct(rest, parent);
        let before = children_in(rest, parent);
        if row.last().1 == Some(parent) {
            if before.contains(row.last().0) {
                lemma_children_in_member(rest, parent, row.last().0);
                let s = choose|s: int|
                    0 <= s < rest.len() && #[trigger] rest[s] == (row.last().0, Some(parent));
                assert(row[s].0 == row[row.len() - 1].0);
            }
        }
    }
}

/// An ancestor `k` steps up stands `k` rows higher.
pub proof fn lemma_ancestor_row(shape: Shape, e: Entity, k: nat)
    requires
        ancestor(shape, e, k) is Some,
    ensures
        shape.contains_key(e),
        shape.contains_key(ancestor(shape, e, k).unwrap()),
        shape[ancestor(shape, e, k).unwrap()].row + k == shape[e].row,
    decreases k,
{
    if k > 0 {
        lemma_ancestor_row(shape, parent_above(shape, e).unwrap(), (k - 1) as nat);
    }
}

/// Going up `j` steps and then `k` more is going up `j + k` steps.
pub proof fn lemma_ancestor_add(shape: Shape, e: Entity, j: nat, k: nat)
    requires
        ancestor(shape, e, j) is Some,
    ensures
        ancestor(shape, e, j + k) == ancestor(shape, ancestor(shape, e, j).unwrap(), k),
    decreases j,
{
    if j > 0 {
        lemma_ancestor_add(shape, parent_above(shape, e).unwrap(), (j - 1) as nat, k);
    }
}

/// If `e` has an ancestor `j + k` steps up, it has one `j` steps up.
pub proof fn lemma_ancestor_below(shape: Shape, e: Entity, j: nat, k: nat)
    requires
        ancestor(shape, e, j + k) is Some,
    ensures
        ancestor(shape, e, j) is Some,
    decreases j,
{
    if j > 0 {
        lemma_ancestor_below(shape, parent_above(shape, e).unwrap(), (j - 1) as nat, k);
    } else {
        if k > 0 {
        }
    }
}

/// A descendant of a descendant is a descendant.
pub proof fn lemma_subtree_transitive(shape: Shape, a: Entity, b: Entity, c: Entity)
    requires
        in_subtree(shape, a, b),
        in_subtree(shape, b, c),
    ensures
        in_subtree(shape, a, c),
{
    let j = (shape[c].row - shape[b].row) as nat;
    let k = (shape[b].row - shape[a].row) as nat;
    lemma_ancestor_add(shape, c, j, k);
}

/// A proper descendant of `root` lies below exactly one child of `root`:
/// the ancestor of `e` in the row under `root`.
pub proof fn lemma_subtree_branch(shape: Shape, root: Entity, e: Entity) -> (branch: Entity)
    requires
        in_subtree(shape, root, e),
        e != root,
    ensures
        parent_above(shape, branch) == Some(root),
        shape[branch].row == shape[root].row + 1,
        in_subtree(shape, branch, e),
        in_subtree(shape, root, branch),
{
    let k = (shape[e].row - shape[root].row) as nat;
    if k == 0 {
        assert(ancestor(shape, e, 0) == Some(e));
    }
    let j = (k - 1) as nat;
    lemma_ancestor_below(shape, e, j, 1);
    let branch = ancestor(shape, e, j).unwrap();
    lemma_ancestor_add(shape, e, j, 1);
    lemma_ancestor_row(shape, e, j);
    assert(ancestor(shape, branch, 1) == Some(root));
    assert(parent_above(shape, branch) is Some);
    assert(ancestor(shape, parent_above(shape, branch).unwrap(), 0) == Some(root));
    branch
}

/// A proper descendant of `root` has its recorded parent one row above it,
/// and that parent is in the subtree of `root` too.
pub proof fn lemma_subtree_parent(shape: Shape, root: Entity, e: Entity)
    requires
        in_subtree(shape, root, e),
        e != root,
    ensures
        parent_above(shape, e) is Some,
        parent_above(shape, e) == shape[e].parent,
        in_subtree(shape, root, parent_above(shape, e).unwrap()),
{
    let k = (shape[e].row - shape[root].row) as nat;
    if k == 0 {
        assert(ancestor(shape, e, 0) == Some(e));
    }
    let p = parent_above(shape, e).unwrap();
    lemma_ancestor_row(shape, p, (k - 1) as nat);
}

/// An entity that stands one row below its recorded parent is in the
/// subtree of that parent.
pub proof fn lemma_child_in_subtree(shape: Shape, root: Entity, child: Entity)
    requires
        parent_above(shape, child) == Some(root),
    ensures
        in_subtree(shape, root, child),
{
    assert(ancestor(shape, root, 0) == Some(root));
    assert(ancestor(shape, child, 1) == ancestor(shape, root, 0));
}

/// Two subtrees whose roots stand in one row share no entity unless the
/// roots are equal.
pub proof fn lemma_subtrees_apart(shape: Shape, a: Entity, b: Entity, e: Entity)
    requires
        in_subtree(shape, a, e),
        in_subtree(shape, b, e),
        shape[a].row == shape[b].row,
    ensures
        a == b,
{
}

/// Where rows are depths, the row of an entity is the number of parent
/// links between it and an entity without a parent: following the links
/// from `e` leads, after as many steps as the row of `e` says and not
/// before, to an entity that has no parent.
pub proof fn lemma_row_is_depth(shape: Shape, e: Entity, k: nat)
    requires
        linked(shape),
        shape.contains_key(e),
        k <= shape[e].row,
    ensures
        ancestor(shape, e, k) is Some,
        shape.contains_key(ancestor(shape, e, k).unwrap()),
        shape[ancestor(shape, e, k).unwrap()].row == shape[e].row - k,
        shape[ancestor(shape, e, k).unwrap()].parent is None <==> k == shape[e].row,
    decreases k,
{
    if k > 0 {
        let p = shape[e].parent.unwrap();
        assert(shape.contains_key(p));
        lemma_row_is_depth(shape, p, (k - 1) as nat);
    } else {
        assert(shape.contains_key(e));
    }
}

/// A new entity in row 0, without a parent, leaves rows as depths.
pub proof fn lemma_linked_with_root(shape: Shape, e: Entity)
    requires
        linked(shape),
        !shape.contains_key(e),
    ensures
        linked(shape.insert(e, Link { row: 0, parent: None })),
{
    let after = shape.insert(e, Link { row: 0, parent: None });
    assert forall|x: Entity| #[trigger] after.contains_key(x) implies link_holds(after, x) by {
        if x != e {
            assert(shape.contains_key(x));
        }
    }
}

/// Taking out an entity that is no one's parent leaves rows as depths.
pub proof fn lemma_linked_without_leaf(shape: Shape, e: Entity)
    requires
        linked(shape),
        childless(shape, e),
    ensures
        linked(shape.remove(e)),
{
    let after = shape.remove(e);
    assert forall|x: Entity| #[trigger] after.contains_key(x) implies link_holds(after, x) by {
        assert(shape.contains_key(x));
    }
}

/// Hanging a subtree under a parent that is not part of it leaves rows as
/// depths.
pub proof fn lemma_linked_reparented(shape: Shape, parent: Entity, child: Entity)
    requires
        linked(shape),
        shape.contains_key(parent),
        shape.contains_key(child),
        !in_subtree(shape, child, parent),
    ensures
        linked(reparented(shape, parent, child)),
{
    let after = reparented(shape, parent, child);
    assert(in_subtree(shape, child, child));
    assert forall|x: Entity| #[trigger] after.contains_key(x) implies link_holds(after, x) by {
        assert(shape.contains_key(x));
        if x == child {
        } else if in_subtree(shape, child, x) {
            lemma_subtree_parent(shape, child, x);
        } else {
            match shape[x].parent {
                Some(q) => {
                    if in_subtree(shape, child, q) {
                        lemma_child_in_subtree(shape, q, x);
                        lemma_subtree_transitive(shape, child, q, x);
                    }
                },
                None => {},
            }
        }
    }
}

/// In the hierarchy after a subtree was hung under `parent`, the subtree
/// of `parent` holds `child` and all that stood below `child`.
pub proof fn lemma_reparented_below(shape: Shape, parent: Entity, child: Entity, e: Entity)
    requires
        shape.contains_key(parent),
        in_subtree(shape, child, e),
        !in_subtree(shape, child, parent),
    ensures
        in_subtree(reparented(shape, parent, child), child, e),
        in_subtree(reparented(shape, parent, child), parent, e),
    decreases shape[e].row,
{
    let after = reparented(shape, parent, child);
    assert(in_subtree(shape, child, child));
    assert(after.contains_key(child) && after.contains_key(parent) && after.contains_key(e));
    assert(parent_above(after, child) == Some(parent));
    lemma_child_in_subtree(after, parent, child);
    if e == child {
        assert(in_subtree(after, child, child));
    } else {
        lemma_subtree_parent(shape, child, e);
        let q = parent_above(shape, e).unwrap();
        lemma_reparented_below(shape, parent, child, q);
        assert(parent_above(after, e) == Some(q));
        lemma_child_in_subtree(after, q, e);
        lemma_subtree_transitive(after, child, q, e);
        lemma_subtree_transitive(after, parent, child, e);
    }
}

} // verus!

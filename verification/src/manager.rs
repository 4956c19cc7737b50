//! The hierarchical store: rows of transforms, one row for each depth, with
//! the entity that owns each transform, the entity's parent, and an index
//! from entities to slots.

use vstd::prelude::*;
use std::collections::HashMap;
use std::collections::HashSet;
use crate::entity::Entity;
use crate::hierarchy::Link;
use crate::transform::Transform;

mod inspect;
mod reparent;
mod store;
mod update;
mod walk;

verus! {

broadcast use vstd::std_specs::hash::group_hash_axioms;

/// Stores the transform of every entity that has one, row by row.
///
/// Row `r` holds the entities at depth `r`: row 0 the entities without a
/// parent, row `r + 1` the children of entities in row `r`. Within a row the
/// transforms and the `(entity, parent)` pairs are parallel sequences. The
/// index maps each stored entity to its `(row, slot)`.
#[derive(Debug)]
pub struct TransformManager<L, D> {
    transforms: Vec<Vec<Transform<L, D>>>,
    entities: Vec<Vec<(Entity, Option<Entity>)>>,
    indices: HashMap<u64, (usize, usize)>,
    marked_for_destroy: HashSet<u64>,
    root: D,
}

impl<L, D> TransformManager<L, D> {
    /// The transforms, row by row.
    pub closed spec fn transforms(&self) -> Seq<Seq<Transform<L, D>>> {
        Seq::new(self.transforms@.len(), |r: int| self.transforms@[r]@)
    }

    /// The `(entity, parent)` pairs, row by row.
    pub closed spec fn entries(&self) -> Seq<Seq<(Entity, Option<Entity>)>> {
        Seq::new(self.entities@.len(), |r: int| self.entities@[r]@)
    }

    /// The index: the `(row, slot)` recorded for each stored entity.
    pub closed spec fn index(&self) -> Map<Entity, (nat, nat)> {
        Map::new(
            |e: Entity| self.indices@.contains_key(e.id),
            |e: Entity| (self.indices@[e.id].0 as nat, self.indices@[e.id].1 as nat),
        )
    }

    /// The entities marked for destruction and not yet removed.
    pub closed spec fn marked(&self) -> Set<Entity> {
        Set::new(|e: Entity| self.marked_for_destroy@.contains(e.id))
    }

    /// The derived state that stands in as the parent of every entity of
    /// row 0.
    pub closed spec fn root(&self) -> D {
        self.root
    }

    /// The store is consistent: there is a row 0, the two sequences of each
    /// row have one length, the index and the slots determine each other, and
    /// exactly the entities of row 0 have no parent.
    pub open spec fn wf(&self) -> bool {
        &&& self.entries().len() >= 1
        &&& self.transforms().len() == self.entries().len()
        &&& forall|r: int|
            0 <= r < self.entries().len() ==> (#[trigger] self.transforms()[r]).len()
                == self.entries()[r].len()
        &&& forall|r: int, s: int|
            0 <= r < self.entries().len() && 0 <= s < self.entries()[r].len() ==> {
                &&& self.index().contains_key((#[trigger] self.entries()[r][s]).0)
                &&& self.index()[self.entries()[r][s].0] == (r as nat, s as nat)
                &&& (self.entries()[r][s].1 is None <==> r == 0)
            }
        &&& forall|e: Entity| #[trigger]
            self.index().contains_key(e) ==> {
                &&& self.index()[e].0 < self.entries().len()
                &&& self.index()[e].1 < self.entries()[self.index()[e].0 as int].len()
                &&& self.entries()[self.index()[e].0 as int][self.index()[e].1 as int].0 == e
            }
    }

    /// In a consistent store the slot that the index names for an entity
    /// holds that entity, and every row has as many transforms as it has
    /// entities.
    pub proof fn lemma_index_names_slot(&self, entity: Entity)
        requires
            self.wf(),
            self.contains(entity),
        ensures
            self.row_of(entity) < self.entries().len(),
            self.slot_of(entity) < self.entries()[self.row_of(entity) as int].len(),
            self.entries()[self.row_of(entity) as int][self.slot_of(entity) as int].0 == entity,
            self.transforms()[self.row_of(entity) as int].len()
                == self.entries()[self.row_of(entity) as int].len(),
            forall|other: Entity|
                self.contains(other) && self.index()[other] == self.index()[entity] ==> other
                    == entity,
    {
        assert forall|other: Entity|
            self.contains(other) && self.index()[other] == self.index()[entity] implies other
            == entity by {
            assert(self.index().contains_key(other));
        }
    }

    /// Whether `entity` has a transform in the store.
    pub open spec fn contains(&self, entity: Entity) -> bool {
        self.index().contains_key(entity)
    }

    /// The row that holds `entity`.
    pub open spec fn row_of(&self, entity: Entity) -> nat {
        self.index()[entity].0
    }

    /// The slot of `entity` within its row.
    pub open spec fn slot_of(&self, entity: Entity) -> nat {
        self.index()[entity].1
    }

    /// The parent recorded for `entity`.
    pub open spec fn parent_of(&self, entity: Entity) -> Option<Entity> {
        self.entries()[self.row_of(entity) as int][self.slot_of(entity) as int].1
    }

    /// The transform of `entity`.
    pub open spec fn transform_of(&self, entity: Entity) -> Transform<L, D> {
        self.transforms()[self.row_of(entity) as int][self.slot_of(entity) as int]
    }

    /// The hierarchy without the transforms: the row and the parent of every
    /// stored entity.
    pub open spec fn shape(&self) -> Map<Entity, Link> {
        Map::new(
            |e: Entity| self.contains(e),
            |e: Entity| Link { row: self.row_of(e), parent: self.parent_of(e) },
        )
    }

    /// The transform of every stored entity.
    pub open spec fn payloads(&self) -> Map<Entity, Transform<L, D>> {
        Map::new(|e: Entity| self.contains(e), |e: Entity| self.transform_of(e))
    }

    /// An empty store with the given stand-in for the parent of the roots.
    pub fn new(root: D) -> (manager: Self)
        ensures
            manager.wf(),
            manager.entries() == seq![Seq::<(Entity, Option<Entity>)>::empty()],
            manager.transforms() == seq![Seq::<Transform<L, D>>::empty()],
            manager.index() == Map::<Entity, (nat, nat)>::empty(),
            manager.marked() == Set::<Entity>::empty(),
            manager.root() == root,
    {
        let mut transform_manager = TransformManager {
            transforms: Vec::new(),
            entities: Vec::new(),
            indices: HashMap::new(),
            marked_for_destroy: HashSet::new(),
            root,
        };
        transform_manager.transforms.push(Vec::new());
        transform_manager.entities.push(Vec::new());
        assert(transform_manager.entries() =~= seq![Seq::<(Entity, Option<Entity>)>::empty()]);
        assert(transform_manager.transforms() =~= seq![Seq::<Transform<L, D>>::empty()]);
        assert(transform_manager.index() =~= Map::<Entity, (nat, nat)>::empty());
        assert(transform_manager.marked() =~= Set::<Entity>::empty());
        transform_manager
    }

    /// Whether `entity` has a transform in the store.
    pub fn has(&self, entity: Entity) -> (found: bool)
        ensures
            found == self.contains(entity),
    {
        self.indices.contains_key(&entity.id)
    }

    /// The `(row, slot)` of `entity`, if it has a transform.
    pub fn location(&self, entity: Entity) -> (place: Option<(usize, usize)>)
        ensures
            place is Some <==> self.contains(entity),
            place matches Some(at) ==> at.0 == self.row_of(entity) && at.1 == self.slot_of(
                entity,
            ),
    {
        match self.indices.get(&entity.id) {
            Some(at) => Some(*at),
            None => None,
        }
    }

    /// The number of rows.
    pub fn row_count(&self) -> (count: usize)
        ensures
            count == self.entries().len(),
    {
        self.entities.len()
    }
}

} // verus!

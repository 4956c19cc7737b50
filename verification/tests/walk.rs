use scene_graph::entity::Entity;
use scene_graph::manager::TransformManager;
use scene_graph::transform::Transform;

fn ids(order: Vec<Entity>) -> Vec<u64> {
    order.iter().map(|entity| entity.id()).collect()
}

fn tree() -> TransformManager<u64, u64> {
    // 1 has the children 2 and 3; 2 has the children 4 and 5; 3 has the child 6; 7 is alone.
    let mut manager = TransformManager::new(0);
    for id in 1..=7 {
        manager.assign(Entity::new(id), Transform::new(id, 0));
    }
    manager.set_child(Entity::new(1), Entity::new(2));
    manager.set_child(Entity::new(1), Entity::new(3));
    manager.set_child(Entity::new(2), Entity::new(4));
    manager.set_child(Entity::new(3), Entity::new(6));
    manager.set_child(Entity::new(2), Entity::new(5));
    manager
}

#[test]
fn walk_meets_parents_before_children() {
    let manager = tree();
    assert_eq!(ids(manager.walk_children(Entity::new(1))), vec![1, 2, 4, 5, 3, 6]);
}

#[test]
fn walk_from_an_inner_entity_stays_below_it() {
    let manager = tree();
    assert_eq!(ids(manager.walk_children(Entity::new(2))), vec![2, 4, 5]);
    assert_eq!(ids(manager.walk_children(Entity::new(3))), vec![3, 6]);
}

#[test]
fn walk_from_a_leaf_meets_the_leaf() {
    let manager = tree();
    assert_eq!(ids(manager.walk_children(Entity::new(6))), vec![6]);
    assert_eq!(ids(manager.walk_children(Entity::new(7))), vec![7]);
}

#[test]
fn walk_from_an_unknown_entity_meets_nothing() {
    let manager = tree();
    assert_eq!(ids(manager.walk_children(Entity::new(99))), Vec::<u64>::new());
}

#[test]
fn walk_follows_slot_order_after_a_removal() {
    let mut manager = tree();
    // Row 2 holds 4, 6, 5. Without 4 the last entry, 5, takes its slot.
    manager.destroy_immediate(Entity::new(4));
    assert_eq!(ids(manager.walk_children(Entity::new(1))), vec![1, 2, 5, 3, 6]);
}

#[test]
fn walk_does_not_meet_children_left_behind_in_a_wrong_row() {
    let mut manager = tree();
    manager.destroy_immediate(Entity::new(2));
    manager.assign(Entity::new(2), Transform::new(2, 0));
    // 4 and 5 still name 2 as their parent but stand two rows below it.
    assert_eq!(ids(manager.walk_children(Entity::new(2))), vec![2]);
    assert_eq!(ids(manager.walk_children(Entity::new(1))), vec![1, 3, 6]);
}

fn double(_: Entity, transform: &Transform<u64, u64>) -> Transform<u64, u64> {
    let mut changed = Transform::new(*transform.local(), 0);
    changed.set_local(*transform.local() * 2);
    changed
}

#[test]
fn walk_hierarchy_visits_the_subtree_once() {
    let mut manager = tree();
    manager.walk_hierarchy(Entity::new(2), &double);
    for id in [2, 4, 5] {
        assert_eq!(*manager.get(Entity::new(id)).local(), id * 2);
        assert!(manager.get(Entity::new(id)).is_out_of_date());
    }
    for id in [1, 3, 6, 7] {
        assert_eq!(*manager.get(Entity::new(id)).local(), id);
        assert!(!manager.get(Entity::new(id)).is_out_of_date());
    }
}

#[test]
fn walk_hierarchy_hands_over_the_entity() {
    let mut manager = tree();
    manager.walk_hierarchy(Entity::new(1), &|entity: Entity, _: &Transform<u64, u64>| {
        Transform::new(entity.id() + 100, 0)
    });
    for id in 1..=6 {
        assert_eq!(*manager.get(Entity::new(id)).local(), id + 100);
    }
    assert_eq!(*manager.get(Entity::new(7)).local(), 7);
}

#[test]
fn walk_hierarchy_keeps_the_layout() {
    let mut manager = tree();
    let before: Vec<_> = (1..=7).map(|id| manager.location(Entity::new(id))).collect();
    manager.walk_hierarchy(Entity::new(1), &double);
    let after: Vec<_> = (1..=7).map(|id| manager.location(Entity::new(id))).collect();
    assert_eq!(before, after);
}

#[test]
fn walk_hierarchy_from_an_unknown_entity_does_nothing() {
    let mut manager = tree();
    manager.walk_hierarchy(Entity::new(99), &double);
    for id in 1..=7 {
        assert_eq!(*manager.get(Entity::new(id)).local(), id);
    }
}

#[test]
fn walk_meets_exactly_what_stands_below() {
    let manager = tree();
    for root in 1..=7 {
        let order = manager.walk_children(Entity::new(root));
        for id in 1..=7 {
            let met = order.contains(&Entity::new(id));
            assert_eq!(met, manager.stands_below(Entity::new(root), Entity::new(id)));
        }
    }
}

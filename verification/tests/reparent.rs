use scene_graph::entity::Entity;
use scene_graph::manager::TransformManager;
use scene_graph::transform::Transform;

fn roots(ids: &[u64]) -> TransformManager<u64, u64> {
    let mut manager = TransformManager::new(0);
    for id in ids {
        manager.assign(Entity::new(*id), Transform::new(*id, 0));
    }
    manager
}

fn row(manager: &TransformManager<u64, u64>, id: u64) -> usize {
    manager.location(Entity::new(id)).unwrap().0
}

#[test]
fn set_child_moves_child_one_row_below_parent() {
    let mut manager = roots(&[1, 2]);
    manager.set_child(Entity::new(1), Entity::new(2));
    assert_eq!(manager.location(Entity::new(1)), Some((0, 0)));
    assert_eq!(manager.location(Entity::new(2)), Some((1, 0)));
    assert_eq!(manager.parent(Entity::new(2)), Some(Entity::new(1)));
    assert_eq!(manager.parent(Entity::new(1)), None);
    assert_eq!(manager.row_count(), 2);
    assert_eq!(*manager.get(Entity::new(2)).local(), 2);
}

#[test]
fn set_child_fills_the_gap_in_the_row_that_is_left() {
    let mut manager = roots(&[1, 2, 3]);
    manager.set_child(Entity::new(3), Entity::new(1));
    assert_eq!(manager.location(Entity::new(3)), Some((0, 0)));
    assert_eq!(manager.location(Entity::new(2)), Some((0, 1)));
    assert_eq!(manager.location(Entity::new(1)), Some((1, 0)));
}

#[test]
fn reparent_moves_the_whole_subtree() {
    // A = 1 with children B = 2 and C = 3; P = 4 is new.
    let mut manager = roots(&[1, 2, 3]);
    manager.set_child(Entity::new(1), Entity::new(2));
    manager.set_child(Entity::new(1), Entity::new(3));
    manager.assign(Entity::new(4), Transform::new(4, 0));
    manager.set_child(Entity::new(4), Entity::new(1));
    assert_eq!(row(&manager, 4), 0);
    assert_eq!(row(&manager, 1), row(&manager, 4) + 1);
    assert_eq!(row(&manager, 2), row(&manager, 1) + 1);
    assert_eq!(row(&manager, 3), row(&manager, 1) + 1);
    assert_eq!(manager.parent(Entity::new(1)), Some(Entity::new(4)));
    assert_eq!(manager.parent(Entity::new(2)), Some(Entity::new(1)));
    assert_eq!(manager.parent(Entity::new(3)), Some(Entity::new(1)));
    assert_eq!(manager.row_count(), 3);
    assert_eq!(manager.row_len(0), 1);
    assert_eq!(manager.row_len(1), 1);
    assert_eq!(manager.row_len(2), 2);
    assert!(manager.rows_are_depths());
    for id in 1..=4 {
        assert_eq!(*manager.get(Entity::new(id)).local(), id);
    }
}

#[test]
fn reparent_moves_grandchildren_too() {
    let mut manager = roots(&[1, 2, 3, 4, 5]);
    manager.set_child(Entity::new(1), Entity::new(2));
    manager.set_child(Entity::new(2), Entity::new(3));
    manager.set_child(Entity::new(3), Entity::new(4));
    manager.set_child(Entity::new(5), Entity::new(1));
    assert_eq!(row(&manager, 5), 0);
    assert_eq!(row(&manager, 1), 1);
    assert_eq!(row(&manager, 2), 2);
    assert_eq!(row(&manager, 3), 3);
    assert_eq!(row(&manager, 4), 4);
    assert_eq!(manager.row_count(), 5);
    assert!(manager.rows_are_depths());
}

#[test]
fn reparent_upwards_moves_the_subtree_up() {
    let mut manager = roots(&[1, 2, 3, 4, 5]);
    manager.set_child(Entity::new(1), Entity::new(2));
    manager.set_child(Entity::new(2), Entity::new(3));
    manager.set_child(Entity::new(3), Entity::new(4));
    // 3 with its child 4 moves from row 2 to row 1.
    manager.set_child(Entity::new(5), Entity::new(3));
    assert_eq!(row(&manager, 3), 1);
    assert_eq!(row(&manager, 4), 2);
    assert_eq!(row(&manager, 2), 1);
    assert_eq!(manager.parent(Entity::new(3)), Some(Entity::new(5)));
    assert_eq!(manager.parent(Entity::new(4)), Some(Entity::new(3)));
    assert_eq!(manager.row_count(), 4);
    assert_eq!(manager.row_len(3), 0);
    assert!(manager.rows_are_depths());
}

#[test]
fn reparent_of_a_leaf_in_the_last_row() {
    let mut manager = roots(&[1, 2, 3]);
    manager.set_child(Entity::new(1), Entity::new(3));
    // 3 stands in the last row and stays in it under its new parent.
    manager.set_child(Entity::new(2), Entity::new(3));
    assert_eq!(manager.location(Entity::new(3)), Some((1, 0)));
    assert_eq!(manager.parent(Entity::new(3)), Some(Entity::new(2)));
    assert_eq!(manager.row_count(), 2);
    assert!(manager.rows_are_depths());
}

#[test]
fn reparent_under_the_same_parent_changes_no_row() {
    let mut manager = roots(&[1, 2, 3]);
    manager.set_child(Entity::new(1), Entity::new(2));
    manager.set_child(Entity::new(2), Entity::new(3));
    manager.set_child(Entity::new(1), Entity::new(2));
    assert_eq!(row(&manager, 1), 0);
    assert_eq!(row(&manager, 2), 1);
    assert_eq!(row(&manager, 3), 2);
    assert_eq!(manager.parent(Entity::new(3)), Some(Entity::new(2)));
    assert!(manager.rows_are_depths());
}

#[test]
fn siblings_of_the_moved_entity_stay() {
    let mut manager = roots(&[1, 2, 3, 4]);
    manager.set_child(Entity::new(1), Entity::new(2));
    manager.set_child(Entity::new(1), Entity::new(3));
    manager.set_child(Entity::new(2), Entity::new(4));
    manager.set_child(Entity::new(3), Entity::new(2));
    assert_eq!(row(&manager, 1), 0);
    assert_eq!(row(&manager, 3), 1);
    assert_eq!(row(&manager, 2), 2);
    assert_eq!(row(&manager, 4), 3);
    assert_eq!(manager.parent(Entity::new(3)), Some(Entity::new(1)));
    assert!(manager.rows_are_depths());
}

#[test]
fn row_equals_the_number_of_links_to_a_root() {
    let mut manager = roots(&[1, 2, 3, 4, 5, 6]);
    manager.set_child(Entity::new(1), Entity::new(2));
    manager.set_child(Entity::new(2), Entity::new(3));
    manager.set_child(Entity::new(1), Entity::new(4));
    manager.set_child(Entity::new(6), Entity::new(1));
    manager.set_child(Entity::new(3), Entity::new(5));
    for id in 1..=6 {
        let mut links = 0;
        let mut current = Entity::new(id);
        while let Some(parent) = manager.parent(current) {
            links += 1;
            current = parent;
        }
        assert_eq!(row(&manager, id), links);
    }
    assert!(manager.rows_are_depths());
}

#[test]
fn stands_below_follows_the_parents() {
    let mut manager = roots(&[1, 2, 3, 4]);
    manager.set_child(Entity::new(1), Entity::new(2));
    manager.set_child(Entity::new(2), Entity::new(3));
    assert!(manager.stands_below(Entity::new(1), Entity::new(1)));
    assert!(manager.stands_below(Entity::new(1), Entity::new(2)));
    assert!(manager.stands_below(Entity::new(1), Entity::new(3)));
    assert!(manager.stands_below(Entity::new(2), Entity::new(3)));
    assert!(!manager.stands_below(Entity::new(3), Entity::new(1)));
    assert!(!manager.stands_below(Entity::new(2), Entity::new(1)));
    assert!(!manager.stands_below(Entity::new(4), Entity::new(3)));
    assert!(!manager.stands_below(Entity::new(1), Entity::new(4)));
    assert!(!manager.stands_below(Entity::new(9), Entity::new(1)));
    assert!(!manager.stands_below(Entity::new(1), Entity::new(9)));
}

#[test]
fn children_at_lists_children_in_slot_order() {
    let mut manager = roots(&[1, 2, 3, 4, 5]);
    manager.set_child(Entity::new(1), Entity::new(4));
    manager.set_child(Entity::new(2), Entity::new(3));
    manager.set_child(Entity::new(1), Entity::new(5));
    assert_eq!(manager.children_at(1, Entity::new(1)), vec![Entity::new(4), Entity::new(5)]);
    assert_eq!(manager.children_at(1, Entity::new(2)), vec![Entity::new(3)]);
    assert_eq!(manager.children_at(1, Entity::new(3)), vec![]);
    assert_eq!(manager.children_at(0, Entity::new(1)), vec![]);
    assert_eq!(manager.children_at(7, Entity::new(1)), vec![]);
}

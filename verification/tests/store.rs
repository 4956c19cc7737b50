use scene_graph::component::ComponentManager;
use scene_graph::entity::Entity;
use scene_graph::manager::TransformManager;
use scene_graph::transform::Transform;

fn flat(ids: &[u64]) -> TransformManager<u64, u64> {
    let mut manager = TransformManager::new(0);
    for id in ids {
        manager.assign(Entity::new(*id), Transform::new(*id * 10, 0));
    }
    manager
}

#[test]
fn entity_keeps_its_identifier() {
    assert_eq!(Entity::new(41).id(), 41);
    assert_eq!(Entity::new(41), Entity::new(41));
    assert_ne!(Entity::new(41), Entity::new(42));
}

#[test]
fn new_store_has_one_empty_row() {
    let manager: TransformManager<u8, u8> = TransformManager::new(3);
    assert_eq!(manager.row_count(), 1);
    assert_eq!(manager.row_len(0), 0);
    assert_eq!(manager.row_len(1), 0);
    assert!(!manager.has(Entity::new(0)));
    assert_eq!(manager.location(Entity::new(0)), None);
    assert_eq!(manager.entry(0, 0), None);
    assert!(manager.rows_are_depths());
}

#[test]
fn assign_places_at_row_zero() {
    let mut manager: TransformManager<u8, u8> = TransformManager::new(0);
    let entity = Entity::new(7);
    manager.assign(entity, Transform::new(1, 1));
    assert_eq!(manager.location(entity), Some((0, 0)));
    assert_eq!(manager.entry(0, 0), Some((entity, None)));
    assert_eq!(manager.parent(entity), None);
    assert_eq!(*manager.get(entity).local(), 1);
    assert!(manager.has(entity));
}

#[test]
fn assign_appends_after_the_slots_in_use() {
    let manager = flat(&[5, 6, 7]);
    assert_eq!(manager.location(Entity::new(5)), Some((0, 0)));
    assert_eq!(manager.location(Entity::new(6)), Some((0, 1)));
    assert_eq!(manager.location(Entity::new(7)), Some((0, 2)));
    assert_eq!(manager.row_len(0), 3);
    assert_eq!(manager.row_count(), 1);
}

#[test]
fn index_and_slots_agree() {
    let mut manager = flat(&[1, 2, 3, 4, 5]);
    manager.set_child(Entity::new(1), Entity::new(2));
    manager.set_child(Entity::new(2), Entity::new(3));
    manager.set_child(Entity::new(1), Entity::new(4));
    manager.destroy_immediate(Entity::new(5));
    let mut seen = 0;
    for row in 0..manager.row_count() {
        for slot in 0..manager.row_len(row) {
            let (entity, parent) = manager.entry(row, slot).unwrap();
            assert_eq!(manager.location(entity), Some((row, slot)));
            assert_eq!(parent.is_none(), row == 0);
            seen += 1;
        }
    }
    assert_eq!(seen, 4);
    for id in 1..=4 {
        let entity = Entity::new(id);
        let (row, slot) = manager.location(entity).unwrap();
        assert_eq!(manager.entry(row, slot).unwrap().0, entity);
        assert_eq!(*manager.get(entity).local(), id * 10);
    }
}

#[test]
fn get_mut_changes_only_that_transform() {
    let mut manager = flat(&[1, 2]);
    manager.get_mut(Entity::new(2)).set_local(99);
    assert_eq!(*manager.get(Entity::new(2)).local(), 99);
    assert!(manager.get(Entity::new(2)).is_out_of_date());
    assert_eq!(*manager.get(Entity::new(1)).local(), 10);
    assert!(!manager.get(Entity::new(1)).is_out_of_date());
    assert_eq!(manager.location(Entity::new(2)), Some((0, 1)));
}

#[test]
fn swap_remove_moves_the_last_entry_into_the_gap() {
    let mut manager = flat(&[1, 2, 3]);
    let removed = manager.remove(Entity::new(2));
    assert_eq!(*removed.local(), 20);
    assert!(!manager.has(Entity::new(2)));
    assert_eq!(manager.location(Entity::new(2)), None);
    assert_eq!(manager.location(Entity::new(1)), Some((0, 0)));
    assert_eq!(manager.location(Entity::new(3)), Some((0, 1)));
    assert_eq!(*manager.get(Entity::new(1)).local(), 10);
    assert_eq!(*manager.get(Entity::new(3)).local(), 30);
    assert_eq!(manager.row_len(0), 2);
    assert_eq!(manager.entry(0, 1), Some((Entity::new(3), None)));
}

#[test]
fn removing_the_last_slot_moves_nothing() {
    let mut manager = flat(&[1, 2, 3]);
    let removed = manager.remove(Entity::new(3));
    assert_eq!(*removed.local(), 30);
    assert_eq!(manager.location(Entity::new(1)), Some((0, 0)));
    assert_eq!(manager.location(Entity::new(2)), Some((0, 1)));
    assert_eq!(manager.row_len(0), 2);
}

#[test]
fn removing_the_only_entry_empties_the_row() {
    let mut manager = flat(&[1]);
    manager.remove(Entity::new(1));
    assert_eq!(manager.row_len(0), 0);
    assert_eq!(manager.row_count(), 1);
    assert!(!manager.has(Entity::new(1)));
}

#[test]
fn removed_entity_can_be_assigned_again() {
    let mut manager = flat(&[1, 2]);
    manager.remove(Entity::new(1));
    manager.assign(Entity::new(1), Transform::new(11, 0));
    assert_eq!(manager.location(Entity::new(2)), Some((0, 0)));
    assert_eq!(manager.location(Entity::new(1)), Some((0, 1)));
    assert_eq!(*manager.get(Entity::new(1)).local(), 11);
}

#[test]
fn destroy_only_marks() {
    let mut manager = flat(&[1, 2]);
    manager.destroy(Entity::new(1));
    assert!(manager.is_marked(Entity::new(1)));
    assert!(!manager.is_marked(Entity::new(2)));
    assert!(manager.has(Entity::new(1)));
    assert_eq!(manager.location(Entity::new(1)), Some((0, 0)));
}

#[test]
fn destroy_marked_removes_what_was_marked() {
    let mut manager = flat(&[1, 2, 3, 4]);
    manager.destroy(Entity::new(1));
    manager.destroy_all(Entity::new(3));
    manager.destroy(Entity::new(1));
    manager.destroy_marked();
    assert!(!manager.has(Entity::new(1)));
    assert!(!manager.has(Entity::new(3)));
    assert!(manager.has(Entity::new(2)));
    assert!(manager.has(Entity::new(4)));
    assert!(!manager.is_marked(Entity::new(1)));
    assert!(!manager.is_marked(Entity::new(3)));
    assert_eq!(manager.row_len(0), 2);
    assert_eq!(*manager.get(Entity::new(2)).local(), 20);
    assert_eq!(*manager.get(Entity::new(4)).local(), 40);
    manager.destroy_marked();
    assert_eq!(manager.row_len(0), 2);
}

#[test]
fn destroy_immediate_does_not_reach_children() {
    let mut manager = flat(&[1, 2]);
    manager.set_child(Entity::new(1), Entity::new(2));
    manager.destroy_immediate(Entity::new(1));
    assert!(!manager.has(Entity::new(1)));
    assert_eq!(manager.location(Entity::new(2)), Some((1, 0)));
    assert_eq!(manager.parent(Entity::new(2)), Some(Entity::new(1)));
    assert!(!manager.rows_are_depths());
}

#[test]
fn destroy_immediate_of_a_leaf_keeps_rows_as_depths() {
    let mut manager = flat(&[1, 2, 3]);
    manager.set_child(Entity::new(1), Entity::new(2));
    manager.set_child(Entity::new(1), Entity::new(3));
    manager.destroy_immediate(Entity::new(2));
    assert!(manager.rows_are_depths());
    assert_eq!(manager.location(Entity::new(3)), Some((1, 0)));
}

#[test]
fn a_scheduler_can_commit_through_the_capability() {
    fn end_of_frame(store: &mut dyn ComponentManager, doomed: Entity) {
        store.destroy_all(doomed);
        store.destroy_marked();
    }
    let mut manager = flat(&[1, 2]);
    end_of_frame(&mut manager, Entity::new(2));
    assert!(manager.has(Entity::new(1)));
    assert!(!manager.has(Entity::new(2)));
}

#[test]
fn assign_hands_back_the_new_transform() {
    let mut manager: TransformManager<u8, u8> = TransformManager::new(0);
    manager.assign(Entity::new(1), Transform::new(1, 1));
    let assigned = manager.assign(Entity::new(2), Transform::new(2, 2));
    assert_eq!(*assigned.local(), 2);
    assigned.set_local(5);
    assert_eq!(*manager.get(Entity::new(2)).local(), 5);
    assert!(manager.get(Entity::new(2)).is_out_of_date());
    assert_eq!(*manager.get(Entity::new(1)).local(), 1);
}

#[test]
fn marks_are_stored_sees_a_mark_without_a_transform() {
    let mut manager = flat(&[1, 2]);
    assert!(manager.marks_are_stored());
    manager.destroy(Entity::new(2));
    assert!(manager.marks_are_stored());
    manager.destroy(Entity::new(9));
    assert!(!manager.marks_are_stored());
}

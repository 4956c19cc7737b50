use scene_graph::entity::Entity;
use scene_graph::manager::TransformManager;
use scene_graph::transform::Transform;

#[derive(Clone, Copy, Debug, PartialEq)]
struct Place {
    position: (f32, f32, f32),
    scale: f32,
}

fn at(x: f32, y: f32, z: f32) -> Place {
    Place { position: (x, y, z), scale: 1.0 }
}

fn origin() -> Place {
    at(0.0, 0.0, 0.0)
}

fn compose(local: &Place, above: &Place) -> Place {
    Place {
        position: (
            above.position.0 + above.scale * local.position.0,
            above.position.1 + above.scale * local.position.1,
            above.position.2 + above.scale * local.position.2,
        ),
        scale: local.scale * above.scale,
    }
}

fn chain() -> TransformManager<Place, Place> {
    let mut manager = TransformManager::new(origin());
    for id in 1..=3 {
        manager.assign(Entity::new(id), Transform::new(origin(), origin()));
    }
    manager.set_child(Entity::new(1), Entity::new(2));
    manager.set_child(Entity::new(2), Entity::new(3));
    manager.get_mut(Entity::new(1)).set_local(at(1.0, 0.0, 0.0));
    manager.get_mut(Entity::new(2)).set_local(at(0.0, 1.0, 0.0));
    manager.get_mut(Entity::new(3)).set_local(at(0.0, 0.0, 1.0));
    manager
}

#[test]
fn chain_of_three_adds_up() {
    let mut manager = chain();
    manager.transform_update(&compose);
    assert_eq!(manager.get(Entity::new(3)).derived().position, (1.0, 1.0, 1.0));
    assert_eq!(manager.get(Entity::new(2)).derived().position, (1.0, 1.0, 0.0));
    assert_eq!(manager.get(Entity::new(1)).derived().position, (1.0, 0.0, 0.0));
}

#[test]
fn root_derives_its_local_state() {
    let mut manager = TransformManager::new(origin());
    let local = Place { position: (0.25, -3.5, 1e-3), scale: 2.5 };
    manager.assign(Entity::new(1), Transform::new(origin(), origin()));
    manager.get_mut(Entity::new(1)).set_local(local);
    manager.transform_update(&compose);
    assert_eq!(*manager.get(Entity::new(1)).derived(), local);
    assert_eq!(*manager.get(Entity::new(1)).local(), local);
}

#[test]
fn pass_clears_every_mark() {
    let mut manager = chain();
    for id in 1..=3 {
        assert!(manager.get(Entity::new(id)).is_out_of_date());
    }
    manager.transform_update(&compose);
    for id in 1..=3 {
        assert!(!manager.get(Entity::new(id)).is_out_of_date());
    }
}

#[test]
fn pass_recomputes_transforms_that_are_not_marked() {
    let mut manager = TransformManager::new(origin());
    // The derived state handed in does not match the local state; no mark is set.
    manager.assign(Entity::new(1), Transform::new(at(1.0, 2.0, 3.0), at(9.0, 9.0, 9.0)));
    assert!(!manager.get(Entity::new(1)).is_out_of_date());
    manager.transform_update(&compose);
    assert_eq!(manager.get(Entity::new(1)).derived().position, (1.0, 2.0, 3.0));
}

#[test]
fn second_pass_changes_nothing() {
    let mut manager = chain();
    manager.get_mut(Entity::new(2)).set_local(Place { position: (0.1, 0.2, 0.3), scale: 3.0 });
    manager.transform_update(&compose);
    let first: Vec<Place> = (1..=3).map(|id| *manager.get(Entity::new(id)).derived()).collect();
    manager.transform_update(&compose);
    let second: Vec<Place> = (1..=3).map(|id| *manager.get(Entity::new(id)).derived()).collect();
    assert_eq!(first, second);
    for (one, other) in first.iter().zip(second.iter()) {
        assert_eq!(one.position.0.to_bits(), other.position.0.to_bits());
        assert_eq!(one.position.1.to_bits(), other.position.1.to_bits());
        assert_eq!(one.position.2.to_bits(), other.position.2.to_bits());
        assert_eq!(one.scale.to_bits(), other.scale.to_bits());
    }
}

#[test]
fn pass_uses_what_it_derived_for_the_parent() {
    let mut manager = chain();
    manager.get_mut(Entity::new(1)).set_local(Place { position: (1.0, 0.0, 0.0), scale: 2.0 });
    manager.transform_update(&compose);
    assert_eq!(manager.get(Entity::new(2)).derived().position, (1.0, 2.0, 0.0));
    assert_eq!(manager.get(Entity::new(3)).derived().position, (1.0, 2.0, 2.0));
    assert_eq!(manager.get(Entity::new(3)).derived().scale, 2.0);
}

#[test]
fn pass_keeps_the_layout() {
    let mut manager = chain();
    manager.transform_update(&compose);
    assert_eq!(manager.location(Entity::new(1)), Some((0, 0)));
    assert_eq!(manager.location(Entity::new(2)), Some((1, 0)));
    assert_eq!(manager.location(Entity::new(3)), Some((2, 0)));
    assert_eq!(manager.get(Entity::new(3)).local().position, (0.0, 0.0, 1.0));
}

#[test]
fn update_single_updates_the_ancestors_first() {
    let mut manager = chain();
    manager.assign(Entity::new(4), Transform::new(origin(), origin()));
    manager.get_mut(Entity::new(4)).set_local(at(5.0, 5.0, 5.0));
    manager.update_single(Entity::new(2), &compose);
    assert_eq!(manager.get(Entity::new(1)).derived().position, (1.0, 0.0, 0.0));
    assert_eq!(manager.get(Entity::new(2)).derived().position, (1.0, 1.0, 0.0));
    assert!(!manager.get(Entity::new(1)).is_out_of_date());
    assert!(!manager.get(Entity::new(2)).is_out_of_date());
    // What stands below, or elsewhere, is not touched.
    assert!(manager.get(Entity::new(3)).is_out_of_date());
    assert!(manager.get(Entity::new(4)).is_out_of_date());
}

#[test]
fn update_single_of_a_root_uses_the_stand_in() {
    let mut manager = TransformManager::new(at(10.0, 0.0, 0.0));
    manager.assign(Entity::new(1), Transform::new(at(1.0, 2.0, 3.0), origin()));
    manager.update_single(Entity::new(1), &compose);
    assert_eq!(manager.get(Entity::new(1)).derived().position, (11.0, 2.0, 3.0));
}

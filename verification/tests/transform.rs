use scene_graph::transform::Transform;

fn sum(local: &i32, above: &i32) -> i32 {
    local + above
}

#[test]
fn new_transform_is_current() {
    let transform = Transform::new(3, 4);
    assert!(!transform.is_out_of_date());
    assert_eq!(*transform.local(), 3);
    assert_eq!(*transform.derived(), 4);
}

#[test]
fn set_local_marks_out_of_date() {
    let mut transform = Transform::new(3, 4);
    transform.set_local(5);
    assert!(transform.is_out_of_date());
    assert_eq!(*transform.local(), 5);
}

#[test]
fn update_composes_and_clears_the_mark() {
    let mut transform = Transform::new(3, 0);
    transform.set_local(5);
    transform.update(&10, &sum);
    assert!(!transform.is_out_of_date());
    assert_eq!(*transform.derived(), 15);
    assert_eq!(*transform.local(), 5);
}

#[test]
fn derive_stores_nothing() {
    let mut transform = Transform::new(3, 0);
    transform.set_local(5);
    assert_eq!(transform.derive(&10, &sum), 15);
    assert!(transform.is_out_of_date());
}

#[test]
fn update_of_a_current_transform_recomputes() {
    let mut transform = Transform::new(3, 0);
    transform.update(&1, &sum);
    assert_eq!(*transform.derived(), 4);
    transform.update(&2, &sum);
    assert_eq!(*transform.derived(), 5);
}

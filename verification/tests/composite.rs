use matter_core::body::BodyHandle;
use matter_core::composite::{Composite, CompositeHandle};
use matter_core::constraint::ConstraintHandle;

#[test]
fn composite_new_is_empty() {
    let composite = Composite::new(CompositeHandle(0));
    assert!(composite.bodies.is_empty());
    assert!(composite.constraints.is_empty());
    assert!(composite.composites.is_empty());
    assert_eq!(composite.parent, None);
}

#[test]
fn composite_add_remove_body() {
    let mut composite = Composite::new(CompositeHandle(0));
    composite.add_body(BodyHandle(1));
    composite.add_body(BodyHandle(2));

    assert_eq!(composite.bodies.len(), 2);
    assert_eq!(composite.bodies[0], BodyHandle(1));

    composite.remove_body(BodyHandle(1));
    assert_eq!(composite.bodies.len(), 1);
    assert_eq!(composite.bodies[0], BodyHandle(2));
}

#[test]
fn composite_add_remove_constraint() {
    let mut composite = Composite::new(CompositeHandle(0));
    composite.add_constraint(ConstraintHandle(1));
    composite.add_constraint(ConstraintHandle(2));

    assert_eq!(composite.constraints.len(), 2);

    composite.remove_constraint(ConstraintHandle(1));
    assert_eq!(composite.constraints.len(), 1);
    assert_eq!(composite.constraints[0], ConstraintHandle(2));
}

#[test]
fn composite_add_remove_sub_composite() {
    let mut composite = Composite::new(CompositeHandle(0));
    composite.add_composite(CompositeHandle(1));

    assert_eq!(composite.composites.len(), 1);

    composite.remove_composite(CompositeHandle(1));
    assert!(composite.composites.is_empty());
}

#[test]
fn composite_all_bodies_flat() {
    let mut composite = Composite::new(CompositeHandle(0));
    composite.add_body(BodyHandle(1));
    composite.add_body(BodyHandle(2));

    let all = composite.all_bodies(&[]);
    assert_eq!(all, vec![BodyHandle(1), BodyHandle(2)]);
}

#[test]
fn composite_all_bodies_recursive() {
    let mut parent = Composite::new(CompositeHandle(0));
    parent.add_body(BodyHandle(1));
    parent.add_composite(CompositeHandle(1));

    let mut child = Composite::new(CompositeHandle(1));
    child.add_body(BodyHandle(2));
    child.add_body(BodyHandle(3));

    let composites = vec![parent.clone(), child];
    let all = composites[0].all_bodies(&composites);
    assert_eq!(all, vec![BodyHandle(1), BodyHandle(2), BodyHandle(3)]);
}

#[test]
fn composite_all_constraints_recursive() {
    let mut parent = Composite::new(CompositeHandle(0));
    parent.add_constraint(ConstraintHandle(1));
    parent.add_composite(CompositeHandle(1));

    let mut child = Composite::new(CompositeHandle(1));
    child.add_constraint(ConstraintHandle(2));

    let composites = vec![parent.clone(), child];
    let all = composites[0].all_constraints(&composites);
    assert_eq!(all, vec![ConstraintHandle(1), ConstraintHandle(2)]);
}

#[test]
fn composite_clear() {
    let mut composite = Composite::new(CompositeHandle(0));
    composite.add_body(BodyHandle(1));
    composite.add_constraint(ConstraintHandle(1));
    composite.add_composite(CompositeHandle(1));

    composite.clear();
    assert!(composite.bodies.is_empty());
    assert!(composite.constraints.is_empty());
    assert!(composite.composites.is_empty());
}

#[test]
fn composite_remove_drops_every_occurrence() {
    let mut composite = Composite::new(CompositeHandle(0));
    composite.add_body(BodyHandle(1));
    composite.add_body(BodyHandle(2));
    composite.add_body(BodyHandle(1));
    composite.add_body(BodyHandle(3));
    composite.remove_body(BodyHandle(1));
    assert_eq!(composite.bodies, vec![BodyHandle(2), BodyHandle(3)]);
    composite.remove_body(BodyHandle(7));
    assert_eq!(composite.bodies, vec![BodyHandle(2), BodyHandle(3)]);
}

#[test]
fn composite_remove_undoes_add() {
    let mut composite = Composite::new(CompositeHandle(0));
    composite.add_composite(CompositeHandle(4));
    composite.add_composite(CompositeHandle(5));
    composite.add_composite(CompositeHandle(6));
    composite.remove_composite(CompositeHandle(6));
    assert_eq!(composite.composites, vec![CompositeHandle(4), CompositeHandle(5)]);
}

#[test]
fn composite_all_bodies_nested_and_unknown_children() {
    // 0 -> [1, 9 (unknown), 2]; 1 -> [3]
    let mut root = Composite::new(CompositeHandle(0));
    root.add_body(BodyHandle(10));
    root.add_composite(CompositeHandle(1));
    root.add_composite(CompositeHandle(9));
    root.add_composite(CompositeHandle(2));
    let mut one = Composite::new(CompositeHandle(1));
    one.add_body(BodyHandle(11));
    one.add_composite(CompositeHandle(3));
    let mut two = Composite::new(CompositeHandle(2));
    two.add_body(BodyHandle(12));
    let mut three = Composite::new(CompositeHandle(3));
    three.add_body(BodyHandle(13));
    three.add_body(BodyHandle(14));
    let composites = vec![root.clone(), three, two, one];
    let all = root.all_bodies(&composites);
    assert_eq!(
        all,
        vec![BodyHandle(10), BodyHandle(11), BodyHandle(13), BodyHandle(14), BodyHandle(12)]
    );
}

#[test]
fn composite_all_bodies_first_match_wins() {
    let mut root = Composite::new(CompositeHandle(0));
    root.add_composite(CompositeHandle(1));
    let mut first = Composite::new(CompositeHandle(1));
    first.add_body(BodyHandle(5));
    let mut second = Composite::new(CompositeHandle(1));
    second.add_body(BodyHandle(6));
    let composites = vec![first, second];
    assert_eq!(root.all_bodies(&composites), vec![BodyHandle(5)]);
}

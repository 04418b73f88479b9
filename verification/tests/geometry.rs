use matter_core::constraint::solve_order;
use matter_core::body::BodyHandle;
use matter_core::factory::Bodies;
use matter_core::geometry::Axes;

fn keys(list: &[&str]) -> Vec<String> {
    list.iter().map(|s| s.to_string()).collect()
}

#[test]
fn unique_edges_of_rectangle() {
    // A rectangle's opposite edges share their gradient.
    let kept = Axes::unique_edges(&keys(&["0.000", "inf", "0.000", "inf"]));
    assert_eq!(kept, vec![2, 3]);
}

#[test]
fn unique_edges_all_distinct() {
    let kept = Axes::unique_edges(&keys(&["1.000", "-1.000", "0.500"]));
    assert_eq!(kept, vec![0, 1, 2]);
}

#[test]
fn unique_edges_empty() {
    assert!(Axes::unique_edges(&Vec::new()).is_empty());
}

#[test]
fn circle_sides_values() {
    assert_eq!(Bodies::circle_sides(0), 10);
    assert_eq!(Bodies::circle_sides(10), 10);
    assert_eq!(Bodies::circle_sides(11), 12);
    assert_eq!(Bodies::circle_sides(24), 24);
    assert_eq!(Bodies::circle_sides(25), 26);
    assert_eq!(Bodies::circle_sides(50), 26);
}

#[test]
fn solve_order_fixed_first() {
    let ends = vec![
        (Some(BodyHandle(0)), Some(BodyHandle(1))),
        (Some(BodyHandle(0)), None),
        (Some(BodyHandle(1)), Some(BodyHandle(2))),
        (None, None),
    ];
    let is_static = vec![false, false, true];
    assert_eq!(solve_order(&ends, &is_static), vec![1, 2, 3, 0]);
}

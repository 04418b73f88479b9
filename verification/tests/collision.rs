use matter_core::body::{BodyHandle, CollisionFilter};
use matter_core::collision::{
    can_collide, pair_id, Collision, CollisionKey, Detector, Pair, Pairs, SupportPoint,
};
use matter_core::engine::{collision_events, PhysicsEvent, Resolver};

fn filter(category: u32, mask: u32, group: i32) -> CollisionFilter {
    CollisionFilter { category, mask, group }
}

fn key(a: usize, b: usize, supports: usize) -> CollisionKey {
    CollisionKey {
        body_a: BodyHandle(a),
        body_b: BodyHandle(b),
        parent_a: BodyHandle(a),
        parent_b: BodyHandle(b),
        support_count: supports,
        is_sensor: false,
    }
}

#[test]
fn pair_id_is_ordered() {
    assert_eq!(pair_id(BodyHandle(3), BodyHandle(1)), (1, 3));
    assert_eq!(pair_id(BodyHandle(1), BodyHandle(3)), (1, 3));
}

#[test]
fn pair_id_same_body() {
    assert_eq!(pair_id(BodyHandle(4), BodyHandle(4)), (4, 4));
}

#[test]
fn can_collide_default_filters_collide() {
    let a = filter(0x0001, 0xFFFF_FFFF, 0);
    let b = filter(0x0001, 0xFFFF_FFFF, 0);
    assert!(can_collide(&a, &b));
}

#[test]
fn can_collide_mask_excludes_category() {
    let a = filter(0x0001, 0x0002, 0);
    let b = filter(0x0001, 0xFFFF_FFFF, 0);
    assert!(!can_collide(&a, &b));
    assert!(!can_collide(&b, &a));
    let c = filter(0x0002, 0x0001, 0);
    assert!(can_collide(&a, &c));
    assert!(can_collide(&c, &a));
}

#[test]
fn can_collide_same_group() {
    let a = filter(0x0001, 0, 3);
    let b = filter(0x0001, 0, 3);
    assert!(can_collide(&a, &b));
    let c = filter(0x0001, 0xFFFF_FFFF, -2);
    let d = filter(0x0001, 0xFFFF_FFFF, -2);
    assert!(!can_collide(&c, &d));
    // different groups fall back to masks
    let e = filter(0x0001, 0xFFFF_FFFF, -2);
    let f = filter(0x0001, 0xFFFF_FFFF, -3);
    assert!(can_collide(&e, &f));
}

#[test]
fn detector_may_collide_rules() {
    let open = filter(0x0001, 0xFFFF_FFFF, 0);
    let closed = filter(0x0001, 0, 0);
    assert!(Detector::may_collide(false, false, &open, false, false, &open));
    assert!(Detector::may_collide(true, false, &open, false, false, &open));
    assert!(!Detector::may_collide(true, false, &open, true, false, &open));
    assert!(!Detector::may_collide(false, true, &open, true, false, &open));
    assert!(!Detector::may_collide(false, true, &open, false, true, &open));
    assert!(!Detector::may_collide(false, false, &closed, false, false, &open));
}

#[test]
fn pair_create_and_update() {
    let mut pair = Pair::create(&key(3, 1, 2));
    assert_eq!(pair.id, (1, 3));
    assert!(pair.is_active);
    assert_eq!(pair.contact_count, 2);
    let mut later = key(1, 3, 1);
    later.parent_a = BodyHandle(7);
    pair.update(&later);
    assert_eq!(pair.contact_count, 1);
    assert_eq!(pair.parent_a, BodyHandle(7));
    assert_eq!(pair.body_a, BodyHandle(3));
    pair.set_active(false);
    assert!(!pair.is_active);
    assert_eq!(pair.contact_count, 0);
}

#[test]
fn pairs_update_tracks_start_active_end() {
    let mut pairs = Pairs::new();

    // Tick 1: collision starts
    pairs.update(&vec![key(0, 1, 2)], &vec![]);
    assert_eq!(pairs.collision_start, vec![(0, 1)]);
    assert!(pairs.collision_active.is_empty());
    assert!(pairs.collision_end.is_empty());

    // Tick 2: collision continues (active)
    pairs.update(&vec![key(1, 0, 2)], &vec![true]);
    assert!(pairs.collision_start.is_empty());
    assert_eq!(pairs.collision_active, vec![(0, 1)]);
    assert!(pairs.collision_end.is_empty());

    // Tick 3: no collision (end)
    pairs.update(&vec![], &vec![true]);
    assert!(pairs.collision_start.is_empty());
    assert!(pairs.collision_active.is_empty());
    assert_eq!(pairs.collision_end, vec![(0, 1)]);
    assert_eq!(pairs.collision_end_pairs.len(), 1);
    assert!(!pairs.collision_end_pairs[0].is_active);
    assert_eq!(pairs.collision_end_pairs[0].contact_count, 0);

    // Pair removed from table
    assert!(pairs.table.is_empty());
}

#[test]
fn pairs_not_stale_pair_stays() {
    let mut pairs = Pairs::new();
    pairs.update(&vec![key(0, 1, 2), key(2, 3, 1)], &vec![]);
    assert_eq!(pairs.collision_start, vec![(0, 1), (2, 3)]);
    // (2, 3) was already updated at this time: it stays although not touched
    pairs.update(&vec![key(0, 1, 1)], &vec![true, false]);
    assert_eq!(pairs.collision_active, vec![(0, 1)]);
    assert!(pairs.collision_end.is_empty());
    assert_eq!(pairs.table.len(), 2);
    assert_eq!(pairs.table[0].contact_count, 1);
}

#[test]
fn pairs_duplicate_collision_starts_then_continues() {
    let mut pairs = Pairs::new();
    pairs.update(&vec![key(0, 1, 2), key(1, 0, 1)], &vec![]);
    assert_eq!(pairs.collision_start, vec![(0, 1)]);
    assert_eq!(pairs.collision_active, vec![(0, 1)]);
    assert_eq!(pairs.table.len(), 1);
    assert_eq!(pairs.table[0].contact_count, 1);
}

#[test]
fn pairs_clear_forgets_everything() {
    let mut pairs = Pairs::new();
    pairs.update(&vec![key(0, 1, 2)], &vec![]);
    pairs.clear();
    assert!(pairs.table.is_empty());
    assert!(pairs.collision_start.is_empty());
}

#[test]
fn events_follow_pairs_lists() {
    let mut pairs = Pairs::new();
    pairs.update(&vec![key(0, 1, 2), key(2, 3, 2)], &vec![]);
    let events = collision_events(&pairs);
    assert_eq!(events.len(), 1);
    match &events[0] {
        PhysicsEvent::CollisionStart { pairs } => assert_eq!(pairs, &vec![(0, 1), (2, 3)]),
        _ => panic!("expected a start event"),
    }
    pairs.update(&vec![key(0, 1, 2), key(4, 5, 1)], &vec![true, true]);
    let events = collision_events(&pairs);
    assert_eq!(events.len(), 3);
    assert!(matches!(&events[0], PhysicsEvent::CollisionStart { pairs } if pairs == &vec![(4, 5)]));
    assert!(matches!(&events[1], PhysicsEvent::CollisionActive { pairs } if pairs == &vec![(0, 1)]));
    assert!(matches!(&events[2], PhysicsEvent::CollisionEnd { pairs } if pairs == &vec![(2, 3)]));
}

#[test]
fn pre_solve_position_counts_contacts() {
    let mut pairs = Pairs::new();
    pairs.update(&vec![key(0, 1, 2), key(1, 2, 1)], &vec![]);
    let mut totals = vec![0usize, 0, 0, 5];
    Resolver::pre_solve_position(&pairs, &mut totals);
    assert_eq!(totals, vec![2, 3, 1, 5]);
}

#[test]
fn choose_supports_cases() {
    assert_eq!(
        Collision::choose_supports(true, true, true, true),
        vec![SupportPoint::FirstOfB, SupportPoint::SecondOfB]
    );
    assert_eq!(
        Collision::choose_supports(false, true, true, true),
        vec![SupportPoint::SecondOfB, SupportPoint::FirstOfA]
    );
    assert_eq!(
        Collision::choose_supports(false, false, false, true),
        vec![SupportPoint::SecondOfA]
    );
    assert_eq!(
        Collision::choose_supports(false, false, true, true),
        vec![SupportPoint::FirstOfA, SupportPoint::SecondOfA]
    );
    assert_eq!(
        Collision::choose_supports(false, false, false, false),
        vec![SupportPoint::FirstOfB]
    );
}

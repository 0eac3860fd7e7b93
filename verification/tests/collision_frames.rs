use blackhole_universe::objects::collision_frame::CollisionFrame;
use blackhole_universe::objects::collision_set::CollisionSet;
use blackhole_universe::objects::movables::{CollisionResult, IdAllocator, Movable, ObjectType};

fn holes(count: usize) -> (IdAllocator, Vec<Movable>) {
    let mut ids = IdAllocator::new();
    let mut bodies = Vec::new();
    for _ in 0..count {
        bodies.push(Movable::new(&ObjectType::BlackHole, &mut ids));
    }
    (ids, bodies)
}

fn group(bodies: &[Movable]) -> CollisionSet {
    let mut set = CollisionSet::new();
    for body in bodies {
        set.append(body);
    }
    set
}

fn layout(frame: &CollisionFrame) -> Vec<Vec<u32>> {
    let mut groups = Vec::new();
    for k in 0..frame.len() {
        groups.push(frame.get(k).members().iter().map(|m| m.get_id()).collect());
    }
    groups
}

#[test]
fn a_new_frame_has_no_groups() {
    let frame = CollisionFrame::new();
    assert_eq!(frame.len(), 0);
    assert!(!frame.holds(0));
}

#[test]
fn groups_that_share_no_body_stand_side_by_side() {
    let (_, h) = holes(6);
    let mut frame = CollisionFrame::new();
    assert!(!frame.push(group(&[h[0], h[1]])));
    assert!(!frame.push(group(&[h[4], h[5]])));
    assert!(!frame.push(group(&[h[2], h[3]])));

    assert_eq!(layout(&frame), vec![vec![0, 1], vec![4, 5], vec![2, 3]]);
    assert!(frame.holds(4));
    assert!(!frame.holds(6));
}

#[test]
fn a_chain_of_collisions_is_one_group() {
    let (_, h) = holes(3);
    let mut frame = CollisionFrame::new();
    assert!(!frame.push(group(&[h[0], h[1]])));
    assert!(frame.push(group(&[h[1], h[2]])));

    assert_eq!(layout(&frame), vec![vec![0, 1, 2]]);
}

#[test]
fn the_same_group_twice_changes_nothing() {
    let (_, h) = holes(4);
    let mut frame = CollisionFrame::new();
    frame.push(group(&[h[0], h[1]]));
    frame.push(group(&[h[2], h[3]]));
    assert!(frame.push(group(&[h[2], h[3]])));
    assert!(frame.push(group(&[h[1], h[0]])));

    assert_eq!(layout(&frame), vec![vec![0, 1], vec![2, 3]]);
}

#[test]
fn a_group_joins_the_group_it_meets_where_that_one_stood() {
    let (_, h) = holes(7);
    let mut frame = CollisionFrame::new();
    frame.push(group(&[h[0], h[1]]));
    frame.push(group(&[h[2], h[3]]));
    frame.push(group(&[h[4], h[5]]));
    assert!(frame.push(group(&[h[3], h[6]])));

    assert_eq!(layout(&frame), vec![vec![0, 1], vec![2, 3, 6], vec![4, 5]]);
}

#[test]
fn a_group_that_bridges_two_groups_joins_them() {
    let (_, h) = holes(8);
    let mut frame = CollisionFrame::new();
    frame.push(group(&[h[0], h[1]]));
    frame.push(group(&[h[2], h[3]]));
    frame.push(group(&[h[4], h[5]]));
    frame.push(group(&[h[6], h[7]]));
    assert!(frame.push(group(&[h[3], h[6]])));

    assert_eq!(layout(&frame), vec![vec![0, 1], vec![2, 3, 6, 7], vec![4, 5]]);

    assert!(frame.push(group(&[h[5], h[0], h[7]])));
    assert_eq!(layout(&frame), vec![vec![0, 1, 2, 3, 4, 5, 6, 7]]);
}

#[test]
fn no_body_is_ever_in_two_groups() {
    let (_, h) = holes(10);
    let pushes: Vec<Vec<usize>> = vec![
        vec![0, 1],
        vec![8, 9],
        vec![2, 3],
        vec![5, 6],
        vec![3, 5],
        vec![7],
        vec![1, 9, 4],
        vec![6, 7],
    ];
    let mut frame = CollisionFrame::new();
    for push in &pushes {
        let bodies: Vec<Movable> = push.iter().map(|k| h[*k]).collect();
        frame.push(group(&bodies));

        let groups = layout(&frame);
        let mut seen = Vec::new();
        for g in &groups {
            for id in g {
                assert!(!seen.contains(id));
                seen.push(*id);
            }
        }
    }
    assert_eq!(layout(&frame), vec![vec![0, 1, 4, 8, 9], vec![2, 3, 5, 6, 7]]);
}

#[test]
fn an_empty_group_meets_no_group() {
    let (_, h) = holes(2);
    let mut frame = CollisionFrame::new();
    frame.push(group(&[h[0], h[1]]));
    assert!(!frame.push(CollisionSet::new()));
    assert_eq!(layout(&frame), vec![vec![0, 1], vec![]]);
}

#[test]
fn an_empty_frame_collects_nothing() {
    let mut ids = IdAllocator::new();
    let frame = CollisionFrame::new();
    assert!(frame.can_collect(&ids));
    assert!(matches!(frame.collect(&mut ids), CollisionResult::Nothing));
}

#[test]
fn two_colliding_blackholes_leave_one() {
    let (mut ids, h) = holes(2);
    let mut frame = CollisionFrame::new();
    frame.push(group(&[h[0], h[1]]));
    frame.push(group(&[h[1], h[0]]));

    assert!(frame.can_collect(&ids));
    match frame.collect(&mut ids) {
        CollisionResult::NSize(bodies) => {
            assert_eq!(bodies.len(), 1);
            assert_eq!(bodies[0].get_id(), 2);
            assert_eq!(bodies[0].kind(), ObjectType::BlackHole);
        }
        _ => panic!("a frame with groups collects a list"),
    }
    assert_eq!(ids.peek(ObjectType::BlackHole), 3);
}

#[test]
fn collect_goes_through_the_groups_in_order() {
    let mut ids = IdAllocator::new();
    let mut h = Vec::new();
    for _ in 0..5 {
        h.push(Movable::new(&ObjectType::BlackHole, &mut ids));
    }
    let mut w = Vec::new();
    for _ in 0..6 {
        w.push(Movable::new(&ObjectType::World, &mut ids));
    }

    let mut frame = CollisionFrame::new();
    // three bodies with a black hole among them: two merges, one body left
    frame.push(group(&[h[1], h[2], w[5]]));
    // a single body: no collision
    frame.push(group(&[h[4]]));
    // two worlds with identifiers that no other group uses: four fragments
    frame.push(group(&[w[0], w[3]]));

    assert!(frame.can_collect(&ids));
    match frame.collect(&mut ids) {
        CollisionResult::NSize(bodies) => {
            let numbers: Vec<u32> = bodies.iter().map(|m| m.get_id()).collect();
            assert_eq!(numbers, vec![6, 7, 8, 9, 10]);
            assert!(bodies.iter().all(|m| m.kind() == ObjectType::BlackHole));
        }
        _ => panic!("a frame with groups collects a list"),
    }
    assert_eq!(ids.peek(ObjectType::BlackHole), 11);
    assert_eq!(ids.peek(ObjectType::World), 6);
}

#[test]
fn a_frame_of_single_bodies_collects_an_empty_list() {
    let (mut ids, h) = holes(2);
    let mut frame = CollisionFrame::new();
    frame.push(group(&[h[0]]));
    frame.push(group(&[h[1]]));

    match frame.collect(&mut ids) {
        CollisionResult::NSize(bodies) => assert!(bodies.is_empty()),
        _ => panic!("a frame with groups collects a list"),
    }
    assert_eq!(ids.peek(ObjectType::BlackHole), 2);
}

use blackhole_universe::objects::movables::{
    CollisionFrame, CollisionResult, CollisionSet, IdAllocator, Movable, ObjectType,
};
use std::cmp::Ordering;

fn blackholes(ids: &mut IdAllocator, count: usize) -> Vec<Movable> {
    let mut bodies = Vec::new();
    for _ in 0..count {
        bodies.push(Movable::new(&ObjectType::BlackHole, ids));
    }
    bodies
}

#[test]
fn identifiers_count_up_within_each_kind() {
    let mut ids = IdAllocator::new();
    assert_eq!(ids.peek(ObjectType::BlackHole), 0);
    assert_eq!(ids.peek(ObjectType::World), 0);

    let first = Movable::new(&ObjectType::BlackHole, &mut ids);
    let second = Movable::new(&ObjectType::BlackHole, &mut ids);
    let world = Movable::new(&ObjectType::World, &mut ids);
    let third = Movable::new(&ObjectType::BlackHole, &mut ids);

    assert_eq!(first.get_id(), 0);
    assert_eq!(second.get_id(), 1);
    assert_eq!(third.get_id(), 2);
    assert_eq!(world.get_id(), 0);
    assert_eq!(first.kind(), ObjectType::BlackHole);
    assert_eq!(world.kind(), ObjectType::World);
    assert_eq!(world.otype, ObjectType::World);
    assert_eq!(ids.peek(ObjectType::BlackHole), 3);
    assert_eq!(ids.peek(ObjectType::World), 1);
}

#[test]
fn allocate_hands_out_the_peeked_identifier() {
    let mut ids = IdAllocator::new();
    assert_eq!(ids.allocate(ObjectType::World), 0);
    assert_eq!(ids.allocate(ObjectType::World), 1);
    assert_eq!(ids.peek(ObjectType::World), 2);
    assert_eq!(ids.peek(ObjectType::BlackHole), 0);
    assert_eq!(ids.remaining(ObjectType::World), u32::MAX - 2);
    assert_eq!(ids.remaining(ObjectType::BlackHole), u32::MAX);
}

#[test]
fn bodies_are_equal_by_identifier_alone() {
    let mut ids = IdAllocator::new();
    let hole = Movable::new(&ObjectType::BlackHole, &mut ids);
    let world = Movable::new(&ObjectType::World, &mut ids);
    let other = Movable::new(&ObjectType::BlackHole, &mut ids);

    assert!(hole == world);
    assert!(hole != other);
    assert!(hole == hole);
}

#[test]
fn bodies_are_ordered_by_identifier() {
    let mut ids = IdAllocator::new();
    let low = Movable::new(&ObjectType::BlackHole, &mut ids);
    let high = Movable::new(&ObjectType::BlackHole, &mut ids);
    let twin = Movable::new(&ObjectType::World, &mut ids);

    assert_eq!(low.cmp(&high), Ordering::Less);
    assert_eq!(high.cmp(&low), Ordering::Greater);
    assert_eq!(low.cmp(&twin), Ordering::Equal);
    assert_eq!(low.partial_cmp(&high), Some(Ordering::Less));
    assert_eq!(high.partial_cmp(&low), Some(Ordering::Greater));
    assert_eq!(low.partial_cmp(&twin), Some(Ordering::Equal));
    assert!(low < high);
    assert!(high > low);
    assert!(low <= twin);
}

#[test]
fn no_bodies_no_collision() {
    let mut ids = IdAllocator::new();
    let result = Movable::process_collisions(&[], &mut ids);
    assert!(matches!(result, CollisionResult::Nothing));
    assert_eq!(ids.peek(ObjectType::BlackHole), 0);
}

#[test]
fn two_blackholes_merge_into_one_new_blackhole() {
    let mut ids = IdAllocator::new();
    let bodies = blackholes(&mut ids, 2);

    match Movable::process_collisions(&bodies, &mut ids) {
        CollisionResult::Single(merged) => {
            assert_eq!(merged.kind(), ObjectType::BlackHole);
            assert_eq!(merged.get_id(), 2);
        }
        _ => panic!("two black holes leave one"),
    }
    assert_eq!(ids.peek(ObjectType::BlackHole), 3);
    assert_eq!(ids.peek(ObjectType::World), 0);
}

#[test]
fn a_merge_of_four_uses_three_identifiers() {
    let mut ids = IdAllocator::new();
    let mut bodies = blackholes(&mut ids, 3);
    bodies.push(Movable::new(&ObjectType::World, &mut ids));

    match Movable::process_collisions(&bodies, &mut ids) {
        CollisionResult::Single(merged) => {
            assert_eq!(merged.kind(), ObjectType::BlackHole);
            assert_eq!(merged.get_id(), 5);
        }
        _ => panic!("a black hole swallows the rest"),
    }
    assert_eq!(ids.peek(ObjectType::BlackHole), 6);
    assert_eq!(ids.peek(ObjectType::World), 1);
}

#[test]
fn a_world_and_a_blackhole_merge() {
    let mut ids = IdAllocator::new();
    let world = Movable::new(&ObjectType::World, &mut ids);
    let _spare = Movable::new(&ObjectType::BlackHole, &mut ids);
    let hole = Movable::new(&ObjectType::BlackHole, &mut ids);

    match Movable::process_collisions(&[world, hole], &mut ids) {
        CollisionResult::Single(merged) => {
            assert_eq!(merged.kind(), ObjectType::BlackHole);
            assert_eq!(merged.get_id(), 2);
        }
        _ => panic!("the black hole swallows the world"),
    }
}

#[test]
fn worlds_shatter_into_two_fragments_each() {
    let mut ids = IdAllocator::new();
    let one = Movable::new(&ObjectType::World, &mut ids);
    let two = Movable::new(&ObjectType::World, &mut ids);
    let three = Movable::new(&ObjectType::World, &mut ids);

    match Movable::process_collisions(&[one, two, three], &mut ids) {
        CollisionResult::NSize(fragments) => {
            assert_eq!(fragments.len(), 6);
            for (k, fragment) in fragments.iter().enumerate() {
                assert_eq!(fragment.get_id(), k as u32);
                assert_eq!(fragment.kind(), ObjectType::BlackHole);
            }
        }
        _ => panic!("worlds shatter"),
    }
    assert_eq!(ids.peek(ObjectType::BlackHole), 6);
    assert_eq!(ids.peek(ObjectType::World), 3);
}

#[test]
fn a_lone_world_shatters() {
    let mut ids = IdAllocator::new();
    let world = Movable::new(&ObjectType::World, &mut ids);

    match Movable::process_collisions(&[world], &mut ids) {
        CollisionResult::NSize(fragments) => {
            assert_eq!(fragments.len(), 2);
            assert_eq!(fragments[0].get_id(), 0);
            assert_eq!(fragments[1].get_id(), 1);
        }
        _ => panic!("a world shatters"),
    }
}

#[test]
fn a_blackhole_among_the_bodies_is_found() {
    let mut ids = IdAllocator::new();
    let world = Movable::new(&ObjectType::World, &mut ids);
    let other = Movable::new(&ObjectType::World, &mut ids);
    let hole = Movable::new(&ObjectType::BlackHole, &mut ids);

    assert!(!Movable::holds_blackhole(&[]));
    assert!(!Movable::holds_blackhole(&[world, other]));
    assert!(Movable::holds_blackhole(&[world, other, hole]));
    assert!(Movable::holds_blackhole(&[hole]));
}

#[test]
fn two_blackholes_that_overlap_become_one() {
    // two black holes in contact: one group, one black hole left, with an
    // identifier that no body had before
    let mut ids = IdAllocator::new();
    let one = Movable::new(&ObjectType::BlackHole, &mut ids);
    let two = Movable::new(&ObjectType::BlackHole, &mut ids);

    let mut set = CollisionSet::new();
    set.append(&one);
    set.append(&two);
    let mut frame = CollisionFrame::new();
    frame.push(set);

    assert_eq!(frame.len(), 1);
    match frame.get(0).collide(&mut ids) {
        CollisionResult::Single(merged) => {
            assert_eq!(merged.kind(), ObjectType::BlackHole);
            assert!(merged != one);
            assert!(merged != two);
        }
        _ => panic!("two black holes leave one"),
    }
}

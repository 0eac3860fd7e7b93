use blackhole_universe::objects::collision_set::CollisionSet;
use blackhole_universe::objects::movables::{CollisionResult, IdAllocator, Movable, ObjectType};

fn universe(holes: usize, worlds: usize) -> (IdAllocator, Vec<Movable>, Vec<Movable>) {
    let mut ids = IdAllocator::new();
    let mut h = Vec::new();
    for _ in 0..holes {
        h.push(Movable::new(&ObjectType::BlackHole, &mut ids));
    }
    let mut w = Vec::new();
    for _ in 0..worlds {
        w.push(Movable::new(&ObjectType::World, &mut ids));
    }
    (ids, h, w)
}

fn set_of(bodies: &[Movable]) -> CollisionSet {
    let mut set = CollisionSet::new();
    for body in bodies {
        set.append(body);
    }
    set
}

fn ids_of(set: &CollisionSet) -> Vec<u32> {
    set.members().iter().map(|m| m.get_id()).collect()
}

#[test]
fn a_new_set_is_empty() {
    let set = CollisionSet::new();
    assert!(set.is_empty());
    assert_eq!(set.len(), 0);
    assert!(!set.contains(0));
    assert!(set.members().is_empty());
}

#[test]
fn append_keeps_each_body_once() {
    let (_, h, _) = universe(3, 0);
    let mut set = CollisionSet::new();
    assert!(set.append(&h[2]));
    assert!(set.append(&h[0]));
    assert!(!set.append(&h[2]));
    assert!(set.append(&h[1]));
    assert!(!set.append(&h[0]));

    assert_eq!(set.len(), 3);
    assert!(!set.is_empty());
    assert_eq!(ids_of(&set), vec![0, 1, 2]);
}

#[test]
fn append_keeps_the_first_of_two_bodies_with_one_identifier() {
    let (_, h, w) = universe(1, 1);
    let mut set = CollisionSet::new();
    assert!(set.append(&w[0]));
    assert!(!set.append(&h[0]));

    assert_eq!(set.len(), 1);
    assert_eq!(set.members()[0].kind(), ObjectType::World);
    assert_eq!(set.kind_of(0), Some(ObjectType::World));
    assert_eq!(set.kind_of(1), None);
}

#[test]
fn members_come_in_the_order_of_their_identifiers() {
    let (_, h, _) = universe(6, 0);
    let set = set_of(&[h[5], h[1], h[3], h[0]]);
    assert_eq!(ids_of(&set), vec![0, 1, 3, 5]);
    assert!(set.contains(3));
    assert!(!set.contains(2));
    assert!(!set.contains(4));
    assert!(!set.contains(9));
}

#[test]
fn intersect_holds_what_both_hold() {
    let (_, h, _) = universe(6, 0);
    let one = set_of(&[h[0], h[1], h[2], h[4]]);
    let two = set_of(&[h[1], h[3], h[4], h[5]]);

    assert_eq!(ids_of(&one.intersect(&two)), vec![1, 4]);
    assert_eq!(ids_of(&two.intersect(&one)), vec![1, 4]);
    assert!(one.intersect(&CollisionSet::new()).is_empty());
    assert!(CollisionSet::new().intersect(&one).is_empty());
    assert_eq!(ids_of(&one.intersect(&one)), vec![0, 1, 2, 4]);
}

#[test]
fn intersect_takes_its_bodies_from_the_first_set() {
    let (_, h, w) = universe(2, 2);
    let holes = set_of(&[h[0], h[1]]);
    let worlds = set_of(&[w[1]]);

    let common = holes.intersect(&worlds);
    assert_eq!(ids_of(&common), vec![1]);
    assert_eq!(common.members()[0].kind(), ObjectType::BlackHole);

    let common = worlds.intersect(&holes);
    assert_eq!(ids_of(&common), vec![1]);
    assert_eq!(common.members()[0].kind(), ObjectType::World);
}

#[test]
fn union_holds_what_either_holds() {
    let (_, h, _) = universe(6, 0);
    let one = set_of(&[h[0], h[2], h[4]]);
    let two = set_of(&[h[1], h[2], h[5]]);

    assert_eq!(ids_of(&one.union(&two)), vec![0, 1, 2, 4, 5]);
    assert_eq!(ids_of(&two.union(&one)), vec![0, 1, 2, 4, 5]);
    assert_eq!(ids_of(&one.union(&CollisionSet::new())), vec![0, 2, 4]);
    assert_eq!(ids_of(&CollisionSet::new().union(&one)), vec![0, 2, 4]);
}

#[test]
fn union_prefers_the_bodies_of_the_first_set() {
    let (_, h, w) = universe(2, 2);
    let holes = set_of(&[h[0], h[1]]);
    let worlds = set_of(&[w[1]]);

    let all = holes.union(&worlds);
    assert_eq!(ids_of(&all), vec![0, 1]);
    assert_eq!(all.kind_of(1), Some(ObjectType::BlackHole));

    let all = worlds.union(&holes);
    assert_eq!(ids_of(&all), vec![0, 1]);
    assert_eq!(all.kind_of(0), Some(ObjectType::BlackHole));
    assert_eq!(all.kind_of(1), Some(ObjectType::World));
}

#[test]
fn merging_a_set_with_itself_duplicates_nothing() {
    let (_, h, _) = universe(4, 0);
    let set = set_of(&[h[3], h[0], h[2]]);

    assert_eq!(ids_of(&set.union(&set)), vec![0, 2, 3]);
    let merged = CollisionSet::merge_intersection(&set, &set).expect("a set meets itself");
    assert_eq!(merged.len(), 3);
    assert_eq!(ids_of(&merged), vec![0, 2, 3]);
}

#[test]
fn sets_that_share_a_body_merge() {
    let (_, h, _) = universe(3, 0);
    let ab = set_of(&[h[0], h[1]]);
    let bc = set_of(&[h[1], h[2]]);

    let merged = CollisionSet::merge_intersection(&ab, &bc).expect("they share a body");
    assert_eq!(ids_of(&merged), vec![0, 1, 2]);
}

#[test]
fn sets_that_share_no_body_stay_apart() {
    let (_, h, _) = universe(4, 0);
    let ab = set_of(&[h[0], h[1]]);
    let cd = set_of(&[h[2], h[3]]);

    assert!(CollisionSet::merge_intersection(&ab, &cd).is_none());
    assert!(CollisionSet::merge_intersection(&ab, &CollisionSet::new()).is_none());
    assert!(CollisionSet::merge_intersection(&CollisionSet::new(), &CollisionSet::new()).is_none());
}

#[test]
fn a_copy_has_the_same_members() {
    let (_, h, _) = universe(3, 0);
    let set = set_of(&[h[2], h[0]]);
    let copy = set.clone();
    assert_eq!(ids_of(&copy), vec![0, 2]);
    assert_eq!(ids_of(&set), vec![0, 2]);
}

#[test]
fn a_single_body_does_not_collide() {
    let (mut ids, h, _) = universe(1, 0);
    let set = set_of(&h);
    assert_eq!(set.identifiers_needed(), 0);
    assert!(matches!(set.collide(&mut ids), CollisionResult::Nothing));
    assert_eq!(ids.peek(ObjectType::BlackHole), 1);
}

#[test]
fn an_empty_set_does_not_collide() {
    let mut ids = IdAllocator::new();
    let set = CollisionSet::new();
    assert!(matches!(set.collide(&mut ids), CollisionResult::Nothing));
    assert_eq!(ids.peek(ObjectType::BlackHole), 0);
}

#[test]
fn a_set_with_a_blackhole_merges_into_one() {
    let (mut ids, h, w) = universe(3, 2);
    let set = set_of(&[w[1], h[2], h[0]]);
    assert_eq!(set.identifiers_needed(), 2);

    match set.collide(&mut ids) {
        CollisionResult::Single(merged) => {
            assert_eq!(merged.get_id(), 4);
            assert_eq!(merged.kind(), ObjectType::BlackHole);
        }
        _ => panic!("a black hole swallows the rest"),
    }
    assert_eq!(ids.peek(ObjectType::BlackHole), 5);
    assert_eq!(ids.peek(ObjectType::World), 2);
}

#[test]
fn a_set_of_worlds_shatters() {
    let (mut ids, _, w) = universe(0, 2);
    let set = set_of(&w);
    assert_eq!(set.identifiers_needed(), 4);

    match set.collide(&mut ids) {
        CollisionResult::NSize(fragments) => {
            assert_eq!(fragments.len(), 4);
            let numbers: Vec<u32> = fragments.iter().map(|m| m.get_id()).collect();
            assert_eq!(numbers, vec![0, 1, 2, 3]);
            assert!(fragments.iter().all(|m| m.kind() == ObjectType::BlackHole));
        }
        _ => panic!("worlds shatter"),
    }
    assert_eq!(ids.peek(ObjectType::BlackHole), 4);
}

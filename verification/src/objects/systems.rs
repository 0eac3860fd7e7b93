//! What each frame decides: which bodies collided with which, which bodies
//! leave the universe, and whether the game goes on.

use crate::objects::collision_frame::{
    absorbed, grouped_together, lemma_absorbed_members, lemma_grouped_transitive,
    lemma_push_groups_together,
    lemma_push_keeps_disjoint, lemma_push_members, lemma_pushed_origin, members,
    pairwise_disjoint, pushed, touches, CollisionFrame,
};
use crate::objects::collision_set::{CollisionSet, Group};
use crate::objects::gamestate::GameState;
use crate::objects::movables::{Movable, ObjectType};
use vstd::prelude::*;

verus! {

/// The rows of a table of contacts.
pub open spec fn rows(contacts: Seq<Vec<bool>>) -> Seq<Seq<bool>> {
    Seq::new(contacts.len(), |i: int| contacts[i]@)
}

/// Whether `contacts` has a row for each body and in each row an entry for
/// each body.
pub open spec fn square(contacts: Seq<Seq<bool>>, side: nat) -> bool {
    &&& contacts.len() == side
    &&& forall|i: int| 0 <= i < side ==> (#[trigger] contacts[i]).len() == side
}

/// Whether body `j` ran into body `i`: the contacts say so, and the two are
/// not one and the same body.
pub open spec fn partner(bodies: Seq<Movable>, contacts: Seq<Seq<bool>>, i: int, j: int) -> bool {
    contacts[i][j] && bodies[j].get_id() != bodies[i].get_id()
}

/// Whether some body ran into body `i`.
pub open spec fn collides(bodies: Seq<Movable>, contacts: Seq<Seq<bool>>, i: int) -> bool {
    exists|j: int| 0 <= j < bodies.len() && #[trigger] partner(bodies, contacts, i, j)
}

/// The bodies among the first `upto` that ran into body `i`. Of two that
/// carry one identifier the group holds the first.
pub open spec fn partners(bodies: Seq<Movable>, contacts: Seq<Seq<bool>>, i: int, upto: nat) -> Group
    decreases upto,
{
    if upto == 0 {
        Map::empty()
    } else {
        let before = partners(bodies, contacts, i, (upto - 1) as nat);
        let other = bodies[upto - 1];
        if partner(bodies, contacts, i, upto - 1) && !before.contains_key(other.get_id()) {
            before.insert(other.get_id(), other.kind())
        } else {
            before
        }
    }
}

/// Body `i` together with all the bodies that ran into it.
pub open spec fn contact_group(bodies: Seq<Movable>, contacts: Seq<Seq<bool>>, i: int) -> Group {
    partners(bodies, contacts, i, bodies.len()).insert(bodies[i].get_id(), bodies[i].kind())
}

/// The groups of the frame once the first `upto` bodies have been looked at:
/// each of them that some body ran into has brought in its group.
pub open spec fn scanned(bodies: Seq<Movable>, contacts: Seq<Seq<bool>>, upto: nat) -> Seq<Group>
    decreases upto,
{
    if upto == 0 {
        Seq::empty()
    } else {
        let before = scanned(bodies, contacts, (upto - 1) as nat);
        if collides(bodies, contacts, upto - 1) {
            pushed(before, contact_group(bodies, contacts, upto - 1))
        } else {
            before
        }
    }
}

/// Whether body `k` took part in a collision: some body ran into it, or it
/// ran into some body.
pub open spec fn involved(bodies: Seq<Movable>, contacts: Seq<Seq<bool>>, k: int) -> bool {
    collides(bodies, contacts, k) || exists|i: int|
        0 <= i < bodies.len() && #[trigger] partner(bodies, contacts, i, k)
}

/// The places, among the first `upto` bodies, of those that took part in a
/// collision.
pub open spec fn removed(bodies: Seq<Movable>, contacts: Seq<Seq<bool>>, upto: nat) -> Seq<int>
    decreases upto,
{
    if upto == 0 {
        Seq::empty()
    } else {
        let before = removed(bodies, contacts, (upto - 1) as nat);
        if involved(bodies, contacts, upto - 1) {
            before.push(upto - 1)
        } else {
            before
        }
    }
}

/// How many of the bodies are of kind `otype`.
pub open spec fn count_of(bodies: Seq<Movable>, otype: ObjectType) -> nat
    decreases bodies.len(),
{
    if bodies.len() == 0 {
        0
    } else {
        count_of(bodies.drop_last(), otype) + if bodies.last().kind() == otype {
            1nat
        } else {
            0nat
        }
    }
}

/// The places, among the first `upto` bodies, of the first `limit` bodies of
/// kind `otype`.
pub open spec fn first_of_kind(bodies: Seq<Movable>, otype: ObjectType, limit: nat, upto: nat) -> Seq<
    int,
>
    decreases upto,
{
    if upto == 0 {
        Seq::empty()
    } else {
        let before = first_of_kind(bodies, otype, limit, (upto - 1) as nat);
        if bodies[upto - 1].kind() == otype && before.len() < limit {
            before.push(upto - 1)
        } else {
            before
        }
    }
}

/// A body that ran into body `i` is among its partners, and nothing else is.
pub proof fn lemma_partners(bodies: Seq<Movable>, contacts: Seq<Seq<bool>>, i: int, upto: nat)
    requires
        upto <= bodies.len(),
    ensures
        forall|id: u32| #[trigger]
            partners(bodies, contacts, i, upto).contains_key(id) <==> exists|j: int|
                0 <= j < upto && #[trigger] partner(bodies, contacts, i, j) && bodies[j].get_id() == id,
        !partners(bodies, contacts, i, upto).contains_key(bodies[i].get_id()),
    decreases upto,
{
    if upto > 0 {
        lemma_partners(bodies, contacts, i, (upto - 1) as nat);
        let before = partners(bodies, contacts, i, (upto - 1) as nat);
        assert forall|id: u32| #[trigger]
            partners(bodies, contacts, i, upto).contains_key(id) <==> exists|j: int|
                0 <= j < upto && #[trigger] partner(bodies, contacts, i, j) && bodies[j].get_id()
                    == id by {
            if before.contains_key(id) {
                let j = choose|j: int|
                    0 <= j < upto - 1 && #[trigger] partner(bodies, contacts, i, j) && bodies[j].get_id()
                        == id;
                assert(partner(bodies, contacts, i, j) && bodies[j].get_id() == id);
            }
            if partner(bodies, contacts, i, upto - 1) && bodies[upto - 1].get_id() == id {
                assert(partners(bodies, contacts, i, upto).contains_key(id));
            }
        }
    }
}

/// Body `i` is not among the bodies that ran into it.
proof fn lemma_partners_exclude_self(bodies: Seq<Movable>, contacts: Seq<Seq<bool>>, i: int)
    ensures
        !partners(bodies, contacts, i, bodies.len()).contains_key(bodies[i].get_id()),
{
    lemma_partners(bodies, contacts, i, bodies.len());
}

/// Gathers the bodies that ran into body `i` and says whether there are any.
fn gather_partners(bodies: &[Movable], contacts: &Vec<Vec<bool>>, i: usize) -> (found: (
    CollisionSet,
    bool,
))
    requires
        square(rows(contacts@), bodies@.len()),
        i < bodies@.len(),
    ensures
        found.0@ == partners(bodies@, rows(contacts@), i as int, bodies@.len()),
        found.1 == collides(bodies@, rows(contacts@), i as int),
{
    let n: usize = bodies.len();
    let ghost table = rows(contacts@);
    let mut set = CollisionSet::new();
    let mut collide = false;
    let mut j: usize = 0;
    assert(table[i as int] == contacts@[i as int]@);
    assert(table[i as int].len() == n);
    while j < n
        invariant
            j <= n,
            i < n,
            n == bodies@.len(),
            contacts@.len() == n,
            contacts@[i as int]@.len() == n,
            table[i as int] == contacts@[i as int]@,
            set@ == partners(bodies@, table, i as int, j as nat),
            collide <==> exists|b: int| 0 <= b < j && #[trigger] partner(bodies@, table, i as int, b),
        decreases n - j,
    {
        if contacts[i][j] && bodies[j].get_id() != bodies[i].get_id() {
            assert(partner(bodies@, table, i as int, j as int));
            collide = true;
            set.append(&bodies[j]);
        }
        j += 1;
    }
    (set, collide)
}

/// Tells whether body `k` took part in a collision.
fn took_part(bodies: &[Movable], contacts: &Vec<Vec<bool>>, k: usize) -> (found: bool)
    requires
        square(rows(contacts@), bodies@.len()),
        k < bodies@.len(),
    ensures
        found == involved(bodies@, rows(contacts@), k as int),
{
    let n: usize = bodies.len();
    let ghost table = rows(contacts@);
    let id: u32 = bodies[k].get_id();
    let mut i: usize = 0;
    assert(table[k as int] == contacts@[k as int]@);
    while i < n
        invariant
            i <= n,
            k < n,
            n == bodies@.len(),
            id == bodies@[k as int].get_id(),
            table == rows(contacts@),
            square(table, n as nat),
            forall|a: int| 0 <= a < i ==> !#[trigger] partner(bodies@, table, k as int, a),
            forall|a: int| 0 <= a < i ==> !#[trigger] partner(bodies@, table, a, k as int),
        decreases n - i,
    {
        assert(table[k as int] == contacts@[k as int]@);
        assert(table[i as int] == contacts@[i as int]@);
        if (contacts[k][i] || contacts[i][k]) && bodies[i].get_id() != id {
            assert(partner(bodies@, table, k as int, i as int) || partner(
                bodies@,
                table,
                i as int,
                k as int,
            ));
            return true;
        }
        i += 1;
    }
    false
}

/// Looks at every body of the frame in turn and gathers the bodies that ran
/// into it; where there are any, the body and they form a group, which is
/// brought into the frame. `contacts[i][j]` says whether body `j` ran into
/// body `i`.
///
/// Gives back the groups, and with them the places of the bodies that leave
/// the universe: every body that took part in a collision.
pub fn update_collisions(bodies: &[Movable], contacts: &Vec<Vec<bool>>) -> (found: (
    Vec<usize>,
    CollisionFrame,
))
    requires
        square(rows(contacts@), bodies@.len()),
    ensures
        found.1@ == scanned(bodies@, rows(contacts@), bodies@.len()),
        pairwise_disjoint(found.1@),
        found.0@.len() == removed(bodies@, rows(contacts@), bodies@.len()).len(),
        forall|k: int|
            0 <= k < found.0@.len() ==> (#[trigger] found.0@[k]) == removed(
                bodies@,
                rows(contacts@),
                bodies@.len(),
            )[k],
{
    let n: usize = bodies.len();
    let ghost table = rows(contacts@);
    let mut frame = CollisionFrame::new();
    assert(pairwise_disjoint(frame@));
    let mut i: usize = 0;
    while i < n
        invariant
            i <= n,
            n == bodies@.len(),
            table == rows(contacts@),
            square(table, n as nat),
            frame@ == scanned(bodies@, table, i as nat),
            pairwise_disjoint(frame@),
        decreases n - i,
    {
        let (mut set, collide) = gather_partners(bodies, contacts, i);

        if collide {
            proof {
                lemma_partners_exclude_self(bodies@, table, i as int);
            }
            set.append(&bodies[i]);
            assert(set@ == contact_group(bodies@, table, i as int));
            frame.push(set);
        }
        i += 1;
    }

    let mut leaving: Vec<usize> = Vec::new();
    let mut k: usize = 0;
    while k < n
        invariant
            k <= n,
            n == bodies@.len(),
            table == rows(contacts@),
            square(table, n as nat),
            leaving@.len() == removed(bodies@, table, k as nat).len(),
            forall|a: int|
                0 <= a < leaving@.len() ==> (#[trigger] leaving@[a]) == removed(
                    bodies@,
                    table,
                    k as nat,
                )[a],
        decreases n - k,
    {
        if took_part(bodies, contacts, k) {
            leaving.push(k);
        }
        k += 1;
    }
    (leaving, frame)
}

/// Whether a body with the identifier `a` ran into one with the identifier
/// `b`, or the other way round.
pub open spec fn touching(bodies: Seq<Movable>, contacts: Seq<Seq<bool>>, a: u32, b: u32) -> bool {
    exists|i: int, j: int|
        0 <= i < bodies.len() && 0 <= j < bodies.len() && #[trigger] partner(bodies, contacts, i, j)
            && ((bodies[i].get_id() == a && bodies[j].get_id() == b) || (bodies[i].get_id() == b
            && bodies[j].get_id() == a))
}

/// Whether each body of `path` ran into the next one, or the next one into it.
pub open spec fn chain(bodies: Seq<Movable>, contacts: Seq<Seq<bool>>, path: Seq<u32>) -> bool {
    &&& path.len() > 0
    &&& forall|k: int|
        0 <= k < path.len() - 1 ==> touching(bodies, contacts, #[trigger] path[k], path[k + 1])
}

/// Whether a chain of contacts leads from the body `a` to the body `b`.
pub open spec fn linked(bodies: Seq<Movable>, contacts: Seq<Seq<bool>>, a: u32, b: u32) -> bool {
    exists|path: Seq<u32>| #[trigger]
        chain(bodies, contacts, path) && path.first() == a && path.last() == b
}

/// Every body is linked to itself.
pub proof fn lemma_linked_reflexive(bodies: Seq<Movable>, contacts: Seq<Seq<bool>>, a: u32)
    ensures
        linked(bodies, contacts, a, a),
{
    let path = seq![a];
    assert(chain(bodies, contacts, path) && path.first() == a && path.last() == a);
}

/// Bodies of which one ran into the other are linked.
pub proof fn lemma_linked_step(bodies: Seq<Movable>, contacts: Seq<Seq<bool>>, a: u32, b: u32)
    requires
        touching(bodies, contacts, a, b),
    ensures
        linked(bodies, contacts, a, b),
{
    let path = seq![a, b];
    assert(chain(bodies, contacts, path) && path.first() == a && path.last() == b);
}

/// A chain of contacts can be walked backwards.
pub proof fn lemma_linked_symmetric(bodies: Seq<Movable>, contacts: Seq<Seq<bool>>, a: u32, b: u32)
    requires
        linked(bodies, contacts, a, b),
    ensures
        linked(bodies, contacts, b, a),
{
    let path = choose|path: Seq<u32>| #[trigger]
        chain(bodies, contacts, path) && path.first() == a && path.last() == b;
    let back = Seq::new(path.len(), |k: int| path[path.len() - 1 - k]);
    assert forall|k: int| 0 <= k < back.len() - 1 implies touching(
        bodies,
        contacts,
        #[trigger] back[k],
        back[k + 1],
    ) by {
        let at = path.len() - 2 - k;
        assert(touching(bodies, contacts, path[at], path[at + 1]));
        let (i, j) = choose|i: int, j: int|
            0 <= i < bodies.len() && 0 <= j < bodies.len() && #[trigger] partner(bodies, contacts, i, j)
                && ((bodies[i].get_id() == path[at] && bodies[j].get_id() == path[at + 1]) || (
            bodies[i].get_id() == path[at + 1] && bodies[j].get_id() == path[at]));
        assert(partner(bodies, contacts, i, j));
    }
    assert(chain(bodies, contacts, back) && back.first() == b && back.last() == a);
}

/// Two chains of contacts that meet make one chain.
pub proof fn lemma_linked_transitive(
    bodies: Seq<Movable>,
    contacts: Seq<Seq<bool>>,
    a: u32,
    b: u32,
    c: u32,
)
    requires
        linked(bodies, contacts, a, b),
        linked(bodies, contacts, b, c),
    ensures
        linked(bodies, contacts, a, c),
{
    let one = choose|path: Seq<u32>| #[trigger]
        chain(bodies, contacts, path) && path.first() == a && path.last() == b;
    let two = choose|path: Seq<u32>| #[trigger]
        chain(bodies, contacts, path) && path.first() == b && path.last() == c;
    let both = one + two.drop_first();
    assert forall|k: int| 0 <= k < both.len() - 1 implies touching(
        bodies,
        contacts,
        #[trigger] both[k],
        both[k + 1],
    ) by {
        if k < one.len() - 1 {
            assert(touching(bodies, contacts, one[k], one[k + 1]));
        } else {
            let at = k - one.len() + 1;
            assert(touching(bodies, contacts, two[at], two[at + 1]));
            assert(both[k] == two[at]);
        }
    }
    assert(both.last() == c) by {
        if two.len() == 1 {
            assert(both =~= one);
        }
    }
    assert(chain(bodies, contacts, both) && both.first() == a && both.last() == c);
}

/// The groups that the scan of the first `upto` bodies leaves share no body.
pub proof fn lemma_scan_disjoint(bodies: Seq<Movable>, contacts: Seq<Seq<bool>>, upto: nat)
    ensures
        pairwise_disjoint(scanned(bodies, contacts, upto)),
    decreases upto,
{
    if upto > 0 {
        lemma_scan_disjoint(bodies, contacts, (upto - 1) as nat);
        if collides(bodies, contacts, upto - 1) {
            lemma_push_keeps_disjoint(
                scanned(bodies, contacts, (upto - 1) as nat),
                contact_group(bodies, contacts, upto - 1),
            );
        }
    }
}

/// Once body `i` has been looked at, it stands in one group with every body
/// that ran into it.
pub proof fn lemma_scan_groups_partners(
    bodies: Seq<Movable>,
    contacts: Seq<Seq<bool>>,
    upto: nat,
    i: int,
    j: int,
)
    requires
        0 <= i < upto <= bodies.len(),
        0 <= j < bodies.len(),
        partner(bodies, contacts, i, j),
    ensures
        grouped_together(scanned(bodies, contacts, upto), bodies[i].get_id(), bodies[j].get_id()),
    decreases upto,
{
    let before = scanned(bodies, contacts, (upto - 1) as nat);
    let group = contact_group(bodies, contacts, upto - 1);
    if i == upto - 1 {
        assert(collides(bodies, contacts, i));
        lemma_partners(bodies, contacts, i, bodies.len());
        assert(group.contains_key(bodies[j].get_id()));
        assert(group.contains_key(bodies[i].get_id()));
        lemma_push_groups_together(before, group);
    } else {
        lemma_scan_groups_partners(bodies, contacts, (upto - 1) as nat, i, j);
        if collides(bodies, contacts, upto - 1) {
            lemma_push_groups_together(before, group);
        }
    }
}

/// A body is a member of a group exactly if some body ran into it, or it ran
/// into some body.
pub proof fn lemma_scan_members(bodies: Seq<Movable>, contacts: Seq<Seq<bool>>, upto: nat, id: u32)
    requires
        upto <= bodies.len(),
    ensures
        members(scanned(bodies, contacts, upto)).contains(id) <==> exists|i: int, j: int|
            0 <= i < upto && 0 <= j < bodies.len() && #[trigger] partner(bodies, contacts, i, j) && (
            bodies[i].get_id() == id || bodies[j].get_id() == id),
    decreases upto,
{
    if upto > 0 {
        let before = scanned(bodies, contacts, (upto - 1) as nat);
        let group = contact_group(bodies, contacts, upto - 1);
        lemma_scan_members(bodies, contacts, (upto - 1) as nat, id);
        lemma_partners(bodies, contacts, upto - 1, bodies.len());
        if collides(bodies, contacts, upto - 1) {
            lemma_push_members(before, group);
            assert(members(pushed(before, group)).contains(id) == members(before).union(
                group.dom(),
            ).contains(id));
            if group.contains_key(id) {
                if id == bodies[upto - 1].get_id() {
                    let j = choose|j: int|
                        0 <= j < bodies.len() && #[trigger] partner(bodies, contacts, upto - 1, j);
                    assert(partner(bodies, contacts, upto - 1, j));
                } else {
                    let j = choose|j: int|
                        0 <= j < bodies.len() && #[trigger] partner(bodies, contacts, upto - 1, j)
                            && bodies[j].get_id() == id;
                    assert(partner(bodies, contacts, upto - 1, j));
                }
            }
        }
        if exists|i: int, j: int|
            0 <= i < upto && 0 <= j < bodies.len() && #[trigger] partner(bodies, contacts, i, j) && (
            bodies[i].get_id() == id || bodies[j].get_id() == id) {
            let (i, j) = choose|i: int, j: int|
                0 <= i < upto && 0 <= j < bodies.len() && #[trigger] partner(bodies, contacts, i, j)
                    && (bodies[i].get_id() == id || bodies[j].get_id() == id);
            if i == upto - 1 {
                assert(collides(bodies, contacts, upto - 1));
                assert(group.contains_key(bodies[j].get_id()));
                assert(group.dom().contains(id));
            } else {
                assert(partner(bodies, contacts, i, j));
                assert(members(before).contains(id));
            }
        }
    } else {
        assert(members(scanned(bodies, contacts, upto)) =~= Set::<u32>::empty());
    }
}

/// The bodies that leave the universe are those whose identifier is a member
/// of some group: a body that took part in a collision is a member, and every
/// member is the identifier of a body that took part in one.
pub proof fn lemma_removed_are_members(bodies: Seq<Movable>, contacts: Seq<Seq<bool>>)
    ensures
        forall|k: int|
            0 <= k < bodies.len() && #[trigger] involved(bodies, contacts, k) ==> members(
                scanned(bodies, contacts, bodies.len()),
            ).contains(bodies[k].get_id()),
        forall|id: u32| #[trigger]
            members(scanned(bodies, contacts, bodies.len())).contains(id) ==> exists|k: int|
                0 <= k < bodies.len() && #[trigger] involved(bodies, contacts, k) && bodies[k].get_id()
                    == id,
{
    let groups = scanned(bodies, contacts, bodies.len());
    assert forall|k: int| 0 <= k < bodies.len() && #[trigger] involved(
        bodies,
        contacts,
        k,
    ) implies members(groups).contains(bodies[k].get_id()) by {
        lemma_scan_members(bodies, contacts, bodies.len(), bodies[k].get_id());
        if collides(bodies, contacts, k) {
            let j = choose|j: int| 0 <= j < bodies.len() && #[trigger] partner(bodies, contacts, k, j);
            assert(partner(bodies, contacts, k, j));
        } else {
            let i = choose|i: int| 0 <= i < bodies.len() && #[trigger] partner(bodies, contacts, i, k);
            assert(partner(bodies, contacts, i, k));
        }
    }
    assert forall|id: u32| #[trigger] members(groups).contains(id) implies exists|k: int|
        0 <= k < bodies.len() && #[trigger] involved(bodies, contacts, k) && bodies[k].get_id()
            == id by {
        lemma_scan_members(bodies, contacts, bodies.len(), id);
        let (i, j) = choose|i: int, j: int|
            0 <= i < bodies.len() && 0 <= j < bodies.len() && #[trigger] partner(bodies, contacts, i, j)
                && (bodies[i].get_id() == id || bodies[j].get_id() == id);
        if bodies[i].get_id() == id {
            assert(collides(bodies, contacts, i));
            assert(involved(bodies, contacts, i));
        } else {
            assert(partner(bodies, contacts, i, j));
            assert(involved(bodies, contacts, j));
        }
    }
}

/// Bodies stand in one group only if a chain of contacts leads from one to
/// the other.
pub proof fn lemma_grouped_are_linked(
    bodies: Seq<Movable>,
    contacts: Seq<Seq<bool>>,
    upto: nat,
    a: u32,
    b: u32,
)
    requires
        upto <= bodies.len(),
        grouped_together(scanned(bodies, contacts, upto), a, b),
    ensures
        linked(bodies, contacts, a, b),
    decreases upto,
{
    let after = scanned(bodies, contacts, upto);
    let before = scanned(bodies, contacts, (upto - 1) as nat);
    let at = choose|k: int|
        0 <= k < after.len() && (#[trigger] after[k]).contains_key(a) && after[k].contains_key(b);
    if !collides(bodies, contacts, upto - 1) {
        assert(before[at].contains_key(a) && before[at].contains_key(b));
        lemma_grouped_are_linked(bodies, contacts, (upto - 1) as nat, a, b);
    } else {
        let group = contact_group(bodies, contacts, upto - 1);
        let joined = absorbed(before, group, before.len());
        if after[at] == joined {
            let hub = bodies[upto - 1].get_id();
            lemma_joined_linked_to_hub(bodies, contacts, upto, a);
            lemma_joined_linked_to_hub(bodies, contacts, upto, b);
            lemma_linked_symmetric(bodies, contacts, b, hub);
            lemma_linked_transitive(bodies, contacts, a, hub, b);
        } else {
            let origin = lemma_pushed_origin(before, group, at);
            assert(before[origin].contains_key(a) && before[origin].contains_key(b));
            lemma_grouped_are_linked(bodies, contacts, (upto - 1) as nat, a, b);
        }
    }
}

/// Every member of the group that body `upto - 1` was joined into is linked
/// to that body.
proof fn lemma_joined_linked_to_hub(
    bodies: Seq<Movable>,
    contacts: Seq<Seq<bool>>,
    upto: nat,
    a: u32,
)
    requires
        0 < upto <= bodies.len(),
        collides(bodies, contacts, upto - 1),
        absorbed(
            scanned(bodies, contacts, (upto - 1) as nat),
            contact_group(bodies, contacts, upto - 1),
            scanned(bodies, contacts, (upto - 1) as nat).len(),
        ).contains_key(a),
    ensures
        linked(bodies, contacts, a, bodies[upto - 1].get_id()),
    decreases upto, 0nat,
{
    let before = scanned(bodies, contacts, (upto - 1) as nat);
    let group = contact_group(bodies, contacts, upto - 1);
    let hub = bodies[upto - 1].get_id();
    lemma_absorbed_members(before, group, before.len());
    if group.contains_key(a) {
        lemma_group_linked_to_hub(bodies, contacts, upto - 1, a);
    } else {
        let t = choose|t: int|
            0 <= t < before.len() && touches(#[trigger] before[t], group) && before[t].contains_key(a);
        let shared = choose|id: u32| before[t].dom().contains(id) && group.dom().contains(id);
        assert(before[t].contains_key(a) && before[t].contains_key(shared));
        assert(grouped_together(before, a, shared));
        lemma_grouped_are_linked(bodies, contacts, (upto - 1) as nat, a, shared);
        lemma_group_linked_to_hub(bodies, contacts, upto - 1, shared);
        lemma_linked_transitive(bodies, contacts, a, shared, hub);
    }
}

/// Every member of the group of body `i` is linked to body `i`.
proof fn lemma_group_linked_to_hub(bodies: Seq<Movable>, contacts: Seq<Seq<bool>>, i: int, a: u32)
    requires
        0 <= i < bodies.len(),
        contact_group(bodies, contacts, i).contains_key(a),
    ensures
        linked(bodies, contacts, a, bodies[i].get_id()),
{
    let hub = bodies[i].get_id();
    if a == hub {
        lemma_linked_reflexive(bodies, contacts, a);
    } else {
        lemma_partners(bodies, contacts, i, bodies.len());
        let j = choose|j: int|
            0 <= j < bodies.len() && #[trigger] partner(bodies, contacts, i, j) && bodies[j].get_id()
                == a;
        assert(partner(bodies, contacts, i, j));
        assert(touching(bodies, contacts, a, hub));
        lemma_linked_step(bodies, contacts, a, hub);
    }
}

/// Bodies stand in one group after the scan whenever a chain of contacts
/// leads from one to the other.
pub proof fn lemma_linked_are_grouped(
    bodies: Seq<Movable>,
    contacts: Seq<Seq<bool>>,
    a: u32,
    b: u32,
)
    requires
        linked(bodies, contacts, a, b),
        a != b,
    ensures
        grouped_together(scanned(bodies, contacts, bodies.len()), a, b),
{
    let path = choose|path: Seq<u32>| #[trigger]
        chain(bodies, contacts, path) && path.first() == a && path.last() == b;
    lemma_chain_grouped(bodies, contacts, path, path.len() - 1);
}

/// The first body of a chain of contacts stands in one group with every
/// other body of the chain.
proof fn lemma_chain_grouped(bodies: Seq<Movable>, contacts: Seq<Seq<bool>>, path: Seq<u32>, at: int)
    requires
        chain(bodies, contacts, path),
        1 <= at < path.len(),
    ensures
        grouped_together(scanned(bodies, contacts, bodies.len()), path[0], path[at]),
    decreases at,
{
    let groups = scanned(bodies, contacts, bodies.len());
    let x = path[at - 1];
    let y = path[at];
    assert(touching(bodies, contacts, path[at - 1], path[at - 1 + 1]));
    let (i, j) = choose|i: int, j: int|
        0 <= i < bodies.len() && 0 <= j < bodies.len() && #[trigger] partner(bodies, contacts, i, j)
            && ((bodies[i].get_id() == x && bodies[j].get_id() == y) || (bodies[i].get_id() == y
            && bodies[j].get_id() == x));
    lemma_scan_groups_partners(bodies, contacts, bodies.len(), i, j);
    assert(grouped_together(groups, x, y)) by {
        let k = choose|k: int|
            0 <= k < groups.len() && (#[trigger] groups[k]).contains_key(bodies[i].get_id())
                && groups[k].contains_key(bodies[j].get_id());
        assert(groups[k].contains_key(x) && groups[k].contains_key(y));
    }
    if at > 1 {
        lemma_chain_grouped(bodies, contacts, path, at - 1);
        lemma_scan_disjoint(bodies, contacts, bodies.len());
        lemma_grouped_transitive(groups, path[0], x, y);
    }
}

/// Picks the black holes that leave when the universe is to hold `surplus`
/// black holes fewer: the first `surplus` of them, or all where there are not
/// as many. Gives back their places among `objects`.
pub fn surplus_blackholes(objects: &[Movable], surplus: usize) -> (leaving: Vec<usize>)
    ensures
        leaving@.len() == first_of_kind(
            objects@,
            ObjectType::BlackHole,
            surplus as nat,
            objects@.len(),
        ).len(),
        forall|k: int|
            0 <= k < leaving@.len() ==> (#[trigger] leaving@[k]) == first_of_kind(
                objects@,
                ObjectType::BlackHole,
                surplus as nat,
                objects@.len(),
            )[k],
{
    let mut leaving: Vec<usize> = Vec::new();
    let mut k: usize = 0;
    while k < objects.len()
        invariant
            k <= objects@.len(),
            leaving@.len() <= k,
            leaving@.len() == first_of_kind(
                objects@,
                ObjectType::BlackHole,
                surplus as nat,
                k as nat,
            ).len(),
            forall|a: int|
                0 <= a < leaving@.len() ==> (#[trigger] leaving@[a]) == first_of_kind(
                    objects@,
                    ObjectType::BlackHole,
                    surplus as nat,
                    k as nat,
                )[a],
        decreases objects@.len() - k,
    {
        if objects[k].kind() == ObjectType::BlackHole && leaving.len() < surplus {
            leaving.push(k);
        }
        k += 1;
    }
    leaving
}

/// Notes that the player has placed a world. Worlds can be placed until the
/// game starts; says whether this one was.
pub fn place_planet(state: &mut GameState) -> (placed: bool)
    ensures
        placed == !old(state).game_started,
        final(state).planet_placed == (old(state).planet_placed || placed),
        final(state).game_started == old(state).game_started,
        final(state).world_alive == old(state).world_alive,
        final(state).game_alive == old(state).game_alive,
        final(state).restart_clicked == old(state).restart_clicked,
{
    if state.game_started {
        return false;
    }
    state.planet_placed = true;
    true
}

/// Starts the game when the player lets go of the world: the game starts once
/// a world has been placed, and it starts only once.
pub fn check_for_start(state: &mut GameState)
    ensures
        final(state).game_started == (old(state).game_started || old(state).planet_placed),
        final(state).world_alive == old(state).world_alive,
        final(state).game_alive == old(state).game_alive,
        final(state).planet_placed == old(state).planet_placed,
        final(state).restart_clicked == old(state).restart_clicked,
{
    if state.game_started || !state.planet_placed {
        return ;
    }
    state.game_started = true;
}

/// Counts the black holes and the worlds among `objects` and, once the game
/// has started, marks what has ended: the world when no world is left, the
/// game when at most one body is left. Gives back the two counts, black holes
/// first.
pub fn check_for_gameover(objects: &[Movable], state: &mut GameState) -> (counts: (usize, usize))
    ensures
        counts.0 == count_of(objects@, ObjectType::BlackHole),
        counts.1 == count_of(objects@, ObjectType::World),
        final(state).world_alive == (old(state).world_alive && !(old(state).game_started
            && counts.1 == 0)),
        final(state).game_alive == (old(state).game_alive && !(old(state).game_started
            && objects@.len() <= 1)),
        final(state).game_started == old(state).game_started,
        final(state).planet_placed == old(state).planet_placed,
        final(state).restart_clicked == old(state).restart_clicked,
{
    let mut bh_count: usize = 0;
    let mut planet_count: usize = 0;

    let mut k: usize = 0;
    while k < objects.len()
        invariant
            k <= objects@.len(),
            bh_count == count_of(objects@.take(k as int), ObjectType::BlackHole),
            planet_count == count_of(objects@.take(k as int), ObjectType::World),
            bh_count + planet_count == k,
        decreases objects@.len() - k,
    {
        assert(objects@.take(k + 1).drop_last() =~= objects@.take(k as int));
        match objects[k].kind() {
            ObjectType::BlackHole => bh_count += 1,
            ObjectType::World => planet_count += 1,
        }
        k += 1;
    }
    assert(objects@.take(k as int) =~= objects@);

    if state.game_started {
        if planet_count == 0 {
            state.world_alive = false;
        }
        if bh_count + planet_count <= 1 {
            state.game_alive = false;
        }
    }

    (bh_count, planet_count)
}

} // verus!

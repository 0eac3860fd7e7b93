//! The collisions of one frame, kept as groups that share no body.

use crate::objects::collision_set::{group_left, group_used, CollisionSet, Group};
use crate::objects::movables::{
    blackholes_numbered, CollisionResult, IdAllocator, Movable, ObjectType,
};
use vstd::prelude::*;

verus! {

/// Whether two groups share a member.
pub open spec fn touches(group: Group, other: Group) -> bool {
    !group.dom().disjoint(other.dom())
}

/// Whether no body is a member of two of the groups.
pub open spec fn pairwise_disjoint(groups: Seq<Group>) -> bool {
    forall|i: int, j: int|
        0 <= i < j < groups.len() ==> (#[trigger] groups[i]).dom().disjoint(
            (#[trigger] groups[j]).dom(),
        )
}

/// Whether some group shares a member with `new`.
pub open spec fn any_touched(groups: Seq<Group>, new: Group) -> bool {
    exists|i: int| 0 <= i < groups.len() && touches(#[trigger] groups[i], new)
}

/// The place of the first group that shares a member with `new`.
pub open spec fn first_touched(groups: Seq<Group>, new: Group) -> int
    recommends
        any_touched(groups, new),
{
    choose|f: int|
        0 <= f < groups.len() && touches(#[trigger] groups[f], new) && forall|i: int|
            0 <= i < f ==> !touches(#[trigger] groups[i], new)
}

/// The group `new` joined with every one of the first `upto` groups that
/// shares a member with it. A body that `new` and such a group both hold is
/// taken from the group.
pub open spec fn absorbed(groups: Seq<Group>, new: Group, upto: nat) -> Group
    decreases upto,
{
    if upto == 0 {
        new
    } else {
        let before = absorbed(groups, new, (upto - 1) as nat);
        if upto <= groups.len() && touches(groups[upto - 1], new) {
            before.union_prefer_right(groups[upto - 1])
        } else {
            before
        }
    }
}

/// The groups that share no member with `new`, in their order.
pub open spec fn untouched(groups: Seq<Group>, new: Group) -> Seq<Group>
    decreases groups.len(),
{
    if groups.len() == 0 {
        Seq::empty()
    } else {
        let before = untouched(groups.drop_last(), new);
        if touches(groups.last(), new) {
            before
        } else {
            before.push(groups.last())
        }
    }
}

/// The groups after `new` has been brought in. Where no group shares a member
/// with `new`, it is added at the end. Otherwise all the groups that share a
/// member with it are joined with it into one group, which stands where the
/// first of them stood; the other groups keep their order.
pub open spec fn pushed(groups: Seq<Group>, new: Group) -> Seq<Group> {
    if any_touched(groups, new) {
        let first = first_touched(groups, new);
        groups.take(first).push(absorbed(groups, new, groups.len())) + untouched(
            groups.skip(first + 1),
            new,
        )
    } else {
        groups.push(new)
    }
}

/// The bodies that are members of some group.
pub open spec fn members(groups: Seq<Group>) -> Set<u32> {
    Set::new(|id: u32| exists|i: int| 0 <= i < groups.len() && (#[trigger] groups[i]).contains_key(id))
}

/// Whether two bodies are members of one and the same group.
pub open spec fn grouped_together(groups: Seq<Group>, a: u32, b: u32) -> bool {
    exists|i: int|
        0 <= i < groups.len() && (#[trigger] groups[i]).contains_key(a) && groups[i].contains_key(b)
}

/// How many fresh identifiers the collisions of all the groups use up.
pub open spec fn frame_used(groups: Seq<Group>) -> nat
    decreases groups.len(),
{
    if groups.len() == 0 {
        0
    } else {
        frame_used(groups.drop_last()) + group_used(groups.last())
    }
}

/// The identifiers of the bodies that the collisions of all the groups leave
/// behind, group after group, where `next` is the first free identifier.
pub open spec fn frame_left(groups: Seq<Group>, next: int) -> Seq<int>
    decreases groups.len(),
{
    if groups.len() == 0 {
        Seq::empty()
    } else {
        frame_left(groups.drop_last(), next) + group_left(
            groups.last(),
            next + frame_used(groups.drop_last()),
        )
    }
}

/// Where some group shares a member with `new`, one of them is the first.
pub proof fn lemma_first_touched(groups: Seq<Group>, new: Group)
    requires
        any_touched(groups, new),
    ensures
        0 <= first_touched(groups, new) < groups.len(),
        touches(groups[first_touched(groups, new)], new),
        forall|i: int| 0 <= i < first_touched(groups, new) ==> !touches(#[trigger] groups[i], new),
{
    let first = lemma_first_from(groups, new, 0);
    assert(touches(groups[first], new));
}

/// Finds the first group from place `from` on that shares a member with `new`.
proof fn lemma_first_from(groups: Seq<Group>, new: Group, from: int) -> (first: int)
    requires
        0 <= from <= groups.len(),
        forall|i: int| 0 <= i < from ==> !touches(#[trigger] groups[i], new),
        exists|i: int| from <= i < groups.len() && touches(#[trigger] groups[i], new),
    ensures
        0 <= first < groups.len(),
        touches(groups[first], new),
        forall|i: int| 0 <= i < first ==> !touches(#[trigger] groups[i], new),
    decreases groups.len() - from,
{
    let witness = choose|i: int| from <= i < groups.len() && touches(#[trigger] groups[i], new);
    if touches(groups[from], new) {
        from
    } else {
        assert(touches(groups[witness], new));
        lemma_first_from(groups, new, from + 1)
    }
}

/// A body is in the joined group exactly if it is in `new` or in one of the
/// groups that were joined with it.
pub proof fn lemma_absorbed_members(groups: Seq<Group>, new: Group, upto: nat)
    requires
        upto <= groups.len(),
    ensures
        forall|id: u32| #[trigger]
            absorbed(groups, new, upto).contains_key(id) <==> new.contains_key(id) || exists|i: int|
                0 <= i < upto && touches(#[trigger] groups[i], new) && groups[i].contains_key(id),
        !(exists|i: int| 0 <= i < upto && touches(#[trigger] groups[i], new)) ==> absorbed(
            groups,
            new,
            upto,
        ) == new,
    decreases upto,
{
    if upto > 0 {
        let before = absorbed(groups, new, (upto - 1) as nat);
        lemma_absorbed_members(groups, new, (upto - 1) as nat);
        let last = groups[upto - 1];
        assert forall|id: u32| #[trigger]
            absorbed(groups, new, upto).contains_key(id) <==> new.contains_key(id) || exists|i: int|
                0 <= i < upto && touches(#[trigger] groups[i], new) && groups[i].contains_key(id) by {
            if touches(last, new) && last.contains_key(id) {
                assert(touches(groups[upto - 1], new) && groups[upto - 1].contains_key(id));
            }
            if before.contains_key(id) && !new.contains_key(id) {
                let i = choose|i: int|
                    0 <= i < upto - 1 && touches(#[trigger] groups[i], new) && groups[i].contains_key(
                        id,
                    );
                assert(touches(groups[i], new) && groups[i].contains_key(id));
            }
        }
        if !(exists|i: int| 0 <= i < upto && touches(#[trigger] groups[i], new)) {
            assert(!touches(groups[upto - 1], new));
            assert(!(exists|i: int| 0 <= i < upto - 1 && touches(#[trigger] groups[i], new)));
        }
    }
}

/// A group that shares no body with the groups before it shares a member with
/// the group joined so far exactly if it shares one with `new`.
proof fn lemma_absorbed_touch(groups: Seq<Group>, new: Group, at: int)
    requires
        0 <= at < groups.len(),
        pairwise_disjoint(groups),
    ensures
        touches(groups[at], absorbed(groups, new, at as nat)) == touches(groups[at], new),
{
    let joined = absorbed(groups, new, at as nat);
    lemma_absorbed_members(groups, new, at as nat);
    if touches(groups[at], joined) {
        let id = choose|id: u32| groups[at].dom().contains(id) && joined.dom().contains(id);
        assert(joined.contains_key(id));
        if !new.contains_key(id) {
            let i = choose|i: int|
                0 <= i < at && touches(#[trigger] groups[i], new) && groups[i].contains_key(id);
            assert(groups[i].dom().disjoint(groups[at].dom()));
            assert(groups[i].dom().contains(id));
        }
        assert(new.dom().contains(id));
    }
    if touches(groups[at], new) {
        let id = choose|id: u32| groups[at].dom().contains(id) && new.dom().contains(id);
        assert(joined.contains_key(id));
        assert(joined.dom().contains(id));
    }
}

/// Every group that is left was there before and shares no member with `new`.
proof fn lemma_untouched_origin(groups: Seq<Group>, new: Group, k: int) -> (i: int)
    requires
        0 <= k < untouched(groups, new).len(),
    ensures
        0 <= i < groups.len(),
        groups[i] == untouched(groups, new)[k],
        !touches(groups[i], new),
    decreases groups.len(),
{
    let front = groups.drop_last();
    if touches(groups.last(), new) || k < untouched(front, new).len() {
        lemma_untouched_origin(front, new, k)
    } else {
        groups.len() - 1
    }
}

/// Every group that shares no member with `new` is left.
proof fn lemma_untouched_keeps(groups: Seq<Group>, new: Group, i: int) -> (k: int)
    requires
        0 <= i < groups.len(),
        !touches(groups[i], new),
    ensures
        0 <= k < untouched(groups, new).len(),
        untouched(groups, new)[k] == groups[i],
    decreases groups.len(),
{
    let front = groups.drop_last();
    if i < front.len() {
        lemma_untouched_keeps(front, new, i)
    } else {
        untouched(groups, new).len() - 1
    }
}

/// Groups that share no body still share none when some of them are left out.
proof fn lemma_untouched_disjoint(groups: Seq<Group>, new: Group)
    requires
        pairwise_disjoint(groups),
    ensures
        pairwise_disjoint(untouched(groups, new)),
    decreases groups.len(),
{
    let kept = untouched(groups, new);
    if groups.len() > 0 {
        let front = groups.drop_last();
        let before = untouched(front, new);
        assert(pairwise_disjoint(front)) by {
            assert forall|i: int, j: int| 0 <= i < j < front.len() implies (
            #[trigger] front[i]).dom().disjoint((#[trigger] front[j]).dom()) by {
                assert(groups[i].dom().disjoint(groups[j].dom()));
            }
        }
        lemma_untouched_disjoint(front, new);
        assert forall|a: int, b: int| 0 <= a < b < kept.len() implies (
        #[trigger] kept[a]).dom().disjoint((#[trigger] kept[b]).dom()) by {
            if b < before.len() {
                assert(before[a].dom().disjoint(before[b].dom()));
            } else {
                let i = lemma_untouched_origin(front, new, a);
                assert(groups[i].dom().disjoint(groups[groups.len() - 1].dom()));
            }
        }
    }
}

/// The group that `new` was joined into is a group after the push.
proof fn lemma_pushed_joined(groups: Seq<Group>, new: Group) -> (k: int)
    ensures
        0 <= k < pushed(groups, new).len(),
        pushed(groups, new)[k] == absorbed(groups, new, groups.len()),
{
    if any_touched(groups, new) {
        lemma_first_touched(groups, new);
        first_touched(groups, new)
    } else {
        lemma_absorbed_members(groups, new, groups.len());
        groups.len() as int
    }
}

/// A group after the push, other than the one that `new` was joined into,
/// was a group before and shares no member with `new`.
pub proof fn lemma_pushed_origin(groups: Seq<Group>, new: Group, k: int) -> (i: int)
    requires
        0 <= k < pushed(groups, new).len(),
        pushed(groups, new)[k] != absorbed(groups, new, groups.len()),
    ensures
        0 <= i < groups.len(),
        groups[i] == pushed(groups, new)[k],
        !touches(groups[i], new),
{
    if any_touched(groups, new) {
        lemma_first_touched(groups, new);
        let first = first_touched(groups, new);
        if k < first {
            k
        } else {
            let tail = groups.skip(first + 1);
            let c = lemma_untouched_origin(tail, new, k - first - 1);
            c + first + 1
        }
    } else {
        lemma_absorbed_members(groups, new, groups.len());
        k
    }
}

/// A group that shares no member with `new` is still a group after the push.
proof fn lemma_pushed_keeps(groups: Seq<Group>, new: Group, i: int) -> (k: int)
    requires
        0 <= i < groups.len(),
        !touches(groups[i], new),
    ensures
        0 <= k < pushed(groups, new).len(),
        pushed(groups, new)[k] == groups[i],
{
    if any_touched(groups, new) {
        lemma_first_touched(groups, new);
        let first = first_touched(groups, new);
        if i < first {
            i
        } else {
            let tail = groups.skip(first + 1);
            assert(tail[i - first - 1] == groups[i]);
            let c = lemma_untouched_keeps(tail, new, i - first - 1);
            c + first + 1
        }
    } else {
        i
    }
}

/// Groups that share no body still share none after a push.
pub proof fn lemma_push_keeps_disjoint(groups: Seq<Group>, new: Group)
    requires
        pairwise_disjoint(groups),
    ensures
        pairwise_disjoint(pushed(groups, new)),
{
    let after = pushed(groups, new);
    let joined = absorbed(groups, new, groups.len());
    if any_touched(groups, new) {
        lemma_first_touched(groups, new);
        let first = first_touched(groups, new);
        let tail = groups.skip(first + 1);
        let kept = untouched(tail, new);
        assert(pairwise_disjoint(tail)) by {
            assert forall|i: int, j: int| 0 <= i < j < tail.len() implies (
            #[trigger] tail[i]).dom().disjoint((#[trigger] tail[j]).dom()) by {
                assert(groups[i + first + 1].dom().disjoint(groups[j + first + 1].dom()));
            }
        }
        lemma_untouched_disjoint(tail, new);
        assert forall|a: int, b: int| 0 <= a < b < after.len() implies (
        #[trigger] after[a]).dom().disjoint((#[trigger] after[b]).dom()) by {
            if b < first {
                assert(groups[a].dom().disjoint(groups[b].dom()));
            } else if b == first {
                lemma_joined_apart(groups, new, a);
            } else {
                let cb = b - first - 1;
                assert(after[b] == kept[cb]);
                let ib = lemma_untouched_origin(tail, new, cb) + first + 1;
                assert(groups[ib] == after[b]);
                if a < first {
                    assert(groups[a].dom().disjoint(groups[ib].dom()));
                } else if a == first {
                    lemma_joined_apart(groups, new, ib);
                } else {
                    let ca = a - first - 1;
                    assert(after[a] == kept[ca]);
                    assert(kept[ca].dom().disjoint(kept[cb].dom()));
                }
            }
        }
    } else {
        lemma_absorbed_members(groups, new, groups.len());
        assert forall|a: int, b: int| 0 <= a < b < after.len() implies (
        #[trigger] after[a]).dom().disjoint((#[trigger] after[b]).dom()) by {
            if b < groups.len() {
                assert(groups[a].dom().disjoint(groups[b].dom()));
            } else {
                assert(!touches(groups[a], new));
            }
        }
    }
}

/// A group that shares no member with `new` shares none with the joined group
/// either.
proof fn lemma_joined_apart(groups: Seq<Group>, new: Group, at: int)
    requires
        pairwise_disjoint(groups),
        0 <= at < groups.len(),
        !touches(groups[at], new),
    ensures
        groups[at].dom().disjoint(absorbed(groups, new, groups.len()).dom()),
        absorbed(groups, new, groups.len()).dom().disjoint(groups[at].dom()),
{
    let joined = absorbed(groups, new, groups.len());
    lemma_absorbed_members(groups, new, groups.len());
    assert forall|id: u32| groups[at].dom().contains(id) implies !joined.dom().contains(id) by {
        if joined.contains_key(id) {
            if new.contains_key(id) {
                assert(new.dom().contains(id));
            } else {
                let i = choose|i: int|
                    0 <= i < groups.len() && touches(#[trigger] groups[i], new) && groups[i].contains_key(
                        id,
                    );
                if i < at {
                    assert(groups[i].dom().disjoint(groups[at].dom()));
                } else {
                    assert(groups[at].dom().disjoint(groups[i].dom()));
                }
                assert(groups[i].dom().contains(id));
            }
        }
    }
}

/// A push loses no body and brings in the members of `new` and no others.
pub proof fn lemma_push_members(groups: Seq<Group>, new: Group)
    ensures
        members(pushed(groups, new)) == members(groups).union(new.dom()),
{
    let after = pushed(groups, new);
    let joined = absorbed(groups, new, groups.len());
    lemma_absorbed_members(groups, new, groups.len());
    let kj = lemma_pushed_joined(groups, new);
    assert forall|id: u32| members(after).contains(id) implies #[trigger] members(groups).union(
        new.dom(),
    ).contains(id) by {
        let k = choose|k: int| 0 <= k < after.len() && (#[trigger] after[k]).contains_key(id);
        if after[k] == joined {
            if !new.contains_key(id) {
                let i = choose|i: int|
                    0 <= i < groups.len() && touches(#[trigger] groups[i], new) && groups[i].contains_key(
                        id,
                    );
                assert(groups[i].contains_key(id));
            }
        } else {
            let i = lemma_pushed_origin(groups, new, k);
            assert(groups[i].contains_key(id));
        }
    }
    assert forall|id: u32| #[trigger]
        members(groups).union(new.dom()).contains(id) implies members(after).contains(id) by {
        if new.contains_key(id) {
            assert(after[kj].contains_key(id));
        } else {
            let i = choose|i: int| 0 <= i < groups.len() && (#[trigger] groups[i]).contains_key(id);
            if touches(groups[i], new) {
                assert(joined.contains_key(id));
                assert(after[kj].contains_key(id));
            } else {
                let k = lemma_pushed_keeps(groups, new, i);
                assert(after[k].contains_key(id));
            }
        }
    }
    assert(members(after) =~= members(groups).union(new.dom()));
}

/// After a push the members of `new` stand in one group, and bodies that
/// stood in one group before still do.
pub proof fn lemma_push_groups_together(groups: Seq<Group>, new: Group)
    ensures
        forall|a: u32, b: u32|
            new.contains_key(a) && new.contains_key(b) ==> #[trigger] grouped_together(
                pushed(groups, new),
                a,
                b,
            ),
        forall|a: u32, b: u32| #[trigger]
            grouped_together(groups, a, b) ==> grouped_together(pushed(groups, new), a, b),
{
    let after = pushed(groups, new);
    let joined = absorbed(groups, new, groups.len());
    lemma_absorbed_members(groups, new, groups.len());
    let kj = lemma_pushed_joined(groups, new);
    assert forall|a: u32, b: u32| new.contains_key(a) && new.contains_key(b) implies #[trigger] grouped_together(
        after,
        a,
        b,
    ) by {
        assert(after[kj].contains_key(a) && after[kj].contains_key(b));
    }
    assert forall|a: u32, b: u32| #[trigger] grouped_together(groups, a, b) implies grouped_together(
        after,
        a,
        b,
    ) by {
        let i = choose|i: int|
            0 <= i < groups.len() && (#[trigger] groups[i]).contains_key(a) && groups[i].contains_key(b);
        if touches(groups[i], new) {
            assert(joined.contains_key(a) && joined.contains_key(b));
            assert(after[kj].contains_key(a) && after[kj].contains_key(b));
        } else {
            let k = lemma_pushed_keeps(groups, new, i);
            assert(after[k].contains_key(a) && after[k].contains_key(b));
        }
    }
}

/// Where no body is in two groups, a body is a member of one group at most.
pub proof fn lemma_member_of_one_group(groups: Seq<Group>, id: u32, i: int, j: int)
    requires
        pairwise_disjoint(groups),
        0 <= i < groups.len(),
        0 <= j < groups.len(),
        groups[i].contains_key(id),
        groups[j].contains_key(id),
    ensures
        i == j,
{
    if i < j {
        assert(groups[i].dom().disjoint(groups[j].dom()));
        assert(groups[i].dom().contains(id) && groups[j].dom().contains(id));
    }
    if j < i {
        assert(groups[j].dom().disjoint(groups[i].dom()));
        assert(groups[i].dom().contains(id) && groups[j].dom().contains(id));
    }
}

/// Where no body is in two groups, bodies that stand in one group with the
/// same body stand in one group with each other.
pub proof fn lemma_grouped_transitive(groups: Seq<Group>, a: u32, b: u32, c: u32)
    requires
        pairwise_disjoint(groups),
        grouped_together(groups, a, b),
        grouped_together(groups, b, c),
    ensures
        grouped_together(groups, a, c),
{
    let i = choose|i: int|
        0 <= i < groups.len() && (#[trigger] groups[i]).contains_key(a) && groups[i].contains_key(b);
    let j = choose|j: int|
        0 <= j < groups.len() && (#[trigger] groups[j]).contains_key(b) && groups[j].contains_key(c);
    lemma_member_of_one_group(groups, b, i, j);
    assert(groups[i].contains_key(a) && groups[i].contains_key(c));
}

/// The collisions of the first groups use up no more identifiers than those
/// of all the groups.
pub proof fn lemma_frame_used_grows(groups: Seq<Group>, upto: int)
    requires
        0 <= upto <= groups.len(),
    ensures
        frame_used(groups.take(upto)) <= frame_used(groups),
    decreases groups.len() - upto,
{
    if upto < groups.len() {
        lemma_frame_used_grows(groups, upto + 1);
        assert(groups.take(upto + 1).drop_last() =~= groups.take(upto));
    } else {
        assert(groups.take(upto) =~= groups);
    }
}

/// The bodies that the collisions of a frame leave behind carry fresh
/// identifiers, each its own: none below `next`, all among those that the
/// collisions use up, and each above the one before.
pub proof fn lemma_frame_left_fresh(groups: Seq<Group>, next: int)
    ensures
        forall|k: int|
            0 <= k < frame_left(groups, next).len() ==> next <= #[trigger] frame_left(groups, next)[k]
                < next + frame_used(groups),
        forall|i: int, j: int|
            0 <= i < j < frame_left(groups, next).len() ==> #[trigger] frame_left(groups, next)[i]
                < #[trigger] frame_left(groups, next)[j],
    decreases groups.len(),
{
    if groups.len() > 0 {
        let front = groups.drop_last();
        let sooner = frame_left(front, next);
        let later = group_left(groups.last(), next + frame_used(front));
        let all = frame_left(groups, next);
        lemma_frame_left_fresh(front, next);
        assert forall|k: int| 0 <= k < all.len() implies next <= #[trigger] all[k] < next
            + frame_used(groups) by {
            if k < sooner.len() {
                assert(all[k] == sooner[k]);
            } else {
                assert(all[k] == later[k - sooner.len()]);
            }
        }
        assert forall|i: int, j: int| 0 <= i < j < all.len() implies #[trigger] all[i]
            < #[trigger] all[j] by {
            if j < sooner.len() {
                assert(all[i] == sooner[i] && all[j] == sooner[j]);
            } else if i < sooner.len() {
                assert(all[i] == sooner[i]);
                assert(all[j] == later[j - sooner.len()]);
            } else {
                assert(all[i] == later[i - sooner.len()]);
                assert(all[j] == later[j - sooner.len()]);
            }
        }
    }
}

/// Joining a group with itself gives the group again: no member comes twice.
pub proof fn lemma_union_idempotent(group: Group)
    ensures
        group.union_prefer_right(group) == group,
{
    assert(group.union_prefer_right(group) =~= group);
}

/// Bringing in a group that the frame holds already, and that has a member,
/// changes nothing.
pub proof fn lemma_push_same_group(groups: Seq<Group>, at: int)
    requires
        pairwise_disjoint(groups),
        0 <= at < groups.len(),
        exists|id: u32| groups[at].contains_key(id),
    ensures
        pushed(groups, groups[at]) == groups,
{
    let new = groups[at];
    let member = choose|id: u32| groups[at].contains_key(id);
    assert(new.dom().contains(member));
    assert(touches(groups[at], new));
    assert forall|i: int| 0 <= i < groups.len() && i != at implies !touches(
        #[trigger] groups[i],
        new,
    ) by {
        if i < at {
            assert(groups[i].dom().disjoint(groups[at].dom()));
        } else {
            assert(groups[at].dom().disjoint(groups[i].dom()));
        }
    }
    lemma_first_touched(groups, new);
    assert(first_touched(groups, new) == at);
    lemma_absorbed_only(groups, new, at, groups.len());
    assert(new.union_prefer_right(new) =~= new);
    let tail = groups.skip(at + 1);
    lemma_untouched_all(tail, new);
    assert(pushed(groups, new) =~= groups);
}

/// Where only the group at place `at` shares a member with `new`, `new` is
/// joined with that group alone.
proof fn lemma_absorbed_only(groups: Seq<Group>, new: Group, at: int, upto: nat)
    requires
        0 <= at < groups.len(),
        upto <= groups.len(),
        touches(groups[at], new),
        forall|i: int| 0 <= i < groups.len() && i != at ==> !touches(#[trigger] groups[i], new),
    ensures
        absorbed(groups, new, upto) == if at < upto {
            new.union_prefer_right(groups[at])
        } else {
            new
        },
    decreases upto,
{
    if upto > 0 {
        lemma_absorbed_only(groups, new, at, (upto - 1) as nat);
        if upto - 1 != at {
            assert(!touches(groups[upto - 1], new));
        }
    }
}

/// Where no group shares a member with `new`, all of them are left.
proof fn lemma_untouched_all(groups: Seq<Group>, new: Group)
    requires
        forall|i: int| 0 <= i < groups.len() ==> !touches(#[trigger] groups[i], new),
    ensures
        untouched(groups, new) == groups,
    decreases groups.len(),
{
    if groups.len() > 0 {
        let front = groups.drop_last();
        assert forall|i: int| 0 <= i < front.len() implies !touches(#[trigger] front[i], new) by {
            assert(front[i] == groups[i]);
        }
        lemma_untouched_all(front, new);
        assert(!touches(groups[groups.len() - 1], new));
        assert(front.push(groups.last()) =~= groups);
    }
}

/// Two groups that share a body end up as one: brought into an empty frame
/// one after the other, they leave a single group, which holds the members of
/// both.
pub proof fn lemma_chain_is_one_group(one: Group, two: Group)
    requires
        touches(one, two),
    ensures
        pushed(pushed(Seq::<Group>::empty(), one), two) == seq![two.union_prefer_right(one)],
        two.union_prefer_right(one).dom() == one.dom().union(two.dom()),
{
    let none = Seq::<Group>::empty();
    let single = pushed(none, one);
    assert(!any_touched(none, one));
    assert(single =~= seq![one]);
    assert(touches(single[0], two));
    lemma_first_touched(single, two);
    assert(first_touched(single, two) == 0);
    assert(absorbed(single, two, 1) == two.union_prefer_right(one)) by {
        reveal_with_fuel(absorbed, 2);
    }
    assert(single.skip(1) =~= none);
    assert(pushed(single, two) =~= seq![two.union_prefer_right(one)]);
    assert(two.union_prefer_right(one).dom() =~= one.dom().union(two.dom()));
}

/// All the collisions of one frame: groups of bodies, no body in two of them.
/// Its view is the sequence of the groups.
#[derive(Debug)]
pub struct CollisionFrame {
    array: Vec<CollisionSet>,
}

/// The groups that `sets` hold, in order.
pub open spec fn groups_of(sets: Seq<CollisionSet>) -> Seq<Group> {
    Seq::new(sets.len(), |i: int| sets[i]@)
}

impl View for CollisionFrame {
    type V = Seq<Group>;

    closed spec fn view(&self) -> Seq<Group> {
        groups_of(self.array@)
    }
}

impl CollisionFrame {
    /// No body is a member of two groups.
    #[verifier::type_invariant]
    spec fn apart(&self) -> bool {
        pairwise_disjoint(groups_of(self.array@))
    }

    /// A frame without collisions.
    pub fn new() -> (frame: Self)
        ensures
            frame@ == Seq::<Group>::empty(),
    {
        let frame = CollisionFrame { array: Vec::new() };
        assert(frame@ =~= Seq::<Group>::empty());
        frame
    }

    /// The number of groups.
    pub fn len(&self) -> (count: usize)
        ensures
            count == self@.len(),
            pairwise_disjoint(self@),
    {
        proof {
            use_type_invariant(self);
        }
        self.array.len()
    }

    /// The group at place `index`.
    pub fn get(&self, index: usize) -> (group: &CollisionSet)
        requires
            index < self@.len(),
        ensures
            group@ == self@[index as int],
            pairwise_disjoint(self@),
    {
        proof {
            use_type_invariant(self);
        }
        &self.array[index]
    }

    /// Tells whether a body with the identifier `id` is a member of some group.
    pub fn holds(&self, id: u32) -> (found: bool)
        ensures
            found == members(self@).contains(id),
    {
        let mut k: usize = 0;
        while k < self.array.len()
            invariant
                k <= self.array@.len(),
                forall|i: int| 0 <= i < k ==> !(#[trigger] self@[i]).contains_key(id),
            decreases self.array@.len() - k,
        {
            if self.array[k].contains(id) {
                assert(self@[k as int].contains_key(id));
                return true;
            }
            k += 1;
        }
        false
    }

    /// Brings the group `new` into the frame and says whether it was joined
    /// with a group of the frame.
    ///
    /// If 0 collides with 2 and 1 collides with 2, then 0, 1 and 2 all collide
    /// together: a group that shares a member with groups of the frame is
    /// joined with all of them, so that afterwards no body is in two groups.
    pub fn push(&mut self, new: CollisionSet) -> (found: bool)
        ensures
            found == any_touched(old(self)@, new@),
            final(self)@ == pushed(old(self)@, new@),
            pairwise_disjoint(final(self)@),
    {
        proof {
            use_type_invariant(&*self);
        }
        let ghost before = self@;
        let ghost fresh = new@;
        let mut groups: Vec<CollisionSet> = Vec::new();
        std::mem::swap(&mut groups, &mut self.array);

        let mut out: Vec<CollisionSet> = Vec::new();
        let mut joined = new;
        let mut found = false;
        let mut slot: usize = 0;
        let mut k: usize = 0;
        while k < groups.len()
            invariant
                k <= groups@.len(),
                before == groups_of(groups@),
                pairwise_disjoint(before),
                joined@ == absorbed(before, fresh, k as nat),
                !found ==> groups_of(out@) == before.take(k as int),
                !found ==> forall|i: int| 0 <= i < k ==> !touches(#[trigger] before[i], fresh),
                found ==> slot < k && touches(before[slot as int], fresh),
                found ==> forall|i: int| 0 <= i < slot ==> !touches(#[trigger] before[i], fresh),
                found ==> out@.len() == slot + 1 + untouched(
                    before.subrange(slot + 1, k as int),
                    fresh,
                ).len(),
                found ==> groups_of(out@).take(slot as int) == before.take(slot as int),
                found ==> groups_of(out@).skip(slot + 1) == untouched(
                    before.subrange(slot + 1, k as int),
                    fresh,
                ),
            decreases groups@.len() - k,
        {
            proof {
                lemma_absorbed_touch(before, fresh, k as int);
                assert(before[k as int] == groups@[k as int]@);
                if found {
                    assert(before.subrange(slot + 1, k + 1).drop_last() =~= before.subrange(
                        slot + 1,
                        k as int,
                    ));
                }
            }
            let ghost out_before = groups_of(out@);
            match CollisionSet::merge_intersection(&groups[k], &joined) {
                Some(all) => {
                    joined = all;
                    if !found {
                        found = true;
                        slot = k;
                        out.push(CollisionSet::new());
                        proof {
                            assert(groups_of(out@).take(slot as int) =~= before.take(slot as int));
                            assert(groups_of(out@).skip(slot + 1) =~= untouched(
                                before.subrange(slot + 1, k + 1),
                                fresh,
                            ));
                        }
                    } else {
                        proof {
                            assert(groups_of(out@) =~= out_before);
                        }
                    }
                },
                None => {
                    out.push(groups[k].clone());
                    proof {
                        if found {
                            assert(groups_of(out@).take(slot as int) =~= out_before.take(
                                slot as int,
                            ));
                            assert(groups_of(out@).skip(slot + 1) =~= out_before.skip(
                                slot + 1,
                            ).push(before[k as int]));
                        } else {
                            assert(groups_of(out@) =~= before.take(k + 1));
                        }
                    }
                },
            }
            k += 1;
        }
        proof {
            lemma_push_keeps_disjoint(before, fresh);
            assert(before.take(k as int) =~= before);
        }
        if found {
            proof {
                assert(before.subrange(slot + 1, k as int) =~= before.skip(slot + 1));
                assert(first_touched(before, fresh) == slot) by {
                    let first = first_touched(before, fresh);
                    if first < slot {
                        assert(!touches(before[first], fresh));
                    }
                    if slot < first {
                        assert(!touches(before[slot as int], fresh));
                    }
                }
            }
            let ghost out_before = groups_of(out@);
            out.set(slot, joined);
            proof {
                assert(groups_of(out@) =~= out_before.update(slot as int, joined@));
                assert(out_before.update(slot as int, joined@) =~= pushed(before, fresh)) by {
                    let after = pushed(before, fresh);
                    let updated = out_before.update(slot as int, joined@);
                    assert(updated.len() == after.len());
                    assert forall|i: int| 0 <= i < updated.len() implies updated[i] == after[i] by {
                        if i < slot {
                            assert(out_before.take(slot as int)[i] == before.take(slot as int)[i]);
                        } else if i > slot {
                            assert(out_before.skip(slot + 1)[i - slot - 1] == updated[i]);
                        }
                    }
                }
            }
        } else {
            proof {
                lemma_absorbed_members(before, fresh, before.len());
                assert(!any_touched(before, fresh));
            }
            let ghost out_before = groups_of(out@);
            out.push(joined);
            proof {
                assert(groups_of(out@) =~= out_before.push(joined@));
            }
        }
        self.array = out;
        found
    }

    /// Tells whether `ids` has enough black-hole identifiers left for the
    /// collisions of all the groups.
    pub fn can_collect(&self, ids: &IdAllocator) -> (enough: bool)
        ensures
            enough == (ids.peek(ObjectType::BlackHole) + frame_used(self@) <= u32::MAX),
    {
        let mut left: u64 = ids.remaining(ObjectType::BlackHole) as u64;
        let ghost groups = self@;
        let mut k: usize = 0;
        while k < self.array.len()
            invariant
                k <= self.array@.len(),
                groups == groups_of(self.array@),
                left + frame_used(groups.take(k as int)) + ids.peek(ObjectType::BlackHole)
                    == u32::MAX,
            decreases self.array@.len() - k,
        {
            proof {
                assert(groups.take(k + 1).drop_last() =~= groups.take(k as int));
                assert(groups.take(k + 1).last() == self.array@[k as int]@);
                lemma_frame_used_grows(groups, k + 1);
            }
            let needed: u64 = self.array[k].identifiers_needed();
            if needed > left {
                return false;
            }
            left = left - needed;
            k += 1;
        }
        proof {
            assert(groups.take(k as int) =~= groups);
        }
        true
    }

    /// Carries out the collisions of all the groups, one group after the
    /// other, and says which bodies take the place of those that collided.
    /// A frame without groups leaves nothing behind.
    pub fn collect(&self, ids: &mut IdAllocator) -> (result: CollisionResult)
        requires
            old(ids).peek(ObjectType::BlackHole) + frame_used(self@) <= u32::MAX,
        ensures
            self@.len() == 0 ==> result is Nothing,
            self@.len() > 0 ==> result is NSize,
            blackholes_numbered(
                result.bodies(),
                frame_left(self@, old(ids).peek(ObjectType::BlackHole) as int),
            ),
            final(ids).peek(ObjectType::BlackHole) == old(ids).peek(ObjectType::BlackHole)
                + frame_used(self@),
            final(ids).peek(ObjectType::World) == old(ids).peek(ObjectType::World),
    {
        let mut ret: Vec<Movable> = Vec::new();

        if self.array.is_empty() {
            return CollisionResult::Nothing;
        }
        let ghost first: int = ids.peek(ObjectType::BlackHole) as int;
        let ghost groups = self@;

        let mut k: usize = 0;
        while k < self.array.len()
            invariant
                k <= self.array@.len(),
                groups == groups_of(self.array@),
                first + frame_used(groups) <= u32::MAX,
                blackholes_numbered(ret@, frame_left(groups.take(k as int), first)),
                ids.peek(ObjectType::BlackHole) == first + frame_used(groups.take(k as int)),
                ids.peek(ObjectType::World) == old(ids).peek(ObjectType::World),
            decreases self.array@.len() - k,
        {
            let ghost sooner = groups.take(k as int);
            let ghost later = groups.take(k + 1);
            let ghost before = ret@;
            proof {
                assert(later.drop_last() =~= sooner);
                assert(later.last() == self.array@[k as int]@);
                lemma_frame_used_grows(groups, k + 1);
            }
            match self.array[k].collide(ids) {
                CollisionResult::Single(n) => {
                    ret.push(n);
                    proof {
                        assert(ret@ =~= before + seq![n]);
                    }
                },
                CollisionResult::NSize(mut n) => {
                    ret.append(&mut n);
                },
                CollisionResult::Nothing => {},
            }
            proof {
                let added = group_left(later.last(), first + frame_used(sooner));
                assert(ret@.len() == before.len() + added.len());
                assert forall|i: int| 0 <= i < ret@.len() implies (#[trigger] ret@[i]).get_id()
                    == frame_left(later, first)[i] && ret@[i].kind() == ObjectType::BlackHole by {
                    if i < before.len() {
                        assert(ret@[i] == before[i]);
                    }
                }
            }
            k += 1;
        }
        proof {
            assert(groups.take(k as int) =~= groups);
        }

        CollisionResult::NSize(ret)
    }
}

} // verus!

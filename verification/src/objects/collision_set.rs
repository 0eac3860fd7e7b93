//! Groups of bodies that ran into one another within one frame.

use crate::objects::movables::{
    any_blackhole, blackholes_numbered, identifiers_left, identifiers_used, CollisionResult,
    IdAllocator, Movable, ObjectType,
};
use vstd::prelude::*;

verus! {

/// A group of bodies as the specification sees it: the kind of each member,
/// under the member's identifier.
pub type Group = Map<u32, ObjectType>;

/// Whether the identifiers of `bodies` strictly increase from each body to the
/// next.
pub open spec fn ascending(bodies: Seq<Movable>) -> bool {
    forall|i: int, j: int|
        0 <= i < j < bodies.len() ==> (#[trigger] bodies[i]).get_id() < (#[trigger] bodies[j]).get_id()
}

/// Whether some body of `bodies` carries the identifier `id`.
pub open spec fn occurs(bodies: Seq<Movable>, id: u32) -> bool {
    exists|k: int| 0 <= k < bodies.len() && (#[trigger] bodies[k]).get_id() == id
}

/// The kinds of `bodies`, each under the identifier of its body.
pub open spec fn kinds_by_id(bodies: Seq<Movable>) -> Group {
    Map::new(
        |id: u32| occurs(bodies, id),
        |id: u32|
            bodies[choose|k: int| 0 <= k < bodies.len() && (#[trigger] bodies[k]).get_id() == id].kind(),
    )
}

/// Whether a group holds a black hole.
pub open spec fn has_blackhole(group: Group) -> bool {
    exists|id: u32| #[trigger] group.contains_key(id) && group[id] == ObjectType::BlackHole
}

/// How many fresh identifiers the collision of one group uses up.
pub open spec fn group_used(group: Group) -> nat {
    if group.len() > 1 {
        identifiers_used(group.len(), has_blackhole(group))
    } else {
        0
    }
}

/// The identifiers of the bodies that the collision of one group leaves
/// behind, where `next` is the first free identifier.
pub open spec fn group_left(group: Group, next: int) -> Seq<int> {
    if group.len() > 1 {
        identifiers_left(group.len(), has_blackhole(group), next)
    } else {
        Seq::empty()
    }
}

/// In an ascending sequence every body is found under its own identifier, and
/// nothing else is found.
pub proof fn lemma_kinds_by_id(bodies: Seq<Movable>)
    requires
        ascending(bodies),
    ensures
        forall|k: int|
            0 <= k < bodies.len() ==> kinds_by_id(bodies).contains_key(
                (#[trigger] bodies[k]).get_id(),
            ) && kinds_by_id(bodies)[bodies[k].get_id()] == bodies[k].kind(),
        forall|id: u32| #[trigger] kinds_by_id(bodies).contains_key(id) ==> occurs(bodies, id),
        kinds_by_id(bodies).dom().finite(),
        kinds_by_id(bodies).len() == bodies.len(),
        has_blackhole(kinds_by_id(bodies)) == any_blackhole(bodies),
    decreases bodies.len(),
{
    let kinds = kinds_by_id(bodies);
    lemma_kinds_by_id_entries(bodies);
    if bodies.len() == 0 {
        assert(kinds.dom() =~= Set::<u32>::empty());
    } else {
        let front = bodies.drop_last();
        let last = bodies.last();
        lemma_kinds_by_id(front);
        lemma_kinds_push(front, last);
        assert(front.push(last) =~= bodies);
    }
    if has_blackhole(kinds) {
        let id = choose|id: u32| #[trigger] kinds.contains_key(id) && kinds[id] == ObjectType::BlackHole;
        let k = choose|k: int| 0 <= k < bodies.len() && (#[trigger] bodies[k]).get_id() == id;
        assert(bodies[k].kind() == ObjectType::BlackHole);
    }
    if any_blackhole(bodies) {
        let k = choose|k: int|
            0 <= k < bodies.len() && (#[trigger] bodies[k]).kind() == ObjectType::BlackHole;
        assert(kinds.contains_key(bodies[k].get_id()));
    }
}

/// An ascending sequence of bodies is no longer than there are identifiers.
proof fn lemma_ascending_bound(bodies: Seq<Movable>)
    requires
        ascending(bodies),
    ensures
        bodies.len() <= u32::MAX + 1,
{
    if bodies.len() > 0 {
        lemma_ascending_from(bodies, bodies.len() - 1);
    }
}

/// In an ascending sequence the identifier of a body is at least its place.
proof fn lemma_ascending_from(bodies: Seq<Movable>, k: int)
    requires
        ascending(bodies),
        0 <= k < bodies.len(),
    ensures
        bodies[k].get_id() >= k,
    decreases k,
{
    if k > 0 {
        lemma_ascending_from(bodies, k - 1);
        assert(bodies[k - 1].get_id() < bodies[k].get_id());
    }
}

/// Adding a body with a larger identifier at the end adds one entry.
proof fn lemma_kinds_push(bodies: Seq<Movable>, body: Movable)
    requires
        ascending(bodies.push(body)),
    ensures
        ascending(bodies),
        !kinds_by_id(bodies).contains_key(body.get_id()),
        kinds_by_id(bodies.push(body)) == kinds_by_id(bodies).insert(body.get_id(), body.kind()),
{
    let longer = bodies.push(body);
    assert forall|i: int, j: int| 0 <= i < j < bodies.len() implies (#[trigger] bodies[i]).get_id()
        < (#[trigger] bodies[j]).get_id() by {
        assert(longer[i].get_id() < longer[j].get_id());
    }
    assert forall|k: int| 0 <= k < bodies.len() implies (#[trigger] bodies[k]).get_id()
        < body.get_id() by {
        assert(longer[k].get_id() < longer[bodies.len() as int].get_id());
    }
    lemma_kinds_insert(bodies, bodies.len() as int, body);
    assert(bodies.insert(bodies.len() as int, body) =~= longer);
}

/// Putting a body into an ascending sequence at the place that keeps it
/// ascending adds one entry.
proof fn lemma_kinds_insert(bodies: Seq<Movable>, at: int, body: Movable)
    requires
        0 <= at <= bodies.len(),
        ascending(bodies),
        forall|k: int| 0 <= k < at ==> (#[trigger] bodies[k]).get_id() < body.get_id(),
        forall|k: int| at <= k < bodies.len() ==> body.get_id() < (#[trigger] bodies[k]).get_id(),
    ensures
        ascending(bodies.insert(at, body)),
        !kinds_by_id(bodies).contains_key(body.get_id()),
        kinds_by_id(bodies.insert(at, body)) == kinds_by_id(bodies).insert(
            body.get_id(),
            body.kind(),
        ),
{
    let longer = bodies.insert(at, body);
    assert forall|i: int, j: int| 0 <= i < j < longer.len() implies (#[trigger] longer[i]).get_id()
        < (#[trigger] longer[j]).get_id() by {
        if j < at {
            assert(bodies[i].get_id() < bodies[j].get_id());
        } else if j == at {
            assert(bodies[i].get_id() < body.get_id());
        } else if i < at {
            assert(bodies[i].get_id() < body.get_id());
            assert(body.get_id() < bodies[j - 1].get_id());
        } else if i == at {
            assert(body.get_id() < bodies[j - 1].get_id());
        } else {
            assert(bodies[i - 1].get_id() < bodies[j - 1].get_id());
        }
    }
    assert(!occurs(bodies, body.get_id()));
    lemma_kinds_by_id_entries(bodies);
    lemma_kinds_by_id_entries(longer);
    let grown = kinds_by_id(bodies).insert(body.get_id(), body.kind());
    assert forall|id: u32| kinds_by_id(longer).contains_key(id) implies #[trigger] grown.contains_key(
        id,
    ) by {
        let k = choose|k: int| 0 <= k < longer.len() && (#[trigger] longer[k]).get_id() == id;
        if k < at {
            assert(bodies[k].get_id() == id);
        } else if k > at {
            assert(bodies[k - 1].get_id() == id);
        }
    }
    assert forall|id: u32| #[trigger] grown.contains_key(id) implies kinds_by_id(longer).contains_key(
        id,
    ) && kinds_by_id(longer)[id] == grown[id] by {
        if id == body.get_id() {
            assert(longer[at].get_id() == id);
        } else {
            let k = choose|k: int| 0 <= k < bodies.len() && (#[trigger] bodies[k]).get_id() == id;
            if k < at {
                assert(longer[k] == bodies[k]);
            } else {
                assert(longer[k + 1] == bodies[k]);
            }
        }
    }
    assert(kinds_by_id(longer) =~= grown);
}

/// In an ascending sequence every body is found under its own identifier.
proof fn lemma_kinds_by_id_entries(bodies: Seq<Movable>)
    requires
        ascending(bodies),
    ensures
        forall|k: int|
            0 <= k < bodies.len() ==> kinds_by_id(bodies).contains_key(
                (#[trigger] bodies[k]).get_id(),
            ) && kinds_by_id(bodies)[bodies[k].get_id()] == bodies[k].kind(),
{
    assert forall|k: int| 0 <= k < bodies.len() implies kinds_by_id(bodies).contains_key(
        (#[trigger] bodies[k]).get_id(),
    ) && kinds_by_id(bodies)[bodies[k].get_id()] == bodies[k].kind() by {
        let id = bodies[k].get_id();
        let c = choose|c: int| 0 <= c < bodies.len() && (#[trigger] bodies[c]).get_id() == id;
        if c < k {
            assert(bodies[c].get_id() < bodies[k].get_id());
        }
        if k < c {
            assert(bodies[k].get_id() < bodies[c].get_id());
        }
    }
}

/// A group of bodies that ran into one another within one frame.
///
/// The group holds each body once, found by its identifier, and keeps its
/// bodies in the order of their identifiers. Its view maps the identifier of
/// each member to the member's kind.
#[derive(Debug)]
pub struct CollisionSet {
    data: Vec<Movable>,
}

impl View for CollisionSet {
    type V = Group;

    closed spec fn view(&self) -> Group {
        kinds_by_id(self.data@)
    }
}

impl Clone for CollisionSet {
    /// A group with the same members.
    fn clone(&self) -> (copy: Self)
        ensures
            copy@ == self@,
    {
        CollisionSet { data: self.members() }
    }
}

impl CollisionSet {
    /// The members are kept in the order of their identifiers, each once.
    #[verifier::type_invariant]
    spec fn ordered(&self) -> bool {
        ascending(self.data@)
    }

    /// A group has finitely many members.
    pub proof fn lemma_finite(&self)
        ensures
            self@.dom().finite(),
    {
        Self::lemma_finite_kinds(self.data@);
    }

    proof fn lemma_finite_kinds(bodies: Seq<Movable>)
        ensures
            kinds_by_id(bodies).dom().finite(),
        decreases bodies.len(),
    {
        if bodies.len() == 0 {
            assert(kinds_by_id(bodies).dom() =~= Set::<u32>::empty());
        } else {
            let front = bodies.drop_last();
            Self::lemma_finite_kinds(front);
            assert forall|id: u32|
                kinds_by_id(bodies).dom().contains(id) == #[trigger] kinds_by_id(front).dom().insert(
                    bodies.last().get_id(),
                ).contains(id) by {
                if occurs(bodies, id) {
                    let k = choose|k: int| 0 <= k < bodies.len() && (#[trigger] bodies[k]).get_id() == id;
                    if k < front.len() {
                        assert(front[k].get_id() == id);
                    }
                }
                if occurs(front, id) {
                    let k = choose|k: int| 0 <= k < front.len() && (#[trigger] front[k]).get_id() == id;
                    assert(bodies[k].get_id() == id);
                }
                if id == bodies.last().get_id() {
                    assert(bodies[bodies.len() - 1].get_id() == id);
                }
            }
            assert(kinds_by_id(bodies).dom() =~= kinds_by_id(front).dom().insert(
                bodies.last().get_id(),
            ));
        }
    }

    /// The empty group.
    pub fn new() -> (group: Self)
        ensures
            group@ == Map::<u32, ObjectType>::empty(),
    {
        let group = CollisionSet { data: Vec::new() };
        assert(group@ =~= Map::<u32, ObjectType>::empty());
        group
    }

    /// The place of the first member whose identifier is not below `id`.
    fn position(&self, id: u32) -> (at: usize)
        ensures
            at <= self.data@.len(),
            forall|k: int| 0 <= k < at ==> (#[trigger] self.data@[k]).get_id() < id,
            forall|k: int| at <= k < self.data@.len() ==> id <= (#[trigger] self.data@[k]).get_id(),
    {
        proof {
            use_type_invariant(self);
        }
        let mut at: usize = 0;
        while at < self.data.len() && self.data[at].get_id() < id
            invariant
                at <= self.data@.len(),
                ascending(self.data@),
                forall|k: int| 0 <= k < at ==> (#[trigger] self.data@[k]).get_id() < id,
            decreases self.data@.len() - at,
        {
            at += 1;
        }
        proof {
            if at < self.data@.len() {
                assert forall|k: int| at <= k < self.data@.len() implies id <= (
                #[trigger] self.data@[k]).get_id() by {
                    if at < k {
                        assert(self.data@[at as int].get_id() < self.data@[k].get_id());
                    }
                }
            }
        }
        at
    }

    /// Adds the body `other` to the group, unless a body with its identifier
    /// is a member already. Says whether the body was added.
    pub fn append(&mut self, other: &Movable) -> (added: bool)
        ensures
            added == !old(self)@.contains_key(other.get_id()),
            added ==> final(self)@ == old(self)@.insert(other.get_id(), other.kind()),
            !added ==> final(self)@ == old(self)@,
    {
        proof {
            use_type_invariant(&*self);
        }
        let id: u32 = other.get_id();
        let at: usize = self.position(id);
        if at < self.data.len() && self.data[at].get_id() == id {
            assert(occurs(self.data@, id));
            false
        } else {
            proof {
                assert forall|k: int| at <= k < self.data@.len() implies id < (
                #[trigger] self.data@[k]).get_id() by {
                    if at < k {
                        assert(self.data@[at as int].get_id() < self.data@[k].get_id());
                    }
                }
                lemma_kinds_insert(self.data@, at as int, *other);
            }
            let mut data: Vec<Movable> = Vec::new();
            std::mem::swap(&mut data, &mut self.data);
            data.insert(at, *other);
            self.data = data;
            true
        }
    }

    /// Tells whether a body with the identifier `id` is a member.
    pub fn contains(&self, id: u32) -> (found: bool)
        ensures
            found == self@.contains_key(id),
    {
        let at: usize = self.position(id);
        if at < self.data.len() && self.data[at].get_id() == id {
            assert(occurs(self.data@, id));
            true
        } else {
            proof {
                use_type_invariant(self);
                assert forall|k: int| 0 <= k < self.data@.len() implies (
                #[trigger] self.data@[k]).get_id() != id by {
                    if at < k {
                        assert(self.data@[at as int].get_id() < self.data@[k].get_id());
                    }
                }
            }
            false
        }
    }

    /// The members, in the order of their identifiers.
    pub fn members(&self) -> (bodies: Vec<Movable>)
        ensures
            ascending(bodies@),
            kinds_by_id(bodies@) == self@,
    {
        proof {
            use_type_invariant(self);
        }
        let mut bodies: Vec<Movable> = Vec::new();
        let mut k: usize = 0;
        while k < self.data.len()
            invariant
                k <= self.data@.len(),
                bodies@ == self.data@.take(k as int),
            decreases self.data@.len() - k,
        {
            bodies.push(self.data[k]);
            k += 1;
        }
        assert(bodies@ =~= self.data@);
        bodies
    }

    /// The members that the group shares with `other`, each as the group
    /// itself holds it.
    pub fn intersect(&self, other: &CollisionSet) -> (common: Self)
        ensures
            common@ == self@.restrict(other@.dom()),
    {
        proof {
            use_type_invariant(self);
            use_type_invariant(other);
        }
        let mut out: Vec<Movable> = Vec::new();
        let mut i: usize = 0;
        let mut j: usize = 0;
        while i < self.data.len()
            invariant
                i <= self.data@.len(),
                j <= other.data@.len(),
                ascending(self.data@),
                ascending(other.data@),
                ascending(out@),
                i < self.data@.len() ==> forall|b: int|
                    0 <= b < j ==> (#[trigger] other.data@[b]).get_id() < self.data@[i as int].get_id(),
                out@.len() > 0 ==> i > 0 && out@.last().get_id() <= self.data@[i - 1].get_id(),
                kinds_by_id(out@) == kinds_by_id(self.data@.take(i as int)).restrict(
                    kinds_by_id(other.data@).dom(),
                ),
            decreases self.data@.len() - i,
        {
            let body: Movable = self.data[i];
            let id: u32 = body.get_id();
            while j < other.data.len() && other.data[j].get_id() < id
                invariant
                    j <= other.data@.len(),
                    forall|b: int| 0 <= b < j ==> (#[trigger] other.data@[b]).get_id() < id,
                decreases other.data@.len() - j,
            {
                j += 1;
            }
            let ghost shorter = self.data@.take(i as int);
            let ghost longer = self.data@.take(i + 1);
            proof {
                assert(shorter.push(body) =~= longer);
                lemma_kinds_push(shorter, body);
            }
            if j < other.data.len() && other.data[j].get_id() == id {
                proof {
                    assert(occurs(other.data@, id));
                    assert forall|a: int, b: int| 0 <= a < b < out@.push(body).len() implies (
                    #[trigger] out@.push(body)[a]).get_id() < (#[trigger] out@.push(body)[b]).get_id() by {
                        if b < out@.len() {
                            assert(out@[a].get_id() < out@[b].get_id());
                        } else {
                            if a < out@.len() - 1 {
                                assert(out@[a].get_id() < out@[out@.len() - 1].get_id());
                            }
                            assert(self.data@[i - 1].get_id() < self.data@[i as int].get_id());
                        }
                    }
                    lemma_kinds_push(out@, body);
                    assert(kinds_by_id(out@.push(body)) =~= kinds_by_id(longer).restrict(
                        kinds_by_id(other.data@).dom(),
                    ));
                }
                out.push(body);
            } else {
                proof {
                    assert forall|b: int| 0 <= b < other.data@.len() implies (
                    #[trigger] other.data@[b]).get_id() != id by {
                        if j < b {
                            assert(other.data@[j as int].get_id() < other.data@[b].get_id());
                        }
                    }
                    assert(!occurs(other.data@, id));
                    assert(kinds_by_id(out@) =~= kinds_by_id(longer).restrict(
                        kinds_by_id(other.data@).dom(),
                    ));
                    if out@.len() > 0 && i > 0 {
                        assert(self.data@[i - 1].get_id() < self.data@[i as int].get_id());
                    }
                }
            }
            proof {
                if i + 1 < self.data@.len() {
                    assert(self.data@[i as int].get_id() < self.data@[i + 1].get_id());
                }
            }
            i += 1;
        }
        assert(self.data@.take(i as int) =~= self.data@);
        CollisionSet { data: out }
    }

    /// The members of the group together with those of `other`. Where both
    /// hold a body under one identifier, the result holds the group's own.
    pub fn union(&self, other: &CollisionSet) -> (all: Self)
        ensures
            all@ == other@.union_prefer_right(self@),
    {
        proof {
            use_type_invariant(self);
            use_type_invariant(other);
        }
        let n: usize = self.data.len();
        let m: usize = other.data.len();
        let mut out: Vec<Movable> = Vec::new();
        let mut i: usize = 0;
        let mut j: usize = 0;
        while i < n || j < m
            invariant
                n == self.data@.len(),
                m == other.data@.len(),
                i <= n,
                j <= m,
                ascending(self.data@),
                ascending(other.data@),
                ascending(out@),
                i > 0 && j < m ==> self.data@[i - 1].get_id() < other.data@[j as int].get_id(),
                j > 0 && i < n ==> other.data@[j - 1].get_id() < self.data@[i as int].get_id(),
                out@.len() > 0 && i < n ==> out@.last().get_id() < self.data@[i as int].get_id(),
                out@.len() > 0 && j < m ==> out@.last().get_id() < other.data@[j as int].get_id(),
                kinds_by_id(out@) == kinds_by_id(other.data@.take(j as int)).union_prefer_right(
                    kinds_by_id(self.data@.take(i as int)),
                ),
            decreases (n - i) + (m - j),
        {
            let ghost mine = self.data@.take(i as int);
            let ghost theirs = other.data@.take(j as int);
            if j >= m || (i < n && self.data[i].get_id() <= other.data[j].get_id()) {
                let body: Movable = self.data[i];
                proof {
                    assert(mine.push(body) =~= self.data@.take(i + 1));
                    lemma_kinds_push(mine, body);
                    Self::lemma_ascending_push(out@, body);
                    lemma_kinds_push(out@, body);
                    if i + 1 < n {
                        assert(self.data@[i as int].get_id() < self.data@[i + 1].get_id());
                    }
                }
                if j < m && other.data[j].get_id() == body.get_id() {
                    proof {
                        let twin = other.data@[j as int];
                        assert(theirs.push(twin) =~= other.data@.take(j + 1));
                        lemma_kinds_push(theirs, twin);
                        if j + 1 < m {
                            assert(other.data@[j as int].get_id() < other.data@[j + 1].get_id());
                        }
                        assert(kinds_by_id(out@.push(body)) =~= kinds_by_id(
                            other.data@.take(j + 1),
                        ).union_prefer_right(kinds_by_id(self.data@.take(i + 1))));
                    }
                    j += 1;
                } else {
                    proof {
                        assert(kinds_by_id(out@.push(body)) =~= kinds_by_id(theirs).union_prefer_right(
                            kinds_by_id(self.data@.take(i + 1)),
                        ));
                    }
                }
                out.push(body);
                i += 1;
            } else {
                let body: Movable = other.data[j];
                proof {
                    assert(theirs.push(body) =~= other.data@.take(j + 1));
                    lemma_kinds_push(theirs, body);
                    Self::lemma_ascending_push(out@, body);
                    lemma_kinds_push(out@, body);
                    if j + 1 < m {
                        assert(other.data@[j as int].get_id() < other.data@[j + 1].get_id());
                    }
                    assert forall|a: int| 0 <= a < mine.len() implies (#[trigger] mine[a]).get_id()
                        != body.get_id() by {
                        if a < i - 1 {
                            assert(self.data@[a].get_id() < self.data@[i - 1].get_id());
                        }
                    }
                    assert(!occurs(mine, body.get_id()));
                    assert(kinds_by_id(out@.push(body)) =~= kinds_by_id(
                        other.data@.take(j + 1),
                    ).union_prefer_right(kinds_by_id(mine)));
                }
                out.push(body);
                j += 1;
            }
        }
        assert(self.data@.take(i as int) =~= self.data@);
        assert(other.data@.take(j as int) =~= other.data@);
        CollisionSet { data: out }
    }

    /// A body whose identifier is above that of the last one keeps a sequence
    /// ascending.
    proof fn lemma_ascending_push(bodies: Seq<Movable>, body: Movable)
        requires
            ascending(bodies),
            bodies.len() > 0 ==> bodies.last().get_id() < body.get_id(),
        ensures
            ascending(bodies.push(body)),
    {
        let longer = bodies.push(body);
        assert forall|a: int, b: int| 0 <= a < b < longer.len() implies (#[trigger] longer[a]).get_id()
            < (#[trigger] longer[b]).get_id() by {
            if b < bodies.len() {
                assert(bodies[a].get_id() < bodies[b].get_id());
            } else if a < bodies.len() - 1 {
                assert(bodies[a].get_id() < bodies[bodies.len() - 1].get_id());
            }
        }
    }

    /// The number of members.
    pub fn len(&self) -> (count: usize)
        ensures
            count == self@.len(),
    {
        proof {
            use_type_invariant(self);
            lemma_kinds_by_id(self.data@);
        }
        self.data.len()
    }

    /// Tells whether the group has no member.
    pub fn is_empty(&self) -> (empty: bool)
        ensures
            empty <==> self@ == Map::<u32, ObjectType>::empty(),
    {
        proof {
            use_type_invariant(self);
            lemma_kinds_by_id(self.data@);
            if self.data@.len() == 0 {
                assert(self@ =~= Map::<u32, ObjectType>::empty());
            } else {
                assert(self@.contains_key(self.data@[0].get_id()));
            }
        }
        self.data.is_empty()
    }

    /// Joins two groups that share a member into one. Groups that share none
    /// are left apart.
    pub fn merge_intersection(one: &CollisionSet, two: &CollisionSet) -> (merged: Option<
        CollisionSet,
    >)
        ensures
            merged is Some <==> !one@.dom().disjoint(two@.dom()),
            merged matches Some(all) ==> all@ == two@.union_prefer_right(one@),
    {
        let intersect = one.intersect(two);

        if !intersect.is_empty() {
            proof {
                let common = intersect@;
                assert(exists|id: u32| common.contains_key(id)) by {
                    if forall|id: u32| !common.contains_key(id) {
                        assert(common =~= Map::<u32, ObjectType>::empty());
                    }
                }
                let id = choose|id: u32| common.contains_key(id);
                assert(one@.dom().contains(id) && two@.dom().contains(id));
            }
            Option::Some(one.union(two))
        } else {
            proof {
                assert forall|id: u32| one@.dom().contains(id) implies !two@.dom().contains(id) by {
                    if two@.dom().contains(id) {
                        assert(intersect@.contains_key(id));
                    }
                }
            }
            Option::None
        }
    }

    /// Tells whether a body with the identifier `id` is a member, and of what
    /// kind it is.
    pub fn kind_of(&self, id: u32) -> (kind: Option<ObjectType>)
        ensures
            kind == (if self@.contains_key(id) {
                Some(self@[id])
            } else {
                None
            }),
    {
        let at: usize = self.position(id);
        if at < self.data.len() && self.data[at].get_id() == id {
            proof {
                use_type_invariant(self);
                lemma_kinds_by_id(self.data@);
            }
            Some(self.data[at].kind())
        } else {
            proof {
                use_type_invariant(self);
                assert forall|k: int| 0 <= k < self.data@.len() implies (
                #[trigger] self.data@[k]).get_id() != id by {
                    if at < k {
                        assert(self.data@[at as int].get_id() < self.data@[k].get_id());
                    }
                }
            }
            None
        }
    }

    /// How many fresh black-hole identifiers the collision of the members
    /// uses up.
    pub fn identifiers_needed(&self) -> (needed: u64)
        ensures
            needed == group_used(self@),
    {
        proof {
            use_type_invariant(self);
            lemma_kinds_by_id(self.data@);
            lemma_ascending_bound(self.data@);
        }
        let count: usize = self.data.len();
        if count <= 1 {
            0
        } else if Movable::holds_blackhole(self.data.as_slice()) {
            (count - 1) as u64
        } else {
            2 * (count as u64)
        }
    }

    /// Carries out the collision of the members and says which bodies take
    /// their place. It takes two bodies to collide: a group of fewer leaves
    /// nothing behind and uses no identifier.
    pub fn collide(&self, ids: &mut IdAllocator) -> (result: CollisionResult)
        requires
            old(ids).peek(ObjectType::BlackHole) + group_used(self@) <= u32::MAX,
        ensures
            self@.len() <= 1 ==> result is Nothing,
            self@.len() > 1 && has_blackhole(self@) ==> result is Single,
            self@.len() > 1 && !has_blackhole(self@) ==> result is NSize,
            blackholes_numbered(
                result.bodies(),
                group_left(self@, old(ids).peek(ObjectType::BlackHole) as int),
            ),
            final(ids).peek(ObjectType::BlackHole) == old(ids).peek(ObjectType::BlackHole)
                + group_used(self@),
            final(ids).peek(ObjectType::World) == old(ids).peek(ObjectType::World),
    {
        proof {
            use_type_invariant(self);
            lemma_kinds_by_id(self.data@);
        }
        let count: usize = self.len();

        if count > 1 {
            return Movable::process_collisions(self.data.as_slice(), ids);
        }
        CollisionResult::Nothing
    }
}

} // verus!

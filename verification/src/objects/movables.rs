//! Bodies of the universe: their kinds, their identifiers, and the allocator
//! that hands identifiers out.

pub use crate::objects::collision_frame::CollisionFrame;
pub use crate::objects::collision_set::CollisionSet;
use std::cmp::Ordering;
use vstd::prelude::*;

verus! {

/// The category a body belongs to.
#[derive(Debug, Copy, Clone, PartialEq, Eq, Structural)]
pub enum ObjectType {
    BlackHole,
    World,
}

/// Identifier of a body, unique within the body's category.
#[derive(Debug, Copy, Clone, PartialEq, Eq, Structural)]
pub struct ID(u32);

/// Source of identifiers. Each category has a counter of its own that hands
/// out 0, 1, 2, ... and never hands out a number twice.
#[derive(Debug)]
pub struct IdAllocator {
    blackholes: u32,
    worlds: u32,
}

impl IdAllocator {
    /// The identifier that the next body of kind `otype` receives.
    pub closed spec fn spec_peek(&self, otype: ObjectType) -> u32 {
        match otype {
            ObjectType::BlackHole => self.blackholes,
            ObjectType::World => self.worlds,
        }
    }

    /// An allocator that has handed out nothing yet.
    pub fn new() -> (ids: IdAllocator)
        ensures
            ids.peek(ObjectType::BlackHole) == 0,
            ids.peek(ObjectType::World) == 0,
    {
        IdAllocator { blackholes: 0, worlds: 0 }
    }

    /// The identifier that the next body of kind `otype` receives.
    #[verifier::when_used_as_spec(spec_peek)]
    pub fn peek(&self, otype: ObjectType) -> (next: u32)
        ensures
            next == self.peek(otype),
    {
        match otype {
            ObjectType::BlackHole => self.blackholes,
            ObjectType::World => self.worlds,
        }
    }

    /// How many identifiers of kind `otype` are left to hand out.
    pub fn remaining(&self, otype: ObjectType) -> (left: u32)
        ensures
            left == u32::MAX - self.peek(otype),
    {
        u32::MAX - self.peek(otype)
    }

    /// Hands out the next identifier of kind `otype`.
    pub fn allocate(&mut self, otype: ObjectType) -> (id: u32)
        requires
            old(self).peek(otype) < u32::MAX,
        ensures
            id == old(self).peek(otype),
            final(self).peek(otype) == old(self).peek(otype) + 1,
            forall|other: ObjectType| other != otype ==> final(self).peek(other) == old(self).peek(other),
    {
        match otype {
            ObjectType::BlackHole => {
                let id: u32 = self.blackholes;
                self.blackholes = id + 1;
                id
            },
            ObjectType::World => {
                let id: u32 = self.worlds;
                self.worlds = id + 1;
                id
            },
        }
    }
}

/// One simulated mass, as far as collision bookkeeping is concerned: which
/// category it belongs to and which identifier it carries in that category.
///
/// Identifiers come from an [`IdAllocator`] when the body is created and never
/// change. Two bodies are the same body when their identifiers agree; where a
/// body happens to be plays no part in that.
#[derive(Debug, Copy, Clone)]
pub struct Movable {
    id: ID,
    pub otype: ObjectType,
}

impl Movable {
    /// The identifier of this body.
    pub closed spec fn spec_get_id(&self) -> u32 {
        self.id.0
    }

    /// The category of this body.
    pub closed spec fn spec_kind(&self) -> ObjectType {
        self.otype
    }

    /// Creates a body of kind `otype` and gives it the next free identifier
    /// of that kind.
    pub fn new(otype: &ObjectType, ids: &mut IdAllocator) -> (body: Movable)
        requires
            old(ids).peek(*otype) < u32::MAX,
        ensures
            body.get_id() == old(ids).peek(*otype),
            body.kind() == *otype,
            final(ids).peek(*otype) == old(ids).peek(*otype) + 1,
            forall|other: ObjectType| other != *otype ==> final(ids).peek(other) == old(ids).peek(other),
    {
        let id: u32 = ids.allocate(*otype);
        Movable { id: ID(id), otype: *otype }
    }

    /// The identifier of this body.
    #[verifier::when_used_as_spec(spec_get_id)]
    pub fn get_id(&self) -> (id: u32)
        ensures
            id == self.get_id(),
    {
        self.id.0
    }

    /// The category of this body.
    #[verifier::when_used_as_spec(spec_kind)]
    pub fn kind(&self) -> (otype: ObjectType)
        ensures
            otype == self.kind(),
    {
        self.otype
    }

    /// Orders two bodies by identifier.
    pub fn cmp(&self, other: &Self) -> (order: Ordering)
        ensures
            order == identifier_order(self.get_id(), other.get_id()),
    {
        let my_index: u32 = self.get_id();
        let other_index: u32 = other.get_id();

        if my_index < other_index {
            Ordering::Less
        } else if my_index > other_index {
            Ordering::Greater
        } else {
            Ordering::Equal
        }
    }

    /// The identity of the black hole that two colliding bodies merge into.
    /// It is a new body: it takes the next free black-hole identifier.
    fn generate_blackhole(one: &Self, two: &Self, ids: &mut IdAllocator) -> (merged: Movable)
        requires
            old(ids).peek(ObjectType::BlackHole) < u32::MAX,
        ensures
            merged.get_id() == old(ids).peek(ObjectType::BlackHole),
            merged.kind() == ObjectType::BlackHole,
            final(ids).peek(ObjectType::BlackHole) == old(ids).peek(ObjectType::BlackHole) + 1,
            final(ids).peek(ObjectType::World) == old(ids).peek(ObjectType::World),
    {
        Movable::new(&ObjectType::BlackHole, ids)
    }

    /// The identities of the two fragments that a shattered body leaves
    /// behind. Both are new bodies of the black-hole category and take the
    /// next two free identifiers there.
    fn split_planet(&self, ids: &mut IdAllocator) -> (fragments: (Movable, Movable))
        requires
            old(ids).peek(ObjectType::BlackHole) + 2 <= u32::MAX,
        ensures
            fragments.0.get_id() == old(ids).peek(ObjectType::BlackHole),
            fragments.1.get_id() == old(ids).peek(ObjectType::BlackHole) + 1,
            fragments.0.kind() == ObjectType::BlackHole,
            fragments.1.kind() == ObjectType::BlackHole,
            final(ids).peek(ObjectType::BlackHole) == old(ids).peek(ObjectType::BlackHole) + 2,
            final(ids).peek(ObjectType::World) == old(ids).peek(ObjectType::World),
    {
        let p1 = Movable::new(&ObjectType::BlackHole, ids);
        let p2 = Movable::new(&ObjectType::BlackHole, ids);
        (p1, p2)
    }

    /// Tells whether some body among `items` is a black hole.
    pub fn holds_blackhole(items: &[Movable]) -> (found: bool)
        ensures
            found == any_blackhole(items@),
    {
        let mut k: usize = 0;
        while k < items.len()
            invariant
                k <= items@.len(),
                forall|i: int| 0 <= i < k ==> (#[trigger] items@[i]).kind() != ObjectType::BlackHole,
            decreases items@.len() - k,
        {
            if items[k].otype == ObjectType::BlackHole {
                return true;
            }
            k += 1;
        }
        false
    }

    /// Resolves the collision of the bodies in `items`, which all ran into one
    /// another within one frame, and says which bodies take their place.
    ///
    /// Nothing collides where there are no bodies. Where at least one of the
    /// bodies is a black hole, the bodies merge pairwise from left to right
    /// into a single black hole; every merge makes a new body, so the one that
    /// is left carries the last of `count - 1` fresh identifiers. Where all of
    /// them are worlds, each shatters into two fragments, which come out in
    /// the order of their parents.
    pub fn process_collisions(items: &[Movable], ids: &mut IdAllocator) -> (result: CollisionResult)
        requires
            items@.len() == 1 ==> !any_blackhole(items@),
            old(ids).peek(ObjectType::BlackHole) + identifiers_used(
                items@.len(),
                any_blackhole(items@),
            ) <= u32::MAX,
        ensures
            items@.len() == 0 ==> result is Nothing,
            items@.len() > 0 && any_blackhole(items@) ==> result is Single,
            items@.len() > 0 && !any_blackhole(items@) ==> result is NSize,
            blackholes_numbered(
                result.bodies(),
                identifiers_left(
                    items@.len(),
                    any_blackhole(items@),
                    old(ids).peek(ObjectType::BlackHole) as int,
                ),
            ),
            final(ids).peek(ObjectType::BlackHole) == old(ids).peek(ObjectType::BlackHole)
                + identifiers_used(items@.len(), any_blackhole(items@)),
            final(ids).peek(ObjectType::World) == old(ids).peek(ObjectType::World),
    {
        let count: usize = items.len();
        if count == 0 {
            return CollisionResult::Nothing;
        }
        let ghost first: int = ids.peek(ObjectType::BlackHole) as int;

        if Movable::holds_blackhole(items) {
            let mut cur = Movable::generate_blackhole(&items[0], &items[1], ids);

            let mut k: usize = 2;
            while k < count
                invariant
                    2 <= k <= count,
                    count == items@.len(),
                    first + count - 1 <= u32::MAX,
                    cur.get_id() == first + k - 2,
                    cur.kind() == ObjectType::BlackHole,
                    ids.peek(ObjectType::BlackHole) == first + k - 1,
                    ids.peek(ObjectType::World) == old(ids).peek(ObjectType::World),
                decreases count - k,
            {
                cur = Movable::generate_blackhole(&cur, &items[k], ids);
                k += 1;
            }

            CollisionResult::Single(cur)
        } else {
            let mut vec: Vec<Movable> = Vec::new();
            let mut k: usize = 0;
            while k < count
                invariant
                    k <= count,
                    count == items@.len(),
                    first + 2 * count <= u32::MAX,
                    vec@.len() == 2 * k,
                    forall|i: int|
                        0 <= i < vec@.len() ==> (#[trigger] vec@[i]).get_id() == first + i
                            && vec@[i].kind() == ObjectType::BlackHole,
                    ids.peek(ObjectType::BlackHole) == first + 2 * k,
                    ids.peek(ObjectType::World) == old(ids).peek(ObjectType::World),
                decreases count - k,
            {
                let (p1, p2) = items[k].split_planet(ids);
                vec.push(p1);
                vec.push(p2);
                k += 1;
            }

            CollisionResult::NSize(vec)
        }
    }

    /// A body is fixed by its identifier and its kind.
    pub proof fn lemma_same_body(a: Movable, b: Movable)
        requires
            a.get_id() == b.get_id(),
            a.kind() == b.kind(),
        ensures
            a == b,
    {
    }
}

/// What a collision leaves behind.
pub enum CollisionResult {
    /// No body takes the place of those that collided.
    Nothing,
    /// One body takes the place of those that collided.
    Single(Movable),
    /// Several bodies take their place.
    NSize(Vec<Movable>),
}

impl CollisionResult {
    /// The bodies that the collision left behind, in order.
    pub open spec fn bodies(&self) -> Seq<Movable> {
        match self {
            CollisionResult::Nothing => Seq::empty(),
            CollisionResult::Single(body) => seq![*body],
            CollisionResult::NSize(bodies) => bodies@,
        }
    }
}

/// Whether some body among `items` is a black hole.
pub open spec fn any_blackhole(items: Seq<Movable>) -> bool {
    exists|i: int| 0 <= i < items.len() && (#[trigger] items[i]).kind() == ObjectType::BlackHole
}

/// How many fresh black-hole identifiers the collision of `count` bodies
/// uses up: one for each pairwise merge where a black hole is among them,
/// two for each body where all of them shatter.
pub open spec fn identifiers_used(count: nat, blackhole: bool) -> nat {
    if count == 0 {
        0
    } else if blackhole {
        (count - 1) as nat
    } else {
        2 * count
    }
}

/// The identifiers of the bodies that the collision of `count` bodies leaves
/// behind, where `next` is the first free black-hole identifier: the last of
/// the identifiers used where the bodies merge, all of them where they shatter.
pub open spec fn identifiers_left(count: nat, blackhole: bool, next: int) -> Seq<int>
    recommends
        blackhole ==> count != 1,
{
    if count == 0 {
        Seq::empty()
    } else if blackhole {
        seq![next + count - 2]
    } else {
        Seq::new(2 * count, |k: int| next + k)
    }
}

/// Whether `bodies` are black holes that carry the identifiers `numbers`, one
/// by one.
pub open spec fn blackholes_numbered(bodies: Seq<Movable>, numbers: Seq<int>) -> bool {
    &&& bodies.len() == numbers.len()
    &&& forall|k: int|
        0 <= k < bodies.len() ==> (#[trigger] bodies[k]).get_id() == numbers[k] && bodies[k].kind()
            == ObjectType::BlackHole
}

/// How two identifiers compare.
pub open spec fn identifier_order(a: u32, b: u32) -> Ordering {
    if a < b {
        Ordering::Less
    } else if a > b {
        Ordering::Greater
    } else {
        Ordering::Equal
    }
}

impl PartialEq for Movable {
    /// Two bodies are equal when they carry the same identifier.
    fn eq(&self, other: &Self) -> (same: bool) {
        self.id.0 == other.id.0
    }
}

impl Eq for Movable {}

impl vstd::std_specs::cmp::PartialEqSpecImpl for Movable {
    open spec fn obeys_eq_spec() -> bool {
        true
    }

    open spec fn eq_spec(&self, other: &Self) -> bool {
        self.get_id() == other.get_id()
    }
}

impl PartialOrd for Movable {
    /// Bodies are ordered by identifier.
    fn partial_cmp(&self, other: &Self) -> (order: Option<Ordering>) {
        Some(self.cmp(other))
    }
}

impl vstd::std_specs::cmp::PartialOrdSpecImpl for Movable {
    open spec fn obeys_partial_cmp_spec() -> bool {
        true
    }

    open spec fn partial_cmp_spec(&self, other: &Self) -> Option<Ordering> {
        Some(identifier_order(self.get_id(), other.get_id()))
    }
}

} // verus!

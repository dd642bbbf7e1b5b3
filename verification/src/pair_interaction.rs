//! The data consumed by the groupers: bodies, body pairs, and the two
//! interaction variants (contact manifolds and joint edges), unified by the
//! `PairInteraction` capability.

use vstd::prelude::*;
use crate::NUM_JOINT_TYPES;

verus! {

/// An unordered pair of body handles, stored as two indices into the body
/// store handed to a grouping call.
#[derive(Clone, Copy, PartialEq, Eq, Structural)]
pub struct BodyPair {
    pub body1: usize,
    pub body2: usize,
}

impl BodyPair {
    pub fn new(body1: usize, body2: usize) -> (r: BodyPair)
        ensures
            r.body1 == body1,
            r.body2 == body2,
    {
        BodyPair { body1, body2 }
    }
}

/// The part of a rigid body that grouping consults: whether its state is
/// integrated (dynamic) and its dense offset within the island.
#[derive(Clone, Copy, PartialEq, Eq, Structural)]
pub struct RigidBody {
    pub dynamic: bool,
    pub active_set_offset: usize,
}

impl RigidBody {
    pub fn is_dynamic(&self) -> (r: bool)
        ensures
            r == self.dynamic,
    {
        self.dynamic
    }

    pub fn is_static(&self) -> (r: bool)
        ensures
            r == !self.dynamic,
    {
        !self.dynamic
    }
}

/// The part of a contact manifold that grouping consults.
#[derive(Clone, Copy, PartialEq, Eq, Structural)]
pub struct ContactManifold {
    pub body_pair: BodyPair,
    pub num_active_contacts: usize,
}

/// The part of a joint edge that grouping consults: its endpoints, its
/// subtype tag, and whether the vectorized kernel supports it.
#[derive(Clone, Copy, PartialEq, Eq, Structural)]
pub struct JointGraphEdge {
    pub body1: usize,
    pub body2: usize,
    pub joint_type: usize,
    pub supports_simd: bool,
}

impl JointGraphEdge {
    pub fn supports_simd_constraints(&self) -> (r: bool)
        ensures
            r == self.supports_simd,
    {
        self.supports_simd
    }

    /// The joint subtype tag, in `[0, NUM_JOINT_TYPES)` for a well-formed edge.
    pub fn type_id(&self) -> (r: usize)
        ensures
            r == self.joint_type,
    {
        self.joint_type
    }
}

/// An index into a caller-owned contact manifold array.
pub type ContactManifoldIndex = usize;

/// An index into a caller-owned joint edge array.
pub type JointIndex = usize;

/// Anything that yields an ordered pair of body handles.
pub trait PairInteraction {
    spec fn spec_body_pair(&self) -> BodyPair;

    fn body_pair(&self) -> (r: BodyPair)
        ensures
            r == self.spec_body_pair(),
    ;
}

impl PairInteraction for ContactManifold {
    open spec fn spec_body_pair(&self) -> BodyPair {
        self.body_pair
    }

    fn body_pair(&self) -> (r: BodyPair) {
        self.body_pair
    }
}

impl PairInteraction for JointGraphEdge {
    open spec fn spec_body_pair(&self) -> BodyPair {
        BodyPair { body1: self.body1, body2: self.body2 }
    }

    fn body_pair(&self) -> (r: BodyPair) {
        BodyPair::new(self.body1, self.body2)
    }
}

/// Both body handles of `p` are valid for the body store `bodies`, and each
/// referenced body's dense offset lies within the island (whose body count is
/// `bodies.len()`).
pub open spec fn pair_in_range(p: BodyPair, bodies: Seq<RigidBody>) -> bool {
    &&& p.body1 < bodies.len()
    &&& p.body2 < bodies.len()
    &&& bodies[p.body1 as int].active_set_offset < bodies.len()
    &&& bodies[p.body2 as int].active_set_offset < bodies.len()
}

/// At least one body of `p` is dynamic.
pub open spec fn pair_has_dynamic(p: BodyPair, bodies: Seq<RigidBody>) -> bool {
    bodies[p.body1 as int].dynamic || bodies[p.body2 as int].dynamic
}

/// Body handle `b` is a dynamic participant of the pair `p`.
pub open spec fn is_dynamic_participant(b: usize, p: BodyPair, bodies: Seq<RigidBody>) -> bool {
    (p.body1 == b || p.body2 == b) && bodies[b as int].dynamic
}

/// Island offset `o` is the dense offset of a dynamic participant of `p`.
pub open spec fn is_dynamic_offset(o: int, p: BodyPair, bodies: Seq<RigidBody>) -> bool {
    ||| (bodies[p.body1 as int].dynamic && bodies[p.body1 as int].active_set_offset == o)
    ||| (bodies[p.body2 as int].dynamic && bodies[p.body2 as int].active_set_offset == o)
}

/// The pairs `p` and `q` share no dynamic island offset (hence no dynamic
/// body).
pub open spec fn dynamic_disjoint(p: BodyPair, q: BodyPair, bodies: Seq<RigidBody>) -> bool {
    forall|o: int| !(is_dynamic_offset(o, p, bodies) && is_dynamic_offset(o, q, bodies))
}

/// The joint subtype tag is in range.
pub open spec fn joint_in_range(j: JointGraphEdge) -> bool {
    j.joint_type < NUM_JOINT_TYPES
}

} // verus!

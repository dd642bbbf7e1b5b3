//! Lane groups for the vectorized solver, by greedy bin packing.
//!
//! Interactions are gathered into buckets of `SIMD_WIDTH` lanes such that
//! the interactions of a completed bucket share no dynamic body (and, for
//! joints, share one subtype).  A completed bucket is flushed to
//! `grouped_interactions`; whatever cannot be packed spills to
//! `nongrouped_interactions`.

use vstd::prelude::*;
use vstd::seq_lib::lemma_multiset_commutative;
use vstd::multiset::Multiset;
use crate::bits::{bit, lemma_bit_or, lemma_bit_and, lemma_bit_not, lemma_bit_zero, lemma_set_bit,
    lemma_clear_bit, lemma_lowest_set_props, trailing_zeros128};
use crate::pair_interaction::{BodyPair, RigidBody, ContactManifold, JointGraphEdge, JointIndex,
    ContactManifoldIndex, PairInteraction, pair_in_range, pair_has_dynamic, is_dynamic_offset,
    dynamic_disjoint, joint_in_range};
use crate::{SIMD_WIDTH, SIMD_LAST_INDEX, NUM_JOINT_TYPES};

verus! {

broadcast use vstd::multiset::group_multiset_axioms, vstd::multiset::group_multiset_properties;

#[verifier::external_type_specification]
#[verifier::external_body]
#[verifier::reject_recursive_types(V)]
pub struct ExVecMap<V>(vec_map::VecMap<V>);

/// What the bucket map holds: each bucket index maps to the interaction
/// indices currently written to its lanes, in lane order.
pub uninterp spec fn bucket_map_view(m: vec_map::VecMap<Vec<usize>>) -> Map<int, Seq<usize>>;

/// Relies on vec_map::VecMap::new: the new map holds no entry.
#[verifier::external_body]
fn bucket_map_new() -> (r: vec_map::VecMap<Vec<usize>>)
    ensures
        forall|c: int| !bucket_map_view(r).dom().contains(c),
{
    vec_map::VecMap::new()
}

/// Relies on vec_map::VecMap::get: returns the value stored at the key, or
/// nothing when the key is absent.
#[verifier::external_body]
fn bucket_map_get(m: &vec_map::VecMap<Vec<usize>>, key: usize) -> (r: Option<Vec<usize>>)
    ensures
        match r {
            Some(v) => bucket_map_view(*m).dom().contains(key as int) && v@ == bucket_map_view(
                *m,
            )[key as int],
            None => !bucket_map_view(*m).dom().contains(key as int),
        },
{
    m.get(key).cloned()
}

/// Relies on vec_map::VecMap::insert: stores the value at the key,
/// replacing any previous value there.
#[verifier::external_body]
fn bucket_map_insert(m: &mut vec_map::VecMap<Vec<usize>>, key: usize, value: Vec<usize>)
    ensures
        bucket_map_view(*final(m)) == bucket_map_view(*old(m)).insert(key as int, value@),
{
    m.insert(key, value);
}

/// Relies on vec_map::VecMap::clear: removes every entry.
#[verifier::external_body]
fn bucket_map_clear(m: &mut vec_map::VecMap<Vec<usize>>)
    ensures
        forall|c: int| !bucket_map_view(*final(m)).dom().contains(c),
{
    m.clear()
}

/// The contents of the buckets with index below `k`, in ascending bucket
/// order: the order in which end-of-pass spilling emits them.
pub open spec fn spill_upto(b: Map<int, Seq<usize>>, k: int) -> Seq<usize>
    decreases k,
{
    if k <= 0 {
        Seq::empty()
    } else {
        spill_upto(b, k - 1) + if b.dom().contains(k - 1) {
            b[k - 1]
        } else {
            Seq::empty()
        }
    }
}

/// Every spilled element comes from some bucket.
proof fn lemma_spill_membership(b: Map<int, Seq<usize>>, k: int, p: int) -> (r: (int, int))
    requires
        0 <= p < spill_upto(b, k).len(),
    ensures
        b.dom().contains(r.0),
        0 <= r.1 < b[r.0].len(),
        b[r.0][r.1] == spill_upto(b, k)[p],
    decreases k,
{
    if p < spill_upto(b, k - 1).len() {
        lemma_spill_membership(b, k - 1, p)
    } else {
        (k - 1, p - spill_upto(b, k - 1).len())
    }
}

/// A lane entry of a joint bucket: a selected, in-range, SIMD-eligible
/// joint with at least one dynamic body.
pub open spec fn joint_lane_ok(
    e: usize,
    interactions: Seq<JointGraphEdge>,
    bodies: Seq<RigidBody>,
    indices: Seq<usize>,
) -> bool {
    &&& e < interactions.len()
    &&& pair_in_range(interactions[e as int].spec_body_pair(), bodies)
    &&& pair_has_dynamic(interactions[e as int].spec_body_pair(), bodies)
    &&& interactions[e as int].supports_simd
    &&& joint_in_range(interactions[e as int])
    &&& indices.contains(e)
}

/// A completed joint group: its lanes are in range, SIMD-eligible, of one
/// subtype, and pairwise free of shared dynamic bodies.
pub open spec fn joint_block_ok(
    g: Seq<usize>,
    m: int,
    interactions: Seq<JointGraphEdge>,
    bodies: Seq<RigidBody>,
) -> bool {
    &&& forall|p: int|
        m <= p < m + SIMD_WIDTH ==> (#[trigger] g[p]) < interactions.len()
            && interactions[g[p] as int].supports_simd && interactions[g[p] as int].joint_type
            == interactions[g[m] as int].joint_type
    &&& forall|p: int, q: int|
        m <= p < q < m + SIMD_WIDTH ==> dynamic_disjoint(
            interactions[(#[trigger] g[p]) as int].spec_body_pair(),
            interactions[(#[trigger] g[q]) as int].spec_body_pair(),
            bodies,
        )
}

/// The packer's in-flight state is consistent: bucket sizes, the occupied
/// mask, the joint-type conflict words, and the body masks all agree with
/// the bucket contents.
pub open spec fn joint_buckets_ok(
    b: Map<int, Seq<usize>>,
    occ: u128,
    jconf: Seq<u128>,
    masks: Seq<u128>,
    interactions: Seq<JointGraphEdge>,
    bodies: Seq<RigidBody>,
    indices: Seq<usize>,
) -> bool {
    &&& jconf.len() == NUM_JOINT_TYPES
    &&& masks.len() == bodies.len()
    &&& forall|c: int|
        #[trigger] b.dom().contains(c) ==> 0 <= c < 128 && b[c].len() <= SIMD_LAST_INDEX
    &&& forall|c: int|
        0 <= c < 128 ==> (#[trigger] bit(occ, c as u128) <==> b.dom().contains(c) && b[c].len()
            >= 1)
    &&& forall|c: int, p: int|
        b.dom().contains(c) && 0 <= p < b[c].len() ==> joint_lane_ok(
            #[trigger] b[c][p],
            interactions,
            bodies,
            indices,
        )
    &&& forall|c: int, p: int, q: int|
        b.dom().contains(c) && 0 <= p < q < b[c].len() ==> dynamic_disjoint(
            interactions[(#[trigger] b[c][p]) as int].spec_body_pair(),
            interactions[(#[trigger] b[c][q]) as int].spec_body_pair(),
            bodies,
        )
    &&& forall|c: int, p: int|
        b.dom().contains(c) && 0 < p < b[c].len() ==> interactions[(
        #[trigger] b[c][p]) as int].joint_type == interactions[b[c][0] as int].joint_type
    &&& forall|c: int, p: int, o: int|
        #![trigger b[c][p], masks[o]]
        b.dom().contains(c) && 0 <= p < b[c].len() && is_dynamic_offset(
            o,
            interactions[b[c][p] as int].spec_body_pair(),
            bodies,
        ) ==> bit(masks[o], c as u128)
    &&& forall|c: int, t: int|
        #![trigger b.dom().contains(c), jconf[t]]
        b.dom().contains(c) && b[c].len() >= 1 && 0 <= t < NUM_JOINT_TYPES && t != interactions[b[c][0] as int].joint_type ==> bit(jconf[t], c as u128)
}

/// Every selected joint index is in range, with in-range bodies, island
/// offsets, and subtype tag.
pub open spec fn joints_in_range(
    interactions: Seq<JointGraphEdge>,
    bodies: Seq<RigidBody>,
    indices: Seq<usize>,
) -> bool {
    forall|t: int|
        0 <= t < indices.len() ==> (#[trigger] indices[t]) < interactions.len() && pair_in_range(
            interactions[indices[t] as int].spec_body_pair(),
            bodies,
        ) && joint_in_range(interactions[indices[t] as int])
}

/// The selected joints that grouping emits: every index whose pair has a
/// dynamic body, in selection order (static pairs are dropped).
pub open spec fn joints_kept(
    interactions: Seq<JointGraphEdge>,
    bodies: Seq<RigidBody>,
    indices: Seq<usize>,
    n: int,
) -> Seq<usize>
    decreases n,
{
    if n <= 0 {
        Seq::empty()
    } else {
        joints_kept(interactions, bodies, indices, n - 1) + if pair_has_dynamic(
            interactions[indices[n - 1] as int].spec_body_pair(),
            bodies,
        ) {
            seq![indices[n - 1]]
        } else {
            Seq::empty()
        }
    }
}

proof fn lemma_empty_seq_multiset()
    ensures
        Seq::<usize>::empty().to_multiset() == Multiset::<usize>::empty(),
{
    Seq::<usize>::empty().to_multiset_ensures();
    assert(Seq::<usize>::empty().to_multiset() =~= Multiset::<usize>::empty());
}

proof fn lemma_spill_upto_unmapped(b: Map<int, Seq<usize>>, k: int)
    requires
        forall|c: int| !b.dom().contains(c),
    ensures
        spill_upto(b, k) == Seq::<usize>::empty(),
    decreases k,
{
    if k > 0 {
        lemma_spill_upto_unmapped(b, k - 1);
        assert(spill_upto(b, k) =~= Seq::<usize>::empty());
    }
}

proof fn lemma_spill_upto_insert_above(b: Map<int, Seq<usize>>, c: int, v: Seq<usize>, k: int)
    requires
        k <= c,
    ensures
        spill_upto(b.insert(c, v), k) == spill_upto(b, k),
    decreases k,
{
    if k > 0 {
        lemma_spill_upto_insert_above(b, c, v, k - 1);
        assert(spill_upto(b.insert(c, v), k) =~= spill_upto(b, k));
    }
}

/// Replacing the contents of one bucket exchanges exactly that bucket's
/// contribution to the spill stream.
proof fn lemma_spill_upto_insert(b: Map<int, Seq<usize>>, c: int, v: Seq<usize>, k: int)
    requires
        0 <= c < k,
    ensures
        spill_upto(b.insert(c, v), k).to_multiset().add(
            (if b.dom().contains(c) {
                b[c]
            } else {
                Seq::<usize>::empty()
            }).to_multiset(),
        ) == spill_upto(b, k).to_multiset().add(v.to_multiset()),
    decreases k,
{
    let b2 = b.insert(c, v);
    let oldpiece = if b.dom().contains(c) {
        b[c]
    } else {
        Seq::<usize>::empty()
    };
    let piece1 = if b.dom().contains(k - 1) {
        b[k - 1]
    } else {
        Seq::<usize>::empty()
    };
    let piece2 = if b2.dom().contains(k - 1) {
        b2[k - 1]
    } else {
        Seq::<usize>::empty()
    };
    assert(spill_upto(b, k) == spill_upto(b, k - 1) + piece1);
    assert(spill_upto(b2, k) == spill_upto(b2, k - 1) + piece2);
    lemma_multiset_commutative(spill_upto(b, k - 1), piece1);
    lemma_multiset_commutative(spill_upto(b2, k - 1), piece2);
    if c == k - 1 {
        assert(piece1 == oldpiece);
        lemma_spill_upto_insert_above(b, c, v, k - 1);
        assert(piece2 == v);
        assert(spill_upto(b2, k - 1) == spill_upto(b, k - 1));
        assert(spill_upto(b2, k).to_multiset() =~= spill_upto(b, k - 1).to_multiset().add(
            v.to_multiset(),
        ));
        assert(spill_upto(b, k).to_multiset() =~= spill_upto(b, k - 1).to_multiset().add(
            oldpiece.to_multiset(),
        ));
        let lhsm = spill_upto(b2, k).to_multiset().add(oldpiece.to_multiset());
        let rhsm = spill_upto(b, k).to_multiset().add(v.to_multiset());
        assert forall|e: usize| lhsm.count(e) == rhsm.count(e) by {
            assert(spill_upto(b2, k).to_multiset().count(e) == spill_upto(
                b,
                k - 1,
            ).to_multiset().count(e) + v.to_multiset().count(e));
            assert(spill_upto(b, k).to_multiset().count(e) == spill_upto(
                b,
                k - 1,
            ).to_multiset().count(e) + oldpiece.to_multiset().count(e));
        }
        lemma_multiset_eq(lhsm, rhsm);
    } else {
        lemma_spill_upto_insert(b, c, v, k - 1);
        assert(piece2 == piece1);
        let lhsm = spill_upto(b2, k).to_multiset().add(oldpiece.to_multiset());
        let rhsm = spill_upto(b, k).to_multiset().add(v.to_multiset());
        assert forall|e: usize| lhsm.count(e) == rhsm.count(e) by {
            assert(spill_upto(b2, k - 1).to_multiset().add(oldpiece.to_multiset()).count(e)
                == spill_upto(b, k - 1).to_multiset().add(v.to_multiset()).count(e));
            assert(spill_upto(b2, k - 1).to_multiset().count(e) + oldpiece.to_multiset().count(e)
                == spill_upto(b, k - 1).to_multiset().count(e) + v.to_multiset().count(e));
            assert(spill_upto(b2, k).to_multiset().count(e) == spill_upto(
                b2,
                k - 1,
            ).to_multiset().count(e) + piece2.to_multiset().count(e));
            assert(spill_upto(b, k).to_multiset().count(e) == spill_upto(
                b,
                k - 1,
            ).to_multiset().count(e) + piece1.to_multiset().count(e));
        }
        lemma_multiset_eq(lhsm, rhsm);
    }
}

/// Two multisets with the same count for every value are equal.
proof fn lemma_multiset_eq(m1: Multiset<usize>, m2: Multiset<usize>)
    requires
        forall|e: usize| m1.count(e) == m2.count(e),
    ensures
        m1 == m2,
{
    assert(m1 =~= m2);
}

/// Adding an element to the middle stream of a three-way union adds it to
/// the whole.
proof fn lemma_union3_insert_ng(
    g: Multiset<usize>,
    ng: Multiset<usize>,
    sp: Multiset<usize>,
    kept: Multiset<usize>,
    x: usize,
)
    requires
        g.add(ng).add(sp) == kept,
    ensures
        g.add(ng.insert(x)).add(sp) == kept.insert(x),
{
    let lhs = g.add(ng.insert(x)).add(sp);
    assert forall|e: usize| lhs.count(e) == kept.insert(x).count(e) by {
        assert(g.add(ng).add(sp).count(e) == kept.count(e));
    }
    lemma_multiset_eq(lhs, kept.insert(x));
}

/// Adding an element to the bucket stream of a three-way union adds it to
/// the whole.
proof fn lemma_union3_insert_sp(
    g: Multiset<usize>,
    ng: Multiset<usize>,
    sp: Multiset<usize>,
    kept: Multiset<usize>,
    x: usize,
)
    requires
        g.add(ng).add(sp) == kept,
    ensures
        g.add(ng).add(sp.insert(x)) == kept.insert(x),
{
    let lhs = g.add(ng).add(sp.insert(x));
    assert forall|e: usize| lhs.count(e) == kept.insert(x).count(e) by {
        assert(g.add(ng).add(sp).count(e) == kept.count(e));
    }
    lemma_multiset_eq(lhs, kept.insert(x));
}

/// Completing a bucket moves its lanes, plus the new element, from the
/// bucket stream to the grouped stream.
proof fn lemma_union3_flush(
    g: Multiset<usize>,
    ng: Multiset<usize>,
    sp: Multiset<usize>,
    kept: Multiset<usize>,
    lanes: Multiset<usize>,
    spnew: Multiset<usize>,
    x: usize,
)
    requires
        g.add(ng).add(sp) == kept,
        spnew.add(lanes) == sp,
    ensures
        g.add(lanes.insert(x)).add(ng).add(spnew) == kept.insert(x),
{
    let lhs = g.add(lanes.insert(x)).add(ng).add(spnew);
    assert forall|e: usize| lhs.count(e) == kept.insert(x).count(e) by {
        assert(g.add(ng).add(sp).count(e) == kept.count(e));
        assert(spnew.add(lanes).count(e) == sp.count(e));
    }
    lemma_multiset_eq(lhs, kept.insert(x));
}

/// Cancellation: exchanging one bucket's contents for the same contents
/// plus one element inserts that element into the spill stream.
proof fn lemma_cancel_insert(
    sp2: Multiset<usize>,
    sp: Multiset<usize>,
    ol: Multiset<usize>,
    x: usize,
)
    requires
        sp2.add(ol) == sp.add(ol.insert(x)),
    ensures
        sp2 == sp.insert(x),
{
    assert forall|e: usize| sp2.count(e) == sp.insert(x).count(e) by {
        vstd::multiset::axiom_multiset_add(sp2, ol, e);
        vstd::multiset::axiom_multiset_add(sp, ol.insert(x), e);
        assert(sp2.add(ol).count(e) == sp.add(ol.insert(x)).count(e));
        if e == x {
            assert(Multiset::<usize>::singleton(x).count(e) == 1);
        } else {
            assert(Multiset::<usize>::singleton(x).count(e) == 0);
        }
        assert(ol.insert(x).count(e) == ol.count(e) + Multiset::<usize>::singleton(x).count(e));
        assert(sp.insert(x).count(e) == sp.count(e) + Multiset::<usize>::singleton(x).count(e));
    }
    lemma_multiset_eq(sp2, sp.insert(x));
}

/// Adding the empty multiset changes nothing.
proof fn lemma_add_empty(m: Multiset<usize>)
    ensures
        m.add(Multiset::<usize>::empty()) == m,
{
    assert forall|e: usize| m.add(Multiset::<usize>::empty()).count(e) == m.count(e) by {
        vstd::multiset::axiom_multiset_add(m, Multiset::<usize>::empty(), e);
    }
    lemma_multiset_eq(m.add(Multiset::<usize>::empty()), m);
}

/// Folding the spilled bucket stream into the non-grouped stream keeps the
/// three-way union.
proof fn lemma_union3_close(
    g: Multiset<usize>,
    ng: Multiset<usize>,
    sp: Multiset<usize>,
    kept: Multiset<usize>,
)
    requires
        g.add(ng).add(sp) == kept,
    ensures
        g.add(ng.add(sp)) == kept,
{
    assert forall|e: usize| g.add(ng.add(sp)).count(e) == kept.count(e) by {
        vstd::multiset::axiom_multiset_add(g, ng.add(sp), e);
        vstd::multiset::axiom_multiset_add(ng, sp, e);
        vstd::multiset::axiom_multiset_add(g.add(ng), sp, e);
        vstd::multiset::axiom_multiset_add(g, ng, e);
    }
    lemma_multiset_eq(g.add(ng.add(sp)), kept);
}

/// Routing the current candidate to the non-grouped list keeps the union
/// equation: both sides gain exactly that index.
proof fn lemma_joints_kept_step_union(
    gsk: Multiset<usize>,
    nsnap: Seq<usize>,
    n0len: int,
    sp: Multiset<usize>,
    keptm: Seq<usize>,
    interactions: Seq<JointGraphEdge>,
    bodies: Seq<RigidBody>,
    indices: Seq<usize>,
    t: int,
    idx: usize,
)
    requires
        0 <= n0len <= nsnap.len(),
        0 <= t < indices.len(),
        indices[t] == idx,
        pair_has_dynamic(interactions[idx as int].spec_body_pair(), bodies),
        keptm == joints_kept(interactions, bodies, indices, t),
        gsk.add(nsnap.skip(n0len).to_multiset()).add(sp) == keptm.to_multiset(),
    ensures
        gsk.add(nsnap.push(idx).skip(n0len).to_multiset()).add(sp) == joints_kept(
            interactions,
            bodies,
            indices,
            t + 1,
        ).to_multiset(),
{
    assert(nsnap.push(idx).skip(n0len) =~= nsnap.skip(n0len).push(idx));
    nsnap.skip(n0len).to_multiset_ensures();
    assert(joints_kept(interactions, bodies, indices, t + 1) =~= keptm.push(idx));
    keptm.to_multiset_ensures();
    lemma_union3_insert_ng(gsk, nsnap.skip(n0len).to_multiset(), sp, keptm.to_multiset(), idx);
}

/// The pair of the joint at index `e`.
pub open spec fn joint_pair(e: usize, interactions: Seq<JointGraphEdge>) -> BodyPair {
    interactions[e as int].spec_body_pair()
}

/// A conflict-free target of the placement rule is sound: the candidate
/// shares no dynamic body with the target bucket's lanes, and (when the
/// bucket is non-empty) the bucket already holds the candidate's subtype.
proof fn lemma_joint_target_free(
    b: Map<int, Seq<usize>>,
    occ: u128,
    jconf: Seq<u128>,
    masks: Seq<u128>,
    interactions: Seq<JointGraphEdge>,
    bodies: Seq<RigidBody>,
    indices: Seq<usize>,
    target: int,
    idx: usize,
    oldlanes: Seq<usize>,
)
    requires
        joint_buckets_ok(b, occ, jconf, masks, interactions, bodies, indices),
        0 <= target < 128,
        oldlanes == if b.dom().contains(target) {
            b[target]
        } else {
            Seq::<usize>::empty()
        },
        idx < interactions.len(),
        pair_in_range(joint_pair(idx, interactions), bodies),
        joint_in_range(interactions[idx as int]),
        bit(occ, target as u128) ==> !bit(
            masks[bodies[joint_pair(idx, interactions).body1 as int].active_set_offset as int],
            target as u128,
        ) && !bit(
            masks[bodies[joint_pair(idx, interactions).body2 as int].active_set_offset as int],
            target as u128,
        ) && !bit(jconf[interactions[idx as int].joint_type as int], target as u128),
    ensures
        forall|p: int|
            0 <= p < oldlanes.len() ==> dynamic_disjoint(
                joint_pair(idx, interactions),
                joint_pair(#[trigger] oldlanes[p], interactions),
                bodies,
            ),
        oldlanes.len() >= 1 ==> interactions[oldlanes[0] as int].joint_type == interactions[idx as int].joint_type,
{
    let pr = joint_pair(idx, interactions);
    let i1 = bodies[pr.body1 as int].active_set_offset as int;
    let i2 = bodies[pr.body2 as int].active_set_offset as int;
    if oldlanes.len() >= 1 {
        assert(b.dom().contains(target) && b[target].len() >= 1);
        assert(bit(occ, target as u128));
        assert forall|p: int| 0 <= p < oldlanes.len() implies dynamic_disjoint(
            pr,
            joint_pair(#[trigger] oldlanes[p], interactions),
            bodies,
        ) by {
            let lp = joint_pair(oldlanes[p], interactions);
            assert forall|o: int| !(is_dynamic_offset(o, pr, bodies) && is_dynamic_offset(
                o,
                lp,
                bodies,
            )) by {
                if is_dynamic_offset(o, pr, bodies) && is_dynamic_offset(o, lp, bodies) {
                    assert(o == i1 || o == i2);
                    assert(bit(masks[o], target as u128));
                }
            }
        }
        if interactions[oldlanes[0] as int].joint_type != interactions[idx as int].joint_type {
            assert(bit(jconf[interactions[idx as int].joint_type as int], target as u128));
        }
    }
}

/// Inserting a candidate into a still-partial bucket preserves the packer
/// state invariant.
proof fn lemma_joint_place_partial(
    b: Map<int, Seq<usize>>,
    occ: u128,
    jconf: Seq<u128>,
    masks: Seq<u128>,
    interactions: Seq<JointGraphEdge>,
    bodies: Seq<RigidBody>,
    indices: Seq<usize>,
    target: int,
    idx: usize,
    oldlanes: Seq<usize>,
    occ2: u128,
    jconf2: Seq<u128>,
    masks2: Seq<u128>,
)
    requires
        joint_buckets_ok(b, occ, jconf, masks, interactions, bodies, indices),
        0 <= target < 128,
        oldlanes == if b.dom().contains(target) {
            b[target]
        } else {
            Seq::<usize>::empty()
        },
        oldlanes.len() < SIMD_LAST_INDEX,
        joint_lane_ok(idx, interactions, bodies, indices),
        forall|p: int|
            0 <= p < oldlanes.len() ==> dynamic_disjoint(
                joint_pair(idx, interactions),
                joint_pair(#[trigger] oldlanes[p], interactions),
                bodies,
            ),
        oldlanes.len() >= 1 ==> interactions[oldlanes[0] as int].joint_type == interactions[idx as int].joint_type,
        forall|c: u128| c < 128 ==> #[trigger] bit(occ2, c) == (bit(occ, c) || c == target),
        jconf2.len() == jconf.len(),
        forall|t: int, c: u128|
            0 <= t < jconf2.len() && c < 128 ==> #[trigger] bit(jconf2[t], c) == (bit(jconf[t], c)
                || (t != interactions[idx as int].joint_type && c == target)),
        masks2.len() == masks.len(),
        forall|o: int, c: u128|
            #![trigger bit(masks2[o], c)]
            0 <= o < masks2.len() && c < 128 ==> bit(masks2[o], c) == (bit(masks[o], c) || (c
                == target && is_dynamic_offset(o, joint_pair(idx, interactions), bodies))),
    ensures
        joint_buckets_ok(
            b.insert(target, oldlanes.push(idx)),
            occ2,
            jconf2,
            masks2,
            interactions,
            bodies,
            indices,
        ),
{
    let b2 = b.insert(target, oldlanes.push(idx));
    let newlanes = oldlanes.push(idx);
    let ty = interactions[idx as int].joint_type;
    assert(newlanes[newlanes.len() - 1] == idx);
    assert(interactions[newlanes[0] as int].joint_type == ty);
    assert forall|c: int| 0 <= c < 128 implies (#[trigger] bit(occ2, c as u128) <==> b2.dom().contains(
        c,
    ) && b2[c].len() >= 1) by {
        if c != target {
            assert(bit(occ2, c as u128) == bit(occ, c as u128));
        }
    }
    assert forall|c: int, p: int, o: int|
        #![trigger b2[c][p], masks2[o]]
        b2.dom().contains(c) && 0 <= p < b2[c].len() && is_dynamic_offset(
            o,
            joint_pair(b2[c][p], interactions),
            bodies,
        ) implies bit(masks2[o], c as u128) by {
        assert(0 <= o < masks.len()) by {
            assert(joint_lane_ok(b2[c][p], interactions, bodies, indices));
        }
        if c == target {
            if p < oldlanes.len() {
                assert(bit(masks[o], c as u128));
            }
        } else {
            assert(b.dom().contains(c) && b[c][p] == b2[c][p]);
            assert(bit(masks[o], c as u128));
        }
    }
    assert forall|c: int, t: int|
        #![trigger b2.dom().contains(c), jconf2[t]]
        b2.dom().contains(c) && b2[c].len() >= 1 && 0 <= t < NUM_JOINT_TYPES && t != interactions[b2[c][0] as int].joint_type implies bit(
        jconf2[t],
        c as u128,
    ) by {
        if c == target {
            assert(interactions[b2[c][0] as int].joint_type == ty);
        } else {
            assert(bit(jconf[t], c as u128));
        }
    }
}

/// Completing a bucket: the flushed lane group is a valid block, and the
/// reset bucket state preserves the packer state invariant.
proof fn lemma_joint_place_flush(
    b: Map<int, Seq<usize>>,
    occ: u128,
    jconf: Seq<u128>,
    masks: Seq<u128>,
    interactions: Seq<JointGraphEdge>,
    bodies: Seq<RigidBody>,
    indices: Seq<usize>,
    target: int,
    idx: usize,
    oldlanes: Seq<usize>,
    occ2: u128,
    jconf2: Seq<u128>,
    masks2: Seq<u128>,
    g0: Seq<usize>,
)
    requires
        joint_buckets_ok(b, occ, jconf, masks, interactions, bodies, indices),
        0 <= target < 128,
        oldlanes == if b.dom().contains(target) {
            b[target]
        } else {
            Seq::<usize>::empty()
        },
        oldlanes.len() == SIMD_LAST_INDEX,
        joint_lane_ok(idx, interactions, bodies, indices),
        forall|p: int|
            0 <= p < oldlanes.len() ==> dynamic_disjoint(
                joint_pair(idx, interactions),
                joint_pair(#[trigger] oldlanes[p], interactions),
                bodies,
            ),
        interactions[oldlanes[0] as int].joint_type == interactions[idx as int].joint_type,
        forall|c: u128| c < 128 ==> #[trigger] bit(occ2, c) == (bit(occ, c) && c != target),
        jconf2.len() == jconf.len(),
        forall|t: int, c: u128|
            0 <= t < jconf2.len() && c < 128 ==> #[trigger] bit(jconf2[t], c) == (c != target
                && bit(jconf[t], c)),
        masks2.len() == masks.len(),
        forall|o: int, c: u128|
            #![trigger bit(masks2[o], c)]
            0 <= o < masks2.len() && c < 128 ==> bit(masks2[o], c) == (bit(masks[o], c) || (c
                == target && is_dynamic_offset(o, joint_pair(idx, interactions), bodies))),
    ensures
        joint_buckets_ok(
            b.insert(target, Seq::<usize>::empty()),
            occ2,
            jconf2,
            masks2,
            interactions,
            bodies,
            indices,
        ),
        joint_block_ok(
            g0 + oldlanes.push(idx),
            g0.len() as int,
            interactions,
            bodies,
        ),
{
    let b2 = b.insert(target, Seq::<usize>::empty());
    let newlanes = oldlanes.push(idx);
    let gl = g0 + newlanes;
    let m = g0.len() as int;
    assert(b.dom().contains(target) && b[target].len() >= 1);
    assert forall|c: int| 0 <= c < 128 implies (#[trigger] bit(occ2, c as u128) <==> b2.dom().contains(
        c,
    ) && b2[c].len() >= 1) by {
        if c != target {
            assert(bit(occ2, c as u128) == bit(occ, c as u128));
        }
    }
    assert forall|c: int, p: int, o: int|
        #![trigger b2[c][p], masks2[o]]
        b2.dom().contains(c) && 0 <= p < b2[c].len() && is_dynamic_offset(
            o,
            joint_pair(b2[c][p], interactions),
            bodies,
        ) implies bit(masks2[o], c as u128) by {
        assert(c != target);
        assert(b.dom().contains(c) && b[c][p] == b2[c][p]);
        assert(0 <= o < masks.len()) by {
            assert(joint_lane_ok(b2[c][p], interactions, bodies, indices));
        }
        assert(bit(masks[o], c as u128));
    }
    assert forall|c: int, t: int|
        #![trigger b2.dom().contains(c), jconf2[t]]
        b2.dom().contains(c) && b2[c].len() >= 1 && 0 <= t < NUM_JOINT_TYPES && t != interactions[b2[c][0] as int].joint_type implies bit(
        jconf2[t],
        c as u128,
    ) by {
        assert(c != target);
        assert(bit(jconf[t], c as u128));
    }
    assert forall|p: int| m <= p < m + SIMD_WIDTH implies (#[trigger] gl[p]) < interactions.len()
        && interactions[gl[p] as int].supports_simd && interactions[gl[p] as int].joint_type
        == interactions[gl[m] as int].joint_type by {
        assert(gl[p] == newlanes[p - m]);
        if p - m < oldlanes.len() {
            assert(joint_lane_ok(oldlanes[p - m], interactions, bodies, indices));
        }
        assert(interactions[newlanes[0] as int].joint_type == interactions[idx as int].joint_type);
    }
    assert forall|p: int, q: int| m <= p < q < m + SIMD_WIDTH implies dynamic_disjoint(
        interactions[(#[trigger] gl[p]) as int].spec_body_pair(),
        interactions[(#[trigger] gl[q]) as int].spec_body_pair(),
        bodies,
    ) by {
        assert(gl[p] == newlanes[p - m] && gl[q] == newlanes[q - m]);
        if q - m < oldlanes.len() {
            assert(dynamic_disjoint(
                joint_pair(oldlanes[p - m], interactions),
                joint_pair(oldlanes[q - m], interactions),
                bodies,
            ));
        } else {
            assert(dynamic_disjoint(
                joint_pair(idx, interactions),
                joint_pair(oldlanes[p - m], interactions),
                bodies,
            ));
            assert forall|o: int| !(is_dynamic_offset(
                o,
                joint_pair(oldlanes[p - m], interactions),
                bodies,
            ) && is_dynamic_offset(o, joint_pair(idx, interactions), bodies)) by {
            }
        }
    }
}

/// The pair of the manifold at index `e`.
pub open spec fn manifold_pair(e: usize, interactions: Seq<ContactManifold>) -> BodyPair {
    interactions[e as int].spec_body_pair()
}

/// A lane entry of a contact bucket during the pass for contact count `k`:
/// a selected, in-range manifold with `k` active contacts and at least one
/// dynamic body.
pub open spec fn manifold_lane_ok(
    e: usize,
    interactions: Seq<ContactManifold>,
    bodies: Seq<RigidBody>,
    indices: Seq<usize>,
    k: int,
) -> bool {
    &&& e < interactions.len()
    &&& pair_in_range(manifold_pair(e, interactions), bodies)
    &&& pair_has_dynamic(manifold_pair(e, interactions), bodies)
    &&& interactions[e as int].num_active_contacts == k
    &&& indices.contains(e)
}

/// A completed contact group: its lanes are in range, of one active-contact
/// count, and pairwise free of shared dynamic bodies.
pub open spec fn manifold_block_ok(
    g: Seq<usize>,
    m: int,
    interactions: Seq<ContactManifold>,
    bodies: Seq<RigidBody>,
) -> bool {
    &&& forall|p: int|
        m <= p < m + SIMD_WIDTH ==> (#[trigger] g[p]) < interactions.len()
            && interactions[g[p] as int].num_active_contacts == interactions[g[m] as int].num_active_contacts
    &&& forall|p: int, q: int|
        m <= p < q < m + SIMD_WIDTH ==> dynamic_disjoint(
            interactions[(#[trigger] g[p]) as int].spec_body_pair(),
            interactions[(#[trigger] g[q]) as int].spec_body_pair(),
            bodies,
        )
}

/// The contact packer's in-flight state during the pass for contact count
/// `k` is consistent.
pub open spec fn manifold_buckets_ok(
    b: Map<int, Seq<usize>>,
    occ: u128,
    masks: Seq<u128>,
    interactions: Seq<ContactManifold>,
    bodies: Seq<RigidBody>,
    indices: Seq<usize>,
    k: int,
) -> bool {
    &&& masks.len() == bodies.len()
    &&& forall|c: int|
        #[trigger] b.dom().contains(c) ==> 0 <= c < 128 && b[c].len() <= SIMD_LAST_INDEX
    &&& forall|c: int|
        0 <= c < 128 ==> (#[trigger] bit(occ, c as u128) <==> b.dom().contains(c) && b[c].len()
            >= 1)
    &&& forall|c: int, p: int|
        b.dom().contains(c) && 0 <= p < b[c].len() ==> manifold_lane_ok(
            #[trigger] b[c][p],
            interactions,
            bodies,
            indices,
            k,
        )
    &&& forall|c: int, p: int, q: int|
        b.dom().contains(c) && 0 <= p < q < b[c].len() ==> dynamic_disjoint(
            interactions[(#[trigger] b[c][p]) as int].spec_body_pair(),
            interactions[(#[trigger] b[c][q]) as int].spec_body_pair(),
            bodies,
        )
    &&& forall|c: int, p: int, o: int|
        #![trigger b[c][p], masks[o]]
        b.dom().contains(c) && 0 <= p < b[c].len() && is_dynamic_offset(
            o,
            interactions[b[c][p] as int].spec_body_pair(),
            bodies,
        ) ==> bit(masks[o], c as u128)
}

/// Every selected manifold index is in range, with in-range bodies and
/// island offsets.
pub open spec fn manifolds_in_range(
    interactions: Seq<ContactManifold>,
    bodies: Seq<RigidBody>,
    indices: Seq<usize>,
) -> bool {
    forall|t: int|
        0 <= t < indices.len() ==> (#[trigger] indices[t]) < interactions.len() && pair_in_range(
            interactions[indices[t] as int].spec_body_pair(),
            bodies,
        )
}

/// The selected manifolds that the pass for contact count `k` emits: every
/// index with `k` active contacts and a dynamic body, in selection order.
pub open spec fn manifolds_kept_pass(
    interactions: Seq<ContactManifold>,
    bodies: Seq<RigidBody>,
    indices: Seq<usize>,
    k: int,
    n: int,
) -> Seq<usize>
    decreases n,
{
    if n <= 0 {
        Seq::empty()
    } else {
        manifolds_kept_pass(interactions, bodies, indices, k, n - 1) + if interactions[indices[n
            - 1] as int].num_active_contacts == k && pair_has_dynamic(
            interactions[indices[n - 1] as int].spec_body_pair(),
            bodies,
        ) {
            seq![indices[n - 1]]
        } else {
            Seq::empty()
        }
    }
}

/// The selected manifolds that the passes for contact counts `1..=k` emit.
pub open spec fn manifolds_kept_upto(
    interactions: Seq<ContactManifold>,
    bodies: Seq<RigidBody>,
    indices: Seq<usize>,
    k: int,
    n: int,
) -> Seq<usize>
    decreases n,
{
    if n <= 0 {
        Seq::empty()
    } else {
        manifolds_kept_upto(interactions, bodies, indices, k, n - 1) + if 1 <= interactions[
            indices[n - 1] as int].num_active_contacts <= k && pair_has_dynamic(
            interactions[indices[n - 1] as int].spec_body_pair(),
            bodies,
        ) {
            seq![indices[n - 1]]
        } else {
            Seq::empty()
        }
    }
}

/// The selected manifolds that grouping emits: every index with at least
/// one active contact and a dynamic body, in selection order.
pub open spec fn manifolds_kept(
    interactions: Seq<ContactManifold>,
    bodies: Seq<RigidBody>,
    indices: Seq<usize>,
    n: int,
) -> Seq<usize>
    decreases n,
{
    if n <= 0 {
        Seq::empty()
    } else {
        manifolds_kept(interactions, bodies, indices, n - 1) + if interactions[indices[n
            - 1] as int].num_active_contacts >= 1 && pair_has_dynamic(
            interactions[indices[n - 1] as int].spec_body_pair(),
            bodies,
        ) {
            seq![indices[n - 1]]
        } else {
            Seq::empty()
        }
    }
}

proof fn lemma_add_insert_left(a: Multiset<usize>, b: Multiset<usize>, c: Multiset<usize>, x: usize)
    requires
        a == b.add(c),
    ensures
        a.insert(x) == b.insert(x).add(c),
{
    assert forall|e: usize| a.insert(x).count(e) == b.insert(x).add(c).count(e) by {
        vstd::multiset::axiom_multiset_add(b.insert(x), c, e);
        vstd::multiset::axiom_multiset_add(b, c, e);
    }
    lemma_multiset_eq(a.insert(x), b.insert(x).add(c));
}

proof fn lemma_add_insert_right(
    a: Multiset<usize>,
    b: Multiset<usize>,
    c: Multiset<usize>,
    x: usize,
)
    requires
        a == b.add(c),
    ensures
        a.insert(x) == b.add(c.insert(x)),
{
    assert forall|e: usize| a.insert(x).count(e) == b.add(c.insert(x)).count(e) by {
        vstd::multiset::axiom_multiset_add(b, c.insert(x), e);
        vstd::multiset::axiom_multiset_add(b, c, e);
    }
    lemma_multiset_eq(a.insert(x), b.add(c.insert(x)));
}

/// No manifold passes the pass filter for count 0 or below.
proof fn lemma_kept_upto_zero(
    interactions: Seq<ContactManifold>,
    bodies: Seq<RigidBody>,
    indices: Seq<usize>,
    n: int,
)
    ensures
        manifolds_kept_upto(interactions, bodies, indices, 0, n) == Seq::<usize>::empty(),
    decreases n,
{
    if n > 0 {
        lemma_kept_upto_zero(interactions, bodies, indices, n - 1);
        assert(manifolds_kept_upto(interactions, bodies, indices, 0, n) =~= Seq::<
            usize,
        >::empty());
    }
}

/// The passes for counts `1..=k` emit the passes for `1..=k-1` plus the
/// pass for `k`.
proof fn lemma_kept_upto_split(
    interactions: Seq<ContactManifold>,
    bodies: Seq<RigidBody>,
    indices: Seq<usize>,
    k: int,
    n: int,
)
    requires
        k >= 1,
    ensures
        manifolds_kept_upto(interactions, bodies, indices, k, n).to_multiset()
            == manifolds_kept_upto(interactions, bodies, indices, k - 1, n).to_multiset().add(
            manifolds_kept_pass(interactions, bodies, indices, k, n).to_multiset(),
        ),
    decreases n,
{
    let u1 = manifolds_kept_upto(interactions, bodies, indices, k, n);
    let u0 = manifolds_kept_upto(interactions, bodies, indices, k - 1, n);
    let pp = manifolds_kept_pass(interactions, bodies, indices, k, n);
    if n <= 0 {
        lemma_empty_seq_multiset();
        lemma_add_empty(Multiset::<usize>::empty());
    } else {
        lemma_kept_upto_split(interactions, bodies, indices, k, n - 1);
        let u1p = manifolds_kept_upto(interactions, bodies, indices, k, n - 1);
        let u0p = manifolds_kept_upto(interactions, bodies, indices, k - 1, n - 1);
        let ppp = manifolds_kept_pass(interactions, bodies, indices, k, n - 1);
        let x = indices[n - 1];
        let cc = interactions[x as int].num_active_contacts;
        let dyn0 = pair_has_dynamic(interactions[x as int].spec_body_pair(), bodies);
        u1p.to_multiset_ensures();
        u0p.to_multiset_ensures();
        ppp.to_multiset_ensures();
        if dyn0 && 1 <= cc < k {
            assert(u1 =~= u1p.push(x));
            assert(u0 =~= u0p.push(x));
            assert(pp =~= ppp);
            lemma_add_insert_left(u1p.to_multiset(), u0p.to_multiset(), ppp.to_multiset(), x);
        } else if dyn0 && cc == k {
            assert(u1 =~= u1p.push(x));
            assert(u0 =~= u0p);
            assert(pp =~= ppp.push(x));
            lemma_add_insert_right(u1p.to_multiset(), u0p.to_multiset(), ppp.to_multiset(), x);
        } else {
            assert(u1 =~= u1p);
            assert(u0 =~= u0p);
            assert(pp =~= ppp);
        }
    }
}

/// Once every selected manifold's count is at most `k`, the passes for
/// `1..=k` emit everything grouping keeps.
proof fn lemma_kept_upto_all(
    interactions: Seq<ContactManifold>,
    bodies: Seq<RigidBody>,
    indices: Seq<usize>,
    k: int,
    n: int,
)
    requires
        0 <= n <= indices.len(),
        forall|j: int|
            0 <= j < n ==> interactions[(#[trigger] indices[j]) as int].num_active_contacts <= k,
    ensures
        manifolds_kept_upto(interactions, bodies, indices, k, n) == manifolds_kept(
            interactions,
            bodies,
            indices,
            n,
        ),
    decreases n,
{
    if n > 0 {
        lemma_kept_upto_all(interactions, bodies, indices, k, n - 1);
    }
}

/// A conflict-free target of the contact placement rule is sound.
proof fn lemma_manifold_target_free(
    b: Map<int, Seq<usize>>,
    occ: u128,
    masks: Seq<u128>,
    interactions: Seq<ContactManifold>,
    bodies: Seq<RigidBody>,
    indices: Seq<usize>,
    k: int,
    target: int,
    idx: usize,
    oldlanes: Seq<usize>,
)
    requires
        manifold_buckets_ok(b, occ, masks, interactions, bodies, indices, k),
        0 <= target < 128,
        oldlanes == if b.dom().contains(target) {
            b[target]
        } else {
            Seq::<usize>::empty()
        },
        idx < interactions.len(),
        pair_in_range(manifold_pair(idx, interactions), bodies),
        bit(occ, target as u128) ==> !bit(
            masks[bodies[manifold_pair(idx, interactions).body1 as int].active_set_offset as int],
            target as u128,
        ) && !bit(
            masks[bodies[manifold_pair(idx, interactions).body2 as int].active_set_offset as int],
            target as u128,
        ),
    ensures
        forall|p: int|
            0 <= p < oldlanes.len() ==> dynamic_disjoint(
                manifold_pair(idx, interactions),
                manifold_pair(#[trigger] oldlanes[p], interactions),
                bodies,
            ),
{
    let pr = manifold_pair(idx, interactions);
    let i1 = bodies[pr.body1 as int].active_set_offset as int;
    let i2 = bodies[pr.body2 as int].active_set_offset as int;
    if oldlanes.len() >= 1 {
        assert(b.dom().contains(target) && b[target].len() >= 1);
        assert(bit(occ, target as u128));
        assert forall|p: int| 0 <= p < oldlanes.len() implies dynamic_disjoint(
            pr,
            manifold_pair(#[trigger] oldlanes[p], interactions),
            bodies,
        ) by {
            let lp = manifold_pair(oldlanes[p], interactions);
            assert forall|o: int| !(is_dynamic_offset(o, pr, bodies) && is_dynamic_offset(
                o,
                lp,
                bodies,
            )) by {
                if is_dynamic_offset(o, pr, bodies) && is_dynamic_offset(o, lp, bodies) {
                    assert(o == i1 || o == i2);
                    assert(bit(masks[o], target as u128));
                }
            }
        }
    }
}

/// Inserting a candidate into a still-partial contact bucket preserves the
/// packer state invariant.
proof fn lemma_manifold_place_partial(
    b: Map<int, Seq<usize>>,
    occ: u128,
    masks: Seq<u128>,
    interactions: Seq<ContactManifold>,
    bodies: Seq<RigidBody>,
    indices: Seq<usize>,
    k: int,
    target: int,
    idx: usize,
    oldlanes: Seq<usize>,
    occ2: u128,
    masks2: Seq<u128>,
)
    requires
        manifold_buckets_ok(b, occ, masks, interactions, bodies, indices, k),
        0 <= target < 128,
        oldlanes == if b.dom().contains(target) {
            b[target]
        } else {
            Seq::<usize>::empty()
        },
        oldlanes.len() < SIMD_LAST_INDEX,
        manifold_lane_ok(idx, interactions, bodies, indices, k),
        forall|p: int|
            0 <= p < oldlanes.len() ==> dynamic_disjoint(
                manifold_pair(idx, interactions),
                manifold_pair(#[trigger] oldlanes[p], interactions),
                bodies,
            ),
        forall|c: u128| c < 128 ==> #[trigger] bit(occ2, c) == (bit(occ, c) || c == target),
        masks2.len() == masks.len(),
        forall|o: int, c: u128|
            #![trigger bit(masks2[o], c)]
            0 <= o < masks2.len() && c < 128 ==> bit(masks2[o], c) == (bit(masks[o], c) || (c
                == target && is_dynamic_offset(o, manifold_pair(idx, interactions), bodies))),
    ensures
        manifold_buckets_ok(
            b.insert(target, oldlanes.push(idx)),
            occ2,
            masks2,
            interactions,
            bodies,
            indices,
            k,
        ),
{
    let b2 = b.insert(target, oldlanes.push(idx));
    let newlanes = oldlanes.push(idx);
    assert(newlanes[newlanes.len() - 1] == idx);
    assert forall|c: int| 0 <= c < 128 implies (#[trigger] bit(occ2, c as u128)
        <==> b2.dom().contains(c) && b2[c].len() >= 1) by {
        if c != target {
            assert(bit(occ2, c as u128) == bit(occ, c as u128));
        }
    }
    assert forall|c: int, p: int, o: int|
        #![trigger b2[c][p], masks2[o]]
        b2.dom().contains(c) && 0 <= p < b2[c].len() && is_dynamic_offset(
            o,
            manifold_pair(b2[c][p], interactions),
            bodies,
        ) implies bit(masks2[o], c as u128) by {
        assert(0 <= o < masks.len()) by {
            assert(manifold_lane_ok(b2[c][p], interactions, bodies, indices, k));
        }
        if c == target {
            if p < oldlanes.len() {
                assert(bit(masks[o], c as u128));
            }
        } else {
            assert(b.dom().contains(c) && b[c][p] == b2[c][p]);
            assert(bit(masks[o], c as u128));
        }
    }
}

/// Completing a contact bucket: the flushed lane group is a valid block,
/// and the reset bucket state preserves the packer state invariant.
proof fn lemma_manifold_place_flush(
    b: Map<int, Seq<usize>>,
    occ: u128,
    masks: Seq<u128>,
    interactions: Seq<ContactManifold>,
    bodies: Seq<RigidBody>,
    indices: Seq<usize>,
    k: int,
    target: int,
    idx: usize,
    oldlanes: Seq<usize>,
    occ2: u128,
    masks2: Seq<u128>,
    g0: Seq<usize>,
)
    requires
        manifold_buckets_ok(b, occ, masks, interactions, bodies, indices, k),
        0 <= target < 128,
        oldlanes == if b.dom().contains(target) {
            b[target]
        } else {
            Seq::<usize>::empty()
        },
        oldlanes.len() == SIMD_LAST_INDEX,
        manifold_lane_ok(idx, interactions, bodies, indices, k),
        forall|p: int|
            0 <= p < oldlanes.len() ==> dynamic_disjoint(
                manifold_pair(idx, interactions),
                manifold_pair(#[trigger] oldlanes[p], interactions),
                bodies,
            ),
        forall|c: u128| c < 128 ==> #[trigger] bit(occ2, c) == (bit(occ, c) && c != target),
        masks2.len() == masks.len(),
        forall|o: int, c: u128|
            #![trigger bit(masks2[o], c)]
            0 <= o < masks2.len() && c < 128 ==> bit(masks2[o], c) == (bit(masks[o], c) || (c
                == target && is_dynamic_offset(o, manifold_pair(idx, interactions), bodies))),
    ensures
        manifold_buckets_ok(
            b.insert(target, Seq::<usize>::empty()),
            occ2,
            masks2,
            interactions,
            bodies,
            indices,
            k,
        ),
        manifold_block_ok(g0 + oldlanes.push(idx), g0.len() as int, interactions, bodies),
{
    let b2 = b.insert(target, Seq::<usize>::empty());
    let newlanes = oldlanes.push(idx);
    let gl = g0 + newlanes;
    let m = g0.len() as int;
    assert(b.dom().contains(target) && b[target].len() >= 1);
    assert forall|c: int| 0 <= c < 128 implies (#[trigger] bit(occ2, c as u128)
        <==> b2.dom().contains(c) && b2[c].len() >= 1) by {
        if c != target {
            assert(bit(occ2, c as u128) == bit(occ, c as u128));
        }
    }
    assert forall|c: int, p: int, o: int|
        #![trigger b2[c][p], masks2[o]]
        b2.dom().contains(c) && 0 <= p < b2[c].len() && is_dynamic_offset(
            o,
            manifold_pair(b2[c][p], interactions),
            bodies,
        ) implies bit(masks2[o], c as u128) by {
        assert(c != target);
        assert(b.dom().contains(c) && b[c][p] == b2[c][p]);
        assert(0 <= o < masks.len()) by {
            assert(manifold_lane_ok(b2[c][p], interactions, bodies, indices, k));
        }
        assert(bit(masks[o], c as u128));
    }
    assert forall|p: int| m <= p < m + SIMD_WIDTH implies (#[trigger] gl[p]) < interactions.len()
        && interactions[gl[p] as int].num_active_contacts == interactions[gl[m] as int].num_active_contacts by {
        assert(gl[p] == newlanes[p - m]);
        if p - m < oldlanes.len() {
            assert(manifold_lane_ok(oldlanes[p - m], interactions, bodies, indices, k));
        }
    }
    assert forall|p: int, q: int| m <= p < q < m + SIMD_WIDTH implies dynamic_disjoint(
        interactions[(#[trigger] gl[p]) as int].spec_body_pair(),
        interactions[(#[trigger] gl[q]) as int].spec_body_pair(),
        bodies,
    ) by {
        assert(gl[p] == newlanes[p - m] && gl[q] == newlanes[q - m]);
        if q - m < oldlanes.len() {
            assert(dynamic_disjoint(
                manifold_pair(oldlanes[p - m], interactions),
                manifold_pair(oldlanes[q - m], interactions),
                bodies,
            ));
        } else {
            assert(dynamic_disjoint(
                manifold_pair(idx, interactions),
                manifold_pair(oldlanes[p - m], interactions),
                bodies,
            ));
            assert forall|o: int| !(is_dynamic_offset(
                o,
                manifold_pair(oldlanes[p - m], interactions),
                bodies,
            ) && is_dynamic_offset(o, manifold_pair(idx, interactions), bodies)) by {
            }
        }
    }
}

/// Clear bit `target` in every conflict word.
fn clear_bit_in_all(conf: &mut Vec<u128>, target: usize)
    requires
        target < 128,
    ensures
        final(conf)@.len() == old(conf)@.len(),
        forall|t: int, c: u128|
            0 <= t < final(conf)@.len() && c < 128 ==> #[trigger] bit(final(conf)@[t], c) == (c
                != target && bit(old(conf)@[t], c)),
{
    let n = conf.len();
    let mask: u128 = !(1u128 << (target as u128));
    let mut k: usize = 0;
    while k < n
        invariant
            k <= n,
            n == conf@.len(),
            conf@.len() == old(conf)@.len(),
            target < 128,
            mask == !(1u128 << (target as u128)),
            forall|t: int, c: u128|
                0 <= t < k && c < 128 ==> #[trigger] bit(conf@[t], c) == (c != target && bit(
                    old(conf)@[t],
                    c,
                )),
            forall|t: int| k <= t < n ==> conf@[t] == old(conf)@[t],
        decreases n - k,
    {
        let w = conf[k];
        conf[k] = w & mask;
        proof {
            assert forall|c: u128| c < 128 implies bit(#[trigger] conf@[k as int], c) == (c
                != target && bit(old(conf)@[k as int], c)) by {
                lemma_clear_bit(w, target as u128, c);
            }
        }
        k = k + 1;
    }
}

/// Set bit `target` in every conflict word except the one at `skip`.
fn set_bit_except(conf: &mut Vec<u128>, skip: usize, target: usize)
    requires
        target < 128,
    ensures
        final(conf)@.len() == old(conf)@.len(),
        forall|t: int, c: u128|
            0 <= t < final(conf)@.len() && c < 128 ==> #[trigger] bit(final(conf)@[t], c) == (bit(
                old(conf)@[t],
                c,
            ) || (t != skip && c == target)),
{
    let n = conf.len();
    let mask: u128 = 1u128 << (target as u128);
    let mut k: usize = 0;
    while k < n
        invariant
            k <= n,
            n == conf@.len(),
            conf@.len() == old(conf)@.len(),
            target < 128,
            mask == 1u128 << (target as u128),
            forall|t: int, c: u128|
                0 <= t < k && c < 128 ==> #[trigger] bit(conf@[t], c) == (bit(old(conf)@[t], c)
                    || (t != skip && c == target)),
            forall|t: int| k <= t < n ==> conf@[t] == old(conf)@[t],
        decreases n - k,
    {
        if k != skip {
            let w = conf[k];
            conf[k] = w | mask;
            proof {
                assert forall|c: u128| c < 128 implies bit(#[trigger] conf@[k as int], c) == (bit(
                    old(conf)@[k as int],
                    c,
                ) || (k != skip && c == target)) by {
                    lemma_set_bit(w, target as u128, c);
                }
            }
        }
        k = k + 1;
    }
}

/// Workspaces and outputs of the lane packer.  `buckets` and `body_masks`
/// are per-call scratch; the two index lists are the outputs handed to the
/// solver.
pub struct InteractionGroups {
    pub buckets: vec_map::VecMap<Vec<usize>>,
    pub body_masks: Vec<u128>,
    pub grouped_interactions: Vec<usize>,
    pub nongrouped_interactions: Vec<usize>,
}

impl InteractionGroups {
    /// Workspaces are quiescent between calls: no bucket held, every body
    /// mask zero, and the grouped list a whole number of lane groups.
    pub open spec fn wf(&self) -> bool {
        &&& forall|c: int| !bucket_map_view(self.buckets).dom().contains(c)
        &&& forall|i: int|
            0 <= i < self.body_masks@.len() ==> (#[trigger] self.body_masks@[i]) == 0u128
        &&& self.grouped_interactions@.len() as int % (SIMD_WIDTH as int) == 0
    }

    pub fn new() -> (r: InteractionGroups)
        ensures
            r.wf(),
            r.grouped_interactions@ == Seq::<usize>::empty(),
            r.nongrouped_interactions@ == Seq::<usize>::empty(),
    {
        InteractionGroups {
            buckets: bucket_map_new(),
            body_masks: Vec::new(),
            grouped_interactions: Vec::new(),
            nongrouped_interactions: Vec::new(),
        }
    }

    /// Reset workspaces and outputs: afterwards the packer is
    /// indistinguishable from a fresh one.
    pub fn clear(&mut self)
        ensures
            final(self).wf(),
            final(self).grouped_interactions@ == Seq::<usize>::empty(),
            final(self).nongrouped_interactions@ == Seq::<usize>::empty(),
            final(self).body_masks@ == Seq::<u128>::empty(),
    {
        bucket_map_clear(&mut self.buckets);
        self.body_masks.clear();
        self.grouped_interactions.clear();
        self.nongrouped_interactions.clear();
    }

    /// Reset the output arrays between ticks, keeping the workspaces.
    pub fn clear_groups(&mut self)
        requires
            old(self).wf(),
        ensures
            final(self).wf(),
            final(self).grouped_interactions@ == Seq::<usize>::empty(),
            final(self).nongrouped_interactions@ == Seq::<usize>::empty(),
    {
        self.grouped_interactions.clear();
        self.nongrouped_interactions.clear();
    }


    /// Pack the selected joints into same-subtype, body-disjoint lane
    /// groups.  Joints the vectorized kernel does not support, joints that
    /// fit no bucket, and the partial buckets left at the end of the call
    /// all spill to the non-grouped list; static pairs are dropped.
    pub fn group_joints(
        &mut self,
        bodies: &Vec<RigidBody>,
        interactions: &Vec<JointGraphEdge>,
        interaction_indices: &Vec<JointIndex>,
    )
        requires
            old(self).wf(),
            joints_in_range(interactions@, bodies@, interaction_indices@),
        ensures
            final(self).wf(),
            final(self).grouped_interactions@.len() as int % (SIMD_WIDTH as int) == 0,
            final(self).grouped_interactions@.len() >= old(self).grouped_interactions@.len(),
            final(self).grouped_interactions@.subrange(
                0,
                old(self).grouped_interactions@.len() as int,
            ) == old(self).grouped_interactions@,
            final(self).nongrouped_interactions@.len()
                >= old(self).nongrouped_interactions@.len(),
            final(self).nongrouped_interactions@.subrange(
                0,
                old(self).nongrouped_interactions@.len() as int,
            ) == old(self).nongrouped_interactions@,
            forall|m: int|
                old(self).grouped_interactions@.len() <= m && m % (SIMD_WIDTH as int) == 0 && m
                    + SIMD_WIDTH <= final(self).grouped_interactions@.len()
                    ==> #[trigger] joint_block_ok(
                    final(self).grouped_interactions@,
                    m,
                    interactions@,
                    bodies@,
                ),
            forall|p: int|
                old(self).grouped_interactions@.len() <= p < final(self).grouped_interactions@.len() ==> interaction_indices@.contains(
                    #[trigger] final(self).grouped_interactions@[p],
                ) && interactions@[final(self).grouped_interactions@[p] as int].supports_simd,
            forall|p: int|
                old(self).nongrouped_interactions@.len() <= p < final(self).nongrouped_interactions@.len() ==> interaction_indices@.contains(
                    #[trigger] final(self).nongrouped_interactions@[p],
                ),
            final(self).grouped_interactions@.skip(
                old(self).grouped_interactions@.len() as int,
            ).to_multiset().add(
                final(self).nongrouped_interactions@.skip(
                    old(self).nongrouped_interactions@.len() as int,
                ).to_multiset(),
            ) == joints_kept(
                interactions@,
                bodies@,
                interaction_indices@,
                interaction_indices@.len() as int,
            ).to_multiset(),
    {
        let ghost g0 = old(self).grouped_interactions@;
        let ghost n0 = old(self).nongrouped_interactions@;
        let n = interaction_indices.len();
        self.reset_body_masks(bodies.len());
        let mut joint_type_conflicts: Vec<u128> = Vec::new();
        let mut k: usize = 0;
        while k < NUM_JOINT_TYPES
            invariant
                k <= NUM_JOINT_TYPES,
                joint_type_conflicts@.len() == k,
                forall|t: int| 0 <= t < k ==> (#[trigger] joint_type_conflicts@[t]) == 0u128,
            decreases NUM_JOINT_TYPES - k,
        {
            joint_type_conflicts.push(0u128);
            k = k + 1;
        }
        let mut occupied_mask: u128 = 0;
        proof {
            assert forall|c: u128| c < 128 implies !(#[trigger] bit(0u128, c)) by {
                lemma_bit_zero(c);
            }
            lemma_spill_upto_unmapped(bucket_map_view(self.buckets), 128);
            lemma_empty_seq_multiset();
            assert(self.grouped_interactions@.skip(g0.len() as int) =~= Seq::<usize>::empty());
            assert(self.nongrouped_interactions@.skip(n0.len() as int) =~= Seq::<usize>::empty());
            lemma_add_empty(Multiset::<usize>::empty());
            lemma_add_empty(Multiset::<usize>::empty().add(Multiset::<usize>::empty()));
        }

        let mut t: usize = 0;
        while t < n
            invariant
                t <= n,
                n == interaction_indices@.len(),
                joints_in_range(interactions@, bodies@, interaction_indices@),
                self.grouped_interactions@.skip(g0.len() as int).to_multiset().add(
                    self.nongrouped_interactions@.skip(n0.len() as int).to_multiset(),
                ).add(spill_upto(bucket_map_view(self.buckets), 128).to_multiset())
                    == joints_kept(
                    interactions@,
                    bodies@,
                    interaction_indices@,
                    t as int,
                ).to_multiset(),
                joint_buckets_ok(
                    bucket_map_view(self.buckets),
                    occupied_mask,
                    joint_type_conflicts@,
                    self.body_masks@,
                    interactions@,
                    bodies@,
                    interaction_indices@,
                ),
                self.grouped_interactions@.len() as int % (SIMD_WIDTH as int) == 0,
                g0.len() as int % (SIMD_WIDTH as int) == 0,
                g0.len() <= self.grouped_interactions@.len(),
                self.grouped_interactions@.subrange(0, g0.len() as int) == g0,
                n0.len() <= self.nongrouped_interactions@.len(),
                self.nongrouped_interactions@.subrange(0, n0.len() as int) == n0,
                forall|m: int|
                    g0.len() <= m && m % (SIMD_WIDTH as int) == 0 && m + SIMD_WIDTH
                        <= self.grouped_interactions@.len() ==> #[trigger] joint_block_ok(
                        self.grouped_interactions@,
                        m,
                        interactions@,
                        bodies@,
                    ),
                forall|p: int|
                    g0.len() <= p < self.grouped_interactions@.len()
                        ==> interaction_indices@.contains(
                        #[trigger] self.grouped_interactions@[p],
                    ) && interactions@[self.grouped_interactions@[p] as int].supports_simd,
                forall|p: int|
                    n0.len() <= p < self.nongrouped_interactions@.len()
                        ==> interaction_indices@.contains(
                        #[trigger] self.nongrouped_interactions@[p],
                    ),
            decreases n - t,
        {
            let idx = interaction_indices[t];
            let ghost gsnap = self.grouped_interactions@;
            let ghost nsnap = self.nongrouped_interactions@;
            let ghost bsnap = bucket_map_view(self.buckets);
            let ghost gsk = gsnap.skip(g0.len() as int).to_multiset();
            let ghost nsk = nsnap.skip(n0.len() as int).to_multiset();
            let ghost keptm = joints_kept(interactions@, bodies@, interaction_indices@, t as int);
            proof {
                assert(interaction_indices@[t as int] == idx);
                assert(interaction_indices@.contains(idx));
            }
            let edge = interactions[idx];
            let ghost pr = interactions@[idx as int].spec_body_pair();
            let body1 = bodies[edge.body1];
            let body2 = bodies[edge.body2];
            let is_static1 = !body1.is_dynamic();
            let is_static2 = !body2.is_dynamic();
            if is_static1 && is_static2 {
                // A static pair transmits no forces: dropped.
                proof {
                    assert(joints_kept(interactions@, bodies@, interaction_indices@, t as int + 1)
                        =~= keptm);
                }
            } else if !edge.supports_simd_constraints() {
                self.nongrouped_interactions.push(idx);
                assert(self.nongrouped_interactions@.subrange(0, n0.len() as int) =~= n0);
                proof {
                    lemma_joints_kept_step_union(
                        gsk,
                        nsnap,
                        n0.len() as int,
                        spill_upto(bsnap, 128).to_multiset(),
                        keptm,
                        interactions@,
                        bodies@,
                        interaction_indices@,
                        t as int,
                        idx,
                    );
                }
            } else {
                let ijoint = edge.type_id();
                let i1 = body1.active_set_offset;
                let i2 = body2.active_set_offset;
                let conflicts = self.body_masks[i1] | self.body_masks[i2]
                    | joint_type_conflicts[ijoint];
                let conflictfree_targets = !(conflicts & occupied_mask);
                let conflictfree_occupied_targets = conflictfree_targets & occupied_mask;
                let target_index = if conflictfree_occupied_targets != 0 {
                    trailing_zeros128(conflictfree_occupied_targets)
                } else {
                    trailing_zeros128(conflictfree_targets)
                };
                if target_index == 128 {
                    self.nongrouped_interactions.push(idx);
                    assert(self.nongrouped_interactions@.subrange(0, n0.len() as int) =~= n0);
                    proof {
                        lemma_joints_kept_step_union(
                            gsk,
                            nsnap,
                            n0.len() as int,
                            spill_upto(bsnap, 128).to_multiset(),
                            keptm,
                            interactions@,
                            bodies@,
                            interaction_indices@,
                            t as int,
                            idx,
                        );
                    }
                } else {
                    let ghost b = bucket_map_view(self.buckets);
                    let ghost occ = occupied_mask;
                    let ghost jc = joint_type_conflicts@;
                    let ghost masks = self.body_masks@;
                    let tu = target_index as u128;
                    proof {
                        if conflictfree_occupied_targets != 0 {
                            lemma_lowest_set_props(conflictfree_occupied_targets);
                            lemma_bit_and(conflictfree_targets, occ, tu);
                        } else {
                            lemma_lowest_set_props(conflictfree_targets);
                        }
                        assert(bit(conflictfree_targets, tu));
                        lemma_bit_not(conflicts & occ, tu);
                        lemma_bit_and(conflicts, occ, tu);
                        lemma_bit_or(
                            masks[i1 as int] | masks[i2 as int],
                            jc[ijoint as int],
                            tu,
                        );
                        lemma_bit_or(masks[i1 as int], masks[i2 as int], tu);
                        assert(bit(occ, tu) ==> !bit(masks[i1 as int], tu) && !bit(
                            masks[i2 as int],
                            tu,
                        ) && !bit(jc[ijoint as int], tu));
                    }
                    let target_bit: u128 = 1u128 << tu;
                    let bopt = bucket_map_get(&self.buckets, target_index);
                    let mut lanes = match bopt {
                        Some(v) => v,
                        None => Vec::new(),
                    };
                    let ghost oldlanes = lanes@;
                    proof {
                        assert(oldlanes == if b.dom().contains(target_index as int) {
                            b[target_index as int]
                        } else {
                            Seq::<usize>::empty()
                        });
                        if oldlanes.len() >= 1 {
                            assert(bit(occ, tu));
                        }
                        lemma_joint_target_free(
                            b,
                            occ,
                            jc,
                            masks,
                            interactions@,
                            bodies@,
                            interaction_indices@,
                            target_index as int,
                            idx,
                            oldlanes,
                        );
                        assert(joint_lane_ok(
                            idx,
                            interactions@,
                            bodies@,
                            interaction_indices@,
                        ));
                    }
                    lanes.push(idx);
                    if lanes.len() == SIMD_WIDTH {
                        let ghost gpre = self.grouped_interactions@;
                        let mut q: usize = 0;
                        while q < SIMD_WIDTH
                            invariant
                                q <= SIMD_WIDTH,
                                lanes@.len() == SIMD_WIDTH,
                                lanes@ == oldlanes.push(idx),
                                self.grouped_interactions@ == gpre + lanes@.subrange(
                                    0,
                                    q as int,
                                ),
                                self.nongrouped_interactions@.subrange(0, n0.len() as int) == n0,
                                n0.len() <= self.nongrouped_interactions@.len(),
                                forall|p: int|
                                    n0.len() <= p < self.nongrouped_interactions@.len()
                                        ==> interaction_indices@.contains(
                                        #[trigger] self.nongrouped_interactions@[p],
                                    ),
                                self.nongrouped_interactions@ == nsnap,
                                bucket_map_view(self.buckets) == b,
                                self.body_masks@ == masks,
                            decreases SIMD_WIDTH - q,
                        {
                            self.grouped_interactions.push(lanes[q]);
                            q = q + 1;
                            assert(self.grouped_interactions@ =~= gpre + lanes@.subrange(
                                0,
                                q as int,
                            ));
                        }
                        assert(self.grouped_interactions@ =~= gpre + oldlanes.push(idx));
                        bucket_map_insert(&mut self.buckets, target_index, Vec::new());
                        occupied_mask = occupied_mask & !target_bit;
                        clear_bit_in_all(&mut joint_type_conflicts, target_index);
                        if !is_static1 {
                            let w = self.body_masks[i1];
                            self.body_masks[i1] = w | target_bit;
                        }
                        if !is_static2 {
                            let w = self.body_masks[i2];
                            self.body_masks[i2] = w | target_bit;
                        }
                        proof {
                            assert forall|c: u128| c < 128 implies #[trigger] bit(
                                occupied_mask,
                                c,
                            ) == (bit(occ, c) && c != tu) by {
                                lemma_clear_bit(occ, tu, c);
                            }
                            assert forall|o: int, c: u128|
                                #![trigger bit(self.body_masks@[o], c)]
                                0 <= o < self.body_masks@.len() && c < 128 implies bit(
                                self.body_masks@[o],
                                c,
                            ) == (bit(masks[o], c) || (c == tu && is_dynamic_offset(
                                o,
                                pr,
                                bodies@,
                            ))) by {
                                lemma_set_bit(masks[i1 as int], tu, c);
                                lemma_set_bit(masks[i2 as int], tu, c);
                                if !is_static1 && !is_static2 && i1 == i2 {
                                    lemma_set_bit(masks[i1 as int] | (1u128 << tu), tu, c);
                                }
                            }
                            lemma_joint_place_flush(
                                b,
                                occ,
                                jc,
                                masks,
                                interactions@,
                                bodies@,
                                interaction_indices@,
                                target_index as int,
                                idx,
                                oldlanes,
                                occupied_mask,
                                joint_type_conflicts@,
                                self.body_masks@,
                                gpre,
                            );
                            assert(self.grouped_interactions@.subrange(0, g0.len() as int)
                                =~= g0);
                            assert forall|m: int|
                                g0.len() <= m && m % (SIMD_WIDTH as int) == 0 && m + SIMD_WIDTH
                                    <= self.grouped_interactions@.len() implies #[trigger] joint_block_ok(
                                self.grouped_interactions@,
                                m,
                                interactions@,
                                bodies@,
                            ) by {
                                if m + SIMD_WIDTH <= gpre.len() {
                                    assert(joint_block_ok(gpre, m, interactions@, bodies@));
                                    assert forall|p: int| m <= p < m + SIMD_WIDTH implies
                                        self.grouped_interactions@[p] == gpre[p] by {}
                                } else {
                                    assert(m == gpre.len());
                                }
                            }
                            lemma_spill_upto_insert(
                                bsnap,
                                target_index as int,
                                Seq::<usize>::empty(),
                                128,
                            );
                            lemma_empty_seq_multiset();
                            lemma_add_empty(spill_upto(bsnap, 128).to_multiset());
                            assert(spill_upto(bucket_map_view(self.buckets), 128).to_multiset().add(
                                oldlanes.to_multiset(),
                            ) == spill_upto(bsnap, 128).to_multiset());
                            oldlanes.to_multiset_ensures();
                            lemma_union3_flush(
                                gsk,
                                nsk,
                                spill_upto(bsnap, 128).to_multiset(),
                                keptm.to_multiset(),
                                oldlanes.to_multiset(),
                                spill_upto(bucket_map_view(self.buckets), 128).to_multiset(),
                                idx,
                            );
                            assert(self.grouped_interactions@.skip(g0.len() as int)
                                =~= gsnap.skip(g0.len() as int) + oldlanes.push(idx));
                            lemma_multiset_commutative(
                                gsnap.skip(g0.len() as int),
                                oldlanes.push(idx),
                            );
                            assert(self.grouped_interactions@.skip(g0.len() as int).to_multiset()
                                == gsk.add(oldlanes.to_multiset().insert(idx)));
                            assert(joints_kept(
                                interactions@,
                                bodies@,
                                interaction_indices@,
                                t as int + 1,
                            ) =~= keptm.push(idx));
                            keptm.to_multiset_ensures();
                        }
                    } else {
                        let ghost newlanes = lanes@;
                        bucket_map_insert(&mut self.buckets, target_index, lanes);
                        occupied_mask = occupied_mask | target_bit;
                        set_bit_except(&mut joint_type_conflicts, ijoint, target_index);
                        if !is_static1 {
                            let w = self.body_masks[i1];
                            self.body_masks[i1] = w | target_bit;
                        }
                        if !is_static2 {
                            let w = self.body_masks[i2];
                            self.body_masks[i2] = w | target_bit;
                        }
                        proof {
                            assert forall|c: u128| c < 128 implies #[trigger] bit(
                                occupied_mask,
                                c,
                            ) == (bit(occ, c) || c == tu) by {
                                lemma_set_bit(occ, tu, c);
                            }
                            assert forall|o: int, c: u128|
                                #![trigger bit(self.body_masks@[o], c)]
                                0 <= o < self.body_masks@.len() && c < 128 implies bit(
                                self.body_masks@[o],
                                c,
                            ) == (bit(masks[o], c) || (c == tu && is_dynamic_offset(
                                o,
                                pr,
                                bodies@,
                            ))) by {
                                lemma_set_bit(masks[i1 as int], tu, c);
                                lemma_set_bit(masks[i2 as int], tu, c);
                                if !is_static1 && !is_static2 && i1 == i2 {
                                    lemma_set_bit(masks[i1 as int] | (1u128 << tu), tu, c);
                                }
                            }
                            lemma_joint_place_partial(
                                b,
                                occ,
                                jc,
                                masks,
                                interactions@,
                                bodies@,
                                interaction_indices@,
                                target_index as int,
                                idx,
                                oldlanes,
                                occupied_mask,
                                joint_type_conflicts@,
                                self.body_masks@,
                            );
                            lemma_spill_upto_insert(
                                bsnap,
                                target_index as int,
                                oldlanes.push(idx),
                                128,
                            );
                            oldlanes.to_multiset_ensures();
                            lemma_cancel_insert(
                                spill_upto(bucket_map_view(self.buckets), 128).to_multiset(),
                                spill_upto(bsnap, 128).to_multiset(),
                                oldlanes.to_multiset(),
                                idx,
                            );
                            lemma_union3_insert_sp(
                                gsk,
                                nsk,
                                spill_upto(bsnap, 128).to_multiset(),
                                keptm.to_multiset(),
                                idx,
                            );
                            assert(joints_kept(
                                interactions@,
                                bodies@,
                                interaction_indices@,
                                t as int + 1,
                            ) =~= keptm.push(idx));
                            keptm.to_multiset_ensures();
                        }
                    }
                }
            }
            t = t + 1;
        }

        let ghost bpre = bucket_map_view(self.buckets);
        let ghost npre = self.nongrouped_interactions@;
        let ghost gfin = self.grouped_interactions@;
        self.flush_partial_buckets();
        proof {
            assert(self.nongrouped_interactions@.subrange(0, n0.len() as int) =~= n0);
            assert forall|p: int|
                n0.len() <= p < self.nongrouped_interactions@.len()
                    implies interaction_indices@.contains(
                #[trigger] self.nongrouped_interactions@[p],
            ) by {
                if p >= npre.len() {
                    let w = lemma_spill_membership(bpre, 128, p - npre.len() as int);
                    assert(joint_lane_ok(
                        bpre[w.0][w.1],
                        interactions@,
                        bodies@,
                        interaction_indices@,
                    ));
                }
            }
            assert(self.nongrouped_interactions@.skip(n0.len() as int) =~= npre.skip(
                n0.len() as int,
            ) + spill_upto(bpre, 128));
            lemma_multiset_commutative(npre.skip(n0.len() as int), spill_upto(bpre, 128));
            lemma_union3_close(
                gfin.skip(g0.len() as int).to_multiset(),
                npre.skip(n0.len() as int).to_multiset(),
                spill_upto(bpre, 128).to_multiset(),
                joints_kept(
                    interactions@,
                    bodies@,
                    interaction_indices@,
                    interaction_indices@.len() as int,
                ).to_multiset(),
            );
        }
    }


    /// Pack the selected contact manifolds into body-disjoint lane groups,
    /// one pass per distinct active-contact count so that every completed
    /// group has a uniform count.  Whatever cannot be packed, and the
    /// partial buckets left at the end of each pass, spill to the
    /// non-grouped list; static pairs and manifolds without active contacts
    /// are dropped.
    pub fn group_manifolds(
        &mut self,
        bodies: &Vec<RigidBody>,
        interactions: &Vec<ContactManifold>,
        interaction_indices: &Vec<ContactManifoldIndex>,
    )
        requires
            old(self).wf(),
            manifolds_in_range(interactions@, bodies@, interaction_indices@),
        ensures
            final(self).wf(),
            final(self).grouped_interactions@.len() as int % (SIMD_WIDTH as int) == 0,
            final(self).grouped_interactions@.len() >= old(self).grouped_interactions@.len(),
            final(self).grouped_interactions@.subrange(
                0,
                old(self).grouped_interactions@.len() as int,
            ) == old(self).grouped_interactions@,
            final(self).nongrouped_interactions@.len()
                >= old(self).nongrouped_interactions@.len(),
            final(self).nongrouped_interactions@.subrange(
                0,
                old(self).nongrouped_interactions@.len() as int,
            ) == old(self).nongrouped_interactions@,
            forall|m: int|
                old(self).grouped_interactions@.len() <= m && m % (SIMD_WIDTH as int) == 0 && m
                    + SIMD_WIDTH <= final(self).grouped_interactions@.len()
                    ==> #[trigger] manifold_block_ok(
                    final(self).grouped_interactions@,
                    m,
                    interactions@,
                    bodies@,
                ),
            forall|p: int|
                old(self).grouped_interactions@.len() <= p < final(self).grouped_interactions@.len() ==> interaction_indices@.contains(
                    #[trigger] final(self).grouped_interactions@[p],
                ),
            forall|p: int|
                old(self).nongrouped_interactions@.len() <= p < final(self).nongrouped_interactions@.len() ==> interaction_indices@.contains(
                    #[trigger] final(self).nongrouped_interactions@[p],
                ),
            final(self).grouped_interactions@.skip(
                old(self).grouped_interactions@.len() as int,
            ).to_multiset().add(
                final(self).nongrouped_interactions@.skip(
                    old(self).nongrouped_interactions@.len() as int,
                ).to_multiset(),
            ) == manifolds_kept(
                interactions@,
                bodies@,
                interaction_indices@,
                interaction_indices@.len() as int,
            ).to_multiset(),
    {
        let ghost g0 = old(self).grouped_interactions@;
        let ghost n0 = old(self).nongrouped_interactions@;
        let n = interaction_indices.len();
        self.reset_body_masks(bodies.len());

        let mut max_points: usize = 1;
        let mut t: usize = 0;
        while t < n
            invariant
                t <= n,
                n == interaction_indices@.len(),
                manifolds_in_range(interactions@, bodies@, interaction_indices@),
                self.grouped_interactions@ == g0,
                self.nongrouped_interactions@ == n0,
                bucket_map_view(self.buckets) == bucket_map_view(old(self).buckets),
                self.body_masks@.len() == bodies@.len(),
                forall|i: int|
                    0 <= i < self.body_masks@.len() ==> (#[trigger] self.body_masks@[i])
                        == 0u128,
                forall|j: int|
                    0 <= j < t ==> interactions@[(
                    #[trigger] interaction_indices@[j]) as int].num_active_contacts
                        <= max_points,
            decreases n - t,
        {
            let idx = interaction_indices[t];
            let c = interactions[idx].num_active_contacts;
            if c > max_points {
                max_points = c;
            }
            t = t + 1;
        }
        proof {
            lemma_empty_seq_multiset();
            lemma_add_empty(Multiset::<usize>::empty());
            assert(self.grouped_interactions@.skip(g0.len() as int) =~= Seq::<usize>::empty());
            assert(self.nongrouped_interactions@.skip(n0.len() as int) =~= Seq::<usize>::empty());
            lemma_kept_upto_zero(interactions@, bodies@, interaction_indices@, n as int);
        }

        let mut occupied_mask: u128 = 0;
        proof {
            assert forall|c: u128| c < 128 implies !(#[trigger] bit(0u128, c)) by {
                lemma_bit_zero(c);
            }
        }

        let mut kk: usize = 0;
        while kk < max_points
            invariant
                kk <= max_points,
                n == interaction_indices@.len(),
                manifolds_in_range(interactions@, bodies@, interaction_indices@),
                occupied_mask == 0u128,
                forall|c: u128| c < 128 ==> !(#[trigger] bit(occupied_mask, c)),
                forall|c: int| !bucket_map_view(self.buckets).dom().contains(c),
                self.body_masks@.len() == bodies@.len(),
                forall|i: int|
                    0 <= i < self.body_masks@.len() ==> (#[trigger] self.body_masks@[i])
                        == 0u128,
                self.grouped_interactions@.len() as int % (SIMD_WIDTH as int) == 0,
                g0.len() as int % (SIMD_WIDTH as int) == 0,
                g0.len() <= self.grouped_interactions@.len(),
                self.grouped_interactions@.subrange(0, g0.len() as int) == g0,
                n0.len() <= self.nongrouped_interactions@.len(),
                self.nongrouped_interactions@.subrange(0, n0.len() as int) == n0,
                forall|m: int|
                    g0.len() <= m && m % (SIMD_WIDTH as int) == 0 && m + SIMD_WIDTH
                        <= self.grouped_interactions@.len() ==> #[trigger] manifold_block_ok(
                        self.grouped_interactions@,
                        m,
                        interactions@,
                        bodies@,
                    ),
                forall|p: int|
                    g0.len() <= p < self.grouped_interactions@.len()
                        ==> interaction_indices@.contains(
                        #[trigger] self.grouped_interactions@[p],
                    ),
                forall|p: int|
                    n0.len() <= p < self.nongrouped_interactions@.len()
                        ==> interaction_indices@.contains(
                        #[trigger] self.nongrouped_interactions@[p],
                    ),
                forall|j: int|
                    0 <= j < n ==> interactions@[(
                    #[trigger] interaction_indices@[j]) as int].num_active_contacts
                        <= max_points,
                self.grouped_interactions@.skip(g0.len() as int).to_multiset().add(
                    self.nongrouped_interactions@.skip(n0.len() as int).to_multiset(),
                ) == manifolds_kept_upto(
                    interactions@,
                    bodies@,
                    interaction_indices@,
                    kk as int,
                    n as int,
                ).to_multiset(),
            decreases max_points - kk,
        {
            let k = kk + 1;
            let ghost kpass = k as int;
            proof {
                lemma_spill_upto_unmapped(bucket_map_view(self.buckets), 128);
                lemma_empty_seq_multiset();
                lemma_add_empty(
                    self.grouped_interactions@.skip(g0.len() as int).to_multiset().add(
                        self.nongrouped_interactions@.skip(n0.len() as int).to_multiset(),
                    ),
                );
            }
            let mut t: usize = 0;
            while t < n
                invariant
                    kpass == k as int,
                    t <= n,
                    n == interaction_indices@.len(),
                    manifolds_in_range(interactions@, bodies@, interaction_indices@),
                    forall|j: int|
                        0 <= j < n ==> interactions@[(
                        #[trigger] interaction_indices@[j]) as int].num_active_contacts
                            <= max_points,
                    self.grouped_interactions@.skip(g0.len() as int).to_multiset().add(
                        self.nongrouped_interactions@.skip(n0.len() as int).to_multiset(),
                    ).add(spill_upto(bucket_map_view(self.buckets), 128).to_multiset())
                        == manifolds_kept_upto(
                        interactions@,
                        bodies@,
                        interaction_indices@,
                        kpass - 1,
                        n as int,
                    ).to_multiset().add(
                        manifolds_kept_pass(
                            interactions@,
                            bodies@,
                            interaction_indices@,
                            kpass,
                            t as int,
                        ).to_multiset(),
                    ),
                    manifold_buckets_ok(
                        bucket_map_view(self.buckets),
                        occupied_mask,
                        self.body_masks@,
                        interactions@,
                        bodies@,
                        interaction_indices@,
                        kpass,
                    ),
                    self.grouped_interactions@.len() as int % (SIMD_WIDTH as int) == 0,
                    g0.len() as int % (SIMD_WIDTH as int) == 0,
                    g0.len() <= self.grouped_interactions@.len(),
                    self.grouped_interactions@.subrange(0, g0.len() as int) == g0,
                    n0.len() <= self.nongrouped_interactions@.len(),
                    self.nongrouped_interactions@.subrange(0, n0.len() as int) == n0,
                    forall|m: int|
                        g0.len() <= m && m % (SIMD_WIDTH as int) == 0 && m + SIMD_WIDTH
                            <= self.grouped_interactions@.len() ==> #[trigger] manifold_block_ok(
                            self.grouped_interactions@,
                            m,
                            interactions@,
                            bodies@,
                        ),
                    forall|p: int|
                        g0.len() <= p < self.grouped_interactions@.len()
                            ==> interaction_indices@.contains(
                            #[trigger] self.grouped_interactions@[p],
                        ),
                    forall|p: int|
                        n0.len() <= p < self.nongrouped_interactions@.len()
                            ==> interaction_indices@.contains(
                            #[trigger] self.nongrouped_interactions@[p],
                        ),
                decreases n - t,
            {
                let idx = interaction_indices[t];
                let ghost gsnap = self.grouped_interactions@;
                let ghost nsnap = self.nongrouped_interactions@;
                let ghost bsnap = bucket_map_view(self.buckets);
                let ghost gsk = gsnap.skip(g0.len() as int).to_multiset();
                let ghost nsk = nsnap.skip(n0.len() as int).to_multiset();
                let ghost keptu = manifolds_kept_upto(
                    interactions@,
                    bodies@,
                    interaction_indices@,
                    kpass - 1,
                    n as int,
                );
                let ghost keptp = manifolds_kept_pass(
                    interactions@,
                    bodies@,
                    interaction_indices@,
                    kpass,
                    t as int,
                );
                let ghost keptp1 = manifolds_kept_pass(
                    interactions@,
                    bodies@,
                    interaction_indices@,
                    kpass,
                    t as int + 1,
                );
                proof {
                    assert(interaction_indices@[t as int] == idx);
                    assert(interaction_indices@.contains(idx));
                }
                let manifold = interactions[idx];
                let ghost pr = interactions@[idx as int].spec_body_pair();
                if manifold.num_active_contacts != k {
                    proof {
                        assert(keptp1 =~= keptp);
                    }
                } else {
                    let body1 = bodies[manifold.body_pair.body1];
                    let body2 = bodies[manifold.body_pair.body2];
                    let is_static1 = !body1.is_dynamic();
                    let is_static2 = !body2.is_dynamic();
                    if is_static1 && is_static2 {
                        // A static pair transmits no forces: dropped.
                        proof {
                            assert(keptp1 =~= keptp);
                        }
                    } else {
                        let i1 = body1.active_set_offset;
                        let i2 = body2.active_set_offset;
                        let conflicts = self.body_masks[i1] | self.body_masks[i2];
                        let conflictfree_targets = !(conflicts & occupied_mask);
                        let conflictfree_occupied_targets = conflictfree_targets & occupied_mask;
                        let target_index = if conflictfree_occupied_targets != 0 {
                            trailing_zeros128(conflictfree_occupied_targets)
                        } else {
                            trailing_zeros128(conflictfree_targets)
                        };
                        if target_index == 128 {
                            self.nongrouped_interactions.push(idx);
                            assert(self.nongrouped_interactions@.subrange(0, n0.len() as int)
                                =~= n0);
                            proof {
                                assert(self.nongrouped_interactions@.skip(n0.len() as int)
                                    =~= nsnap.skip(n0.len() as int).push(idx));
                                nsnap.skip(n0.len() as int).to_multiset_ensures();
                                assert(keptp1 =~= keptp.push(idx));
                                keptp.to_multiset_ensures();
                                lemma_union3_insert_ng(
                                    gsk,
                                    nsk,
                                    spill_upto(bsnap, 128).to_multiset(),
                                    keptu.to_multiset().add(keptp.to_multiset()),
                                    idx,
                                );
                                lemma_add_insert_right(
                                    keptu.to_multiset().add(keptp.to_multiset()),
                                    keptu.to_multiset(),
                                    keptp.to_multiset(),
                                    idx,
                                );
                            }
                        } else {
                            let ghost b = bucket_map_view(self.buckets);
                            let ghost occ = occupied_mask;
                            let ghost masks = self.body_masks@;
                            let tu = target_index as u128;
                            proof {
                                if conflictfree_occupied_targets != 0 {
                                    lemma_lowest_set_props(conflictfree_occupied_targets);
                                    lemma_bit_and(conflictfree_targets, occ, tu);
                                } else {
                                    lemma_lowest_set_props(conflictfree_targets);
                                }
                                assert(bit(conflictfree_targets, tu));
                                lemma_bit_not(conflicts & occ, tu);
                                lemma_bit_and(conflicts, occ, tu);
                                lemma_bit_or(masks[i1 as int], masks[i2 as int], tu);
                                assert(bit(occ, tu) ==> !bit(masks[i1 as int], tu) && !bit(
                                    masks[i2 as int],
                                    tu,
                                ));
                            }
                            let target_bit: u128 = 1u128 << tu;
                            let bopt = bucket_map_get(&self.buckets, target_index);
                            let mut lanes = match bopt {
                                Some(v) => v,
                                None => Vec::new(),
                            };
                            let ghost oldlanes = lanes@;
                            proof {
                                if oldlanes.len() >= 1 {
                                    assert(bit(occ, tu));
                                }
                                lemma_manifold_target_free(
                                    b,
                                    occ,
                                    masks,
                                    interactions@,
                                    bodies@,
                                    interaction_indices@,
                                    kpass,
                                    target_index as int,
                                    idx,
                                    oldlanes,
                                );
                                assert(interactions@[idx as int].num_active_contacts == kpass);
                                assert(manifold_lane_ok(
                                    idx,
                                    interactions@,
                                    bodies@,
                                    interaction_indices@,
                                    kpass,
                                ));
                            }
                            lanes.push(idx);
                            if lanes.len() == SIMD_WIDTH {
                                let ghost gpre = self.grouped_interactions@;
                                let mut q: usize = 0;
                                while q < SIMD_WIDTH
                                    invariant
                                        q <= SIMD_WIDTH,
                                        lanes@.len() == SIMD_WIDTH,
                                        lanes@ == oldlanes.push(idx),
                                        self.grouped_interactions@ == gpre + lanes@.subrange(
                                            0,
                                            q as int,
                                        ),
                                        self.nongrouped_interactions@.subrange(
                                            0,
                                            n0.len() as int,
                                        ) == n0,
                                        n0.len() <= self.nongrouped_interactions@.len(),
                                        forall|p: int|
                                            n0.len() <= p < self.nongrouped_interactions@.len()
                                                ==> interaction_indices@.contains(
                                                #[trigger] self.nongrouped_interactions@[p],
                                            ),
                                        self.nongrouped_interactions@ == nsnap,
                                        bucket_map_view(self.buckets) == b,
                                        self.body_masks@ == masks,
                                    decreases SIMD_WIDTH - q,
                                {
                                    self.grouped_interactions.push(lanes[q]);
                                    q = q + 1;
                                    assert(self.grouped_interactions@ =~= gpre + lanes@.subrange(
                                        0,
                                        q as int,
                                    ));
                                }
                                assert(self.grouped_interactions@ =~= gpre + oldlanes.push(idx));
                                bucket_map_insert(&mut self.buckets, target_index, Vec::new());
                                occupied_mask = occupied_mask & !target_bit;
                                if !is_static1 {
                                    let w = self.body_masks[i1];
                                    self.body_masks[i1] = w | target_bit;
                                }
                                if !is_static2 {
                                    let w = self.body_masks[i2];
                                    self.body_masks[i2] = w | target_bit;
                                }
                                proof {
                                    assert forall|c: u128| c < 128 implies #[trigger] bit(
                                        occupied_mask,
                                        c,
                                    ) == (bit(occ, c) && c != tu) by {
                                        lemma_clear_bit(occ, tu, c);
                                    }
                                    assert forall|o: int, c: u128|
                                        #![trigger bit(self.body_masks@[o], c)]
                                        0 <= o < self.body_masks@.len() && c < 128 implies bit(
                                        self.body_masks@[o],
                                        c,
                                    ) == (bit(masks[o], c) || (c == tu && is_dynamic_offset(
                                        o,
                                        pr,
                                        bodies@,
                                    ))) by {
                                        lemma_set_bit(masks[i1 as int], tu, c);
                                        lemma_set_bit(masks[i2 as int], tu, c);
                                        if !is_static1 && !is_static2 && i1 == i2 {
                                            lemma_set_bit(
                                                masks[i1 as int] | (1u128 << tu),
                                                tu,
                                                c,
                                            );
                                        }
                                    }
                                    lemma_manifold_place_flush(
                                        b,
                                        occ,
                                        masks,
                                        interactions@,
                                        bodies@,
                                        interaction_indices@,
                                        kpass,
                                        target_index as int,
                                        idx,
                                        oldlanes,
                                        occupied_mask,
                                        self.body_masks@,
                                        gpre,
                                    );
                                    assert(self.grouped_interactions@.subrange(
                                        0,
                                        g0.len() as int,
                                    ) =~= g0);
                                    assert forall|m: int|
                                        g0.len() <= m && m % (SIMD_WIDTH as int) == 0 && m
                                            + SIMD_WIDTH <= self.grouped_interactions@.len()
                                            implies #[trigger] manifold_block_ok(
                                        self.grouped_interactions@,
                                        m,
                                        interactions@,
                                        bodies@,
                                    ) by {
                                        if m + SIMD_WIDTH <= gpre.len() {
                                            assert(manifold_block_ok(
                                                gpre,
                                                m,
                                                interactions@,
                                                bodies@,
                                            ));
                                            assert forall|p: int| m <= p < m + SIMD_WIDTH implies
                                                self.grouped_interactions@[p] == gpre[p] by {}
                                        } else {
                                            assert(m == gpre.len());
                                        }
                                    }
                                    lemma_spill_upto_insert(
                                        bsnap,
                                        target_index as int,
                                        Seq::<usize>::empty(),
                                        128,
                                    );
                                    lemma_empty_seq_multiset();
                                    lemma_add_empty(spill_upto(bsnap, 128).to_multiset());
                                    assert(spill_upto(
                                        bucket_map_view(self.buckets),
                                        128,
                                    ).to_multiset().add(oldlanes.to_multiset()) == spill_upto(
                                        bsnap,
                                        128,
                                    ).to_multiset());
                                    oldlanes.to_multiset_ensures();
                                    lemma_union3_flush(
                                        gsk,
                                        nsk,
                                        spill_upto(bsnap, 128).to_multiset(),
                                        keptu.to_multiset().add(keptp.to_multiset()),
                                        oldlanes.to_multiset(),
                                        spill_upto(
                                            bucket_map_view(self.buckets),
                                            128,
                                        ).to_multiset(),
                                        idx,
                                    );
                                    assert(self.grouped_interactions@.skip(g0.len() as int)
                                        =~= gsnap.skip(g0.len() as int) + oldlanes.push(idx));
                                    lemma_multiset_commutative(
                                        gsnap.skip(g0.len() as int),
                                        oldlanes.push(idx),
                                    );
                                    assert(self.grouped_interactions@.skip(
                                        g0.len() as int,
                                    ).to_multiset() == gsk.add(
                                        oldlanes.to_multiset().insert(idx),
                                    ));
                                    assert(keptp1 =~= keptp.push(idx));
                                    keptp.to_multiset_ensures();
                                    lemma_add_insert_right(
                                        keptu.to_multiset().add(keptp.to_multiset()),
                                        keptu.to_multiset(),
                                        keptp.to_multiset(),
                                        idx,
                                    );
                                }
                            } else {
                                bucket_map_insert(&mut self.buckets, target_index, lanes);
                                occupied_mask = occupied_mask | target_bit;
                                if !is_static1 {
                                    let w = self.body_masks[i1];
                                    self.body_masks[i1] = w | target_bit;
                                }
                                if !is_static2 {
                                    let w = self.body_masks[i2];
                                    self.body_masks[i2] = w | target_bit;
                                }
                                proof {
                                    assert forall|c: u128| c < 128 implies #[trigger] bit(
                                        occupied_mask,
                                        c,
                                    ) == (bit(occ, c) || c == tu) by {
                                        lemma_set_bit(occ, tu, c);
                                    }
                                    assert forall|o: int, c: u128|
                                        #![trigger bit(self.body_masks@[o], c)]
                                        0 <= o < self.body_masks@.len() && c < 128 implies bit(
                                        self.body_masks@[o],
                                        c,
                                    ) == (bit(masks[o], c) || (c == tu && is_dynamic_offset(
                                        o,
                                        pr,
                                        bodies@,
                                    ))) by {
                                        lemma_set_bit(masks[i1 as int], tu, c);
                                        lemma_set_bit(masks[i2 as int], tu, c);
                                        if !is_static1 && !is_static2 && i1 == i2 {
                                            lemma_set_bit(
                                                masks[i1 as int] | (1u128 << tu),
                                                tu,
                                                c,
                                            );
                                        }
                                    }
                                    lemma_manifold_place_partial(
                                        b,
                                        occ,
                                        masks,
                                        interactions@,
                                        bodies@,
                                        interaction_indices@,
                                        kpass,
                                        target_index as int,
                                        idx,
                                        oldlanes,
                                        occupied_mask,
                                        self.body_masks@,
                                    );
                                    lemma_spill_upto_insert(
                                        bsnap,
                                        target_index as int,
                                        oldlanes.push(idx),
                                        128,
                                    );
                                    oldlanes.to_multiset_ensures();
                                    lemma_cancel_insert(
                                        spill_upto(
                                            bucket_map_view(self.buckets),
                                            128,
                                        ).to_multiset(),
                                        spill_upto(bsnap, 128).to_multiset(),
                                        oldlanes.to_multiset(),
                                        idx,
                                    );
                                    lemma_union3_insert_sp(
                                        gsk,
                                        nsk,
                                        spill_upto(bsnap, 128).to_multiset(),
                                        keptu.to_multiset().add(keptp.to_multiset()),
                                        idx,
                                    );
                                    assert(keptp1 =~= keptp.push(idx));
                                    keptp.to_multiset_ensures();
                                    lemma_add_insert_right(
                                        keptu.to_multiset().add(keptp.to_multiset()),
                                        keptu.to_multiset(),
                                        keptp.to_multiset(),
                                        idx,
                                    );
                                }
                            }
                        }
                    }
                }
                t = t + 1;
            }
            let ghost bpre = bucket_map_view(self.buckets);
            let ghost npre = self.nongrouped_interactions@;
            let ghost gfin = self.grouped_interactions@;
            self.flush_partial_buckets();
            occupied_mask = 0;
            proof {
                assert forall|c: u128| c < 128 implies !(#[trigger] bit(0u128, c)) by {
                    lemma_bit_zero(c);
                }
                assert(self.nongrouped_interactions@.skip(n0.len() as int) =~= npre.skip(
                    n0.len() as int,
                ) + spill_upto(bpre, 128));
                lemma_multiset_commutative(npre.skip(n0.len() as int), spill_upto(bpre, 128));
                lemma_union3_close(
                    gfin.skip(g0.len() as int).to_multiset(),
                    npre.skip(n0.len() as int).to_multiset(),
                    spill_upto(bpre, 128).to_multiset(),
                    manifolds_kept_upto(
                        interactions@,
                        bodies@,
                        interaction_indices@,
                        kpass - 1,
                        n as int,
                    ).to_multiset().add(
                        manifolds_kept_pass(
                            interactions@,
                            bodies@,
                            interaction_indices@,
                            kpass,
                            n as int,
                        ).to_multiset(),
                    ),
                );
                lemma_kept_upto_split(
                    interactions@,
                    bodies@,
                    interaction_indices@,
                    kpass,
                    n as int,
                );
                assert(self.nongrouped_interactions@.subrange(0, n0.len() as int) =~= n0);
                assert forall|p: int|
                    n0.len() <= p < self.nongrouped_interactions@.len()
                        implies interaction_indices@.contains(
                    #[trigger] self.nongrouped_interactions@[p],
                ) by {
                    if p >= npre.len() {
                        let w = lemma_spill_membership(bpre, 128, p - npre.len() as int);
                        assert(manifold_lane_ok(
                            bpre[w.0][w.1],
                            interactions@,
                            bodies@,
                            interaction_indices@,
                            kpass,
                        ));
                    }
                }
            }
            kk = kk + 1;
        }
        proof {
            lemma_kept_upto_all(
                interactions@,
                bodies@,
                interaction_indices@,
                max_points as int,
                n as int,
            );
        }
    }

    /// Replace the body-mask workspace by `n` zeroed masks.
    fn reset_body_masks(&mut self, n: usize)
        ensures
            final(self).body_masks@.len() == n,
            forall|i: int| 0 <= i < n ==> (#[trigger] final(self).body_masks@[i]) == 0u128,
            final(self).grouped_interactions@ == old(self).grouped_interactions@,
            final(self).nongrouped_interactions@ == old(self).nongrouped_interactions@,
            bucket_map_view(final(self).buckets) == bucket_map_view(old(self).buckets),
    {
        self.body_masks.clear();
        let mut i: usize = 0;
        while i < n
            invariant
                i <= n,
                self.body_masks@.len() == i,
                forall|t: int| 0 <= t < i ==> (#[trigger] self.body_masks@[t]) == 0u128,
                self.grouped_interactions@ == old(self).grouped_interactions@,
                self.nongrouped_interactions@ == old(self).nongrouped_interactions@,
                bucket_map_view(self.buckets) == bucket_map_view(old(self).buckets),
            decreases n - i,
        {
            self.body_masks.push(0u128);
            i = i + 1;
        }
    }

    /// Spill the contents of every remaining bucket (in ascending bucket
    /// order) into the non-grouped list, then drop all buckets and zero the
    /// body masks.
    fn flush_partial_buckets(&mut self)
        ensures
            final(self).grouped_interactions@ == old(self).grouped_interactions@,
            final(self).nongrouped_interactions@ == old(self).nongrouped_interactions@
                + spill_upto(bucket_map_view(old(self).buckets), 128),
            forall|c: int| !bucket_map_view(final(self).buckets).dom().contains(c),
            final(self).body_masks@.len() == old(self).body_masks@.len(),
            forall|i: int|
                0 <= i < final(self).body_masks@.len() ==> (#[trigger] final(self).body_masks@[i]) == 0u128,
    {
        let ghost b = bucket_map_view(old(self).buckets);
        let ghost n0 = old(self).nongrouped_interactions@;
        let mut k: usize = 0;
        while k < 128
            invariant
                k <= 128,
                b == bucket_map_view(self.buckets),
                self.grouped_interactions@ == old(self).grouped_interactions@,
                self.nongrouped_interactions@ == n0 + spill_upto(b, k as int),
                self.body_masks@ == old(self).body_masks@,
            decreases 128 - k,
        {
            match bucket_map_get(&self.buckets, k) {
                Some(lanes) => {
                    let m = lanes.len();
                    let mut q: usize = 0;
                    while q < m
                        invariant
                            q <= m,
                            m == lanes@.len(),
                            lanes@ == b[k as int],
                            b.dom().contains(k as int),
                            b == bucket_map_view(self.buckets),
                            self.grouped_interactions@ == old(self).grouped_interactions@,
                            self.nongrouped_interactions@ == n0 + spill_upto(b, k as int)
                                + lanes@.subrange(0, q as int),
                            self.body_masks@ == old(self).body_masks@,
                        decreases m - q,
                    {
                        self.nongrouped_interactions.push(lanes[q]);
                        q = q + 1;
                        assert(self.nongrouped_interactions@ =~= n0 + spill_upto(b, k as int)
                            + lanes@.subrange(0, q as int));
                    }
                    assert(lanes@.subrange(0, m as int) =~= b[k as int]);
                    assert(self.nongrouped_interactions@ =~= n0 + spill_upto(b, k as int + 1));
                },
                None => {
                    assert(self.nongrouped_interactions@ =~= n0 + spill_upto(b, k as int + 1));
                },
            }
            k = k + 1;
        }
        bucket_map_clear(&mut self.buckets);
        let n = self.body_masks.len();
        let mut i: usize = 0;
        while i < n
            invariant
                i <= n,
                n == self.body_masks@.len(),
                self.body_masks@.len() == old(self).body_masks@.len(),
                forall|t: int| 0 <= t < i ==> (#[trigger] self.body_masks@[t]) == 0u128,
                self.grouped_interactions@ == old(self).grouped_interactions@,
                self.nongrouped_interactions@ == n0 + spill_upto(b, 128),
                forall|c: int| !bucket_map_view(self.buckets).dom().contains(c),
            decreases n - i,
        {
            self.body_masks[i] = 0u128;
            i = i + 1;
        }
    }
}

} // verus!

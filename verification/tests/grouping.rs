use interaction_groups::pair_interaction::{BodyPair, ContactManifold, JointGraphEdge, RigidBody};
use interaction_groups::parallel_groups::ParallelInteractionGroups;
use interaction_groups::simd_groups::InteractionGroups;

fn dynamic_bodies(n: usize) -> Vec<RigidBody> {
    (0..n).map(|i| RigidBody { dynamic: true, active_set_offset: i }).collect()
}

fn manifold(b1: usize, b2: usize, contacts: usize) -> ContactManifold {
    ContactManifold { body_pair: BodyPair { body1: b1, body2: b2 }, num_active_contacts: contacts }
}

fn joint(b1: usize, b2: usize, ty: usize, simd: bool) -> JointGraphEdge {
    JointGraphEdge { body1: b1, body2: b2, joint_type: ty, supports_simd: simd }
}

#[test]
fn parallel_disjoint_chain() {
    let bodies = dynamic_bodies(5);
    let interactions = vec![
        manifold(0, 1, 1),
        manifold(1, 2, 1),
        manifold(2, 3, 1),
        manifold(3, 4, 1),
    ];
    let indices = vec![0, 1, 2, 3];
    let mut g = ParallelInteractionGroups::new();
    g.group_interactions(&bodies, &interactions, &indices);
    assert_eq!(g.num_groups(), 2);
    assert_eq!(g.group(0), vec![0, 2]);
    assert_eq!(g.group(1), vec![1, 3]);
}

#[test]
fn parallel_star() {
    let bodies = dynamic_bodies(5);
    let interactions = vec![
        manifold(0, 1, 1),
        manifold(0, 2, 1),
        manifold(0, 3, 1),
        manifold(0, 4, 1),
    ];
    let indices = vec![0, 1, 2, 3];
    let mut g = ParallelInteractionGroups::new();
    g.group_interactions(&bodies, &interactions, &indices);
    assert_eq!(g.num_groups(), 4);
    for i in 0..4 {
        assert_eq!(g.group(i), vec![i]);
    }
}

#[test]
fn parallel_empty_input() {
    let bodies = dynamic_bodies(3);
    let interactions: Vec<ContactManifold> = Vec::new();
    let indices: Vec<usize> = Vec::new();
    let mut g = ParallelInteractionGroups::new();
    g.group_interactions(&bodies, &interactions, &indices);
    assert_eq!(g.num_groups(), 0);
}

#[test]
fn parallel_single_interaction() {
    let bodies = dynamic_bodies(2);
    let interactions = vec![manifold(0, 1, 1)];
    let indices = vec![0];
    let mut g = ParallelInteractionGroups::new();
    g.group_interactions(&bodies, &interactions, &indices);
    assert_eq!(g.num_groups(), 1);
    assert_eq!(g.group(0), vec![0]);
}

#[test]
fn parallel_one_dynamic_body_per_pair_shares_color() {
    // Statics at handles 0..3 (arbitrary shared offset 7 is never read for
    // the color mask), dynamics at handles 4..7 with distinct offsets.
    let mut bodies: Vec<RigidBody> = Vec::new();
    for _ in 0..4 {
        bodies.push(RigidBody { dynamic: false, active_set_offset: 7 });
    }
    for i in 0..4 {
        bodies.push(RigidBody { dynamic: true, active_set_offset: i });
    }
    let interactions = vec![
        manifold(0, 4, 1),
        manifold(1, 5, 1),
        manifold(6, 2, 1),
        manifold(7, 3, 1),
    ];
    let indices = vec![0, 1, 2, 3];
    let mut g = ParallelInteractionGroups::new();
    g.group_interactions(&bodies, &interactions, &indices);
    assert_eq!(g.num_groups(), 1);
    assert_eq!(g.group(0), vec![0, 1, 2, 3]);
}

#[test]
fn parallel_shared_body_two_colors() {
    let bodies = dynamic_bodies(3);
    let interactions = vec![manifold(0, 1, 1), manifold(1, 2, 1)];
    let indices = vec![0, 1];
    let mut g = ParallelInteractionGroups::new();
    g.group_interactions(&bodies, &interactions, &indices);
    assert_eq!(g.num_groups(), 2);
    assert_eq!(g.group(0), vec![0]);
    assert_eq!(g.group(1), vec![1]);
}

#[test]
fn parallel_deterministic_across_calls() {
    let bodies = dynamic_bodies(6);
    let interactions = vec![
        manifold(0, 1, 1),
        manifold(1, 2, 1),
        manifold(3, 4, 1),
        manifold(4, 5, 1),
        manifold(0, 5, 1),
    ];
    let indices = vec![0, 1, 2, 3, 4];
    let mut g1 = ParallelInteractionGroups::new();
    g1.group_interactions(&bodies, &interactions, &indices);
    let mut g2 = ParallelInteractionGroups::new();
    g2.group_interactions(&bodies, &interactions, &indices);
    assert_eq!(g1.num_groups(), g2.num_groups());
    for i in 0..g1.num_groups() {
        assert_eq!(g1.group(i), g2.group(i));
    }
    // Re-running on the same grouper also reproduces the outputs.
    g1.group_interactions(&bodies, &interactions, &indices);
    for i in 0..g2.num_groups() {
        assert_eq!(g1.group(i), g2.group(i));
    }
}

#[test]
fn simd_contacts_perfect_fill() {
    let bodies = dynamic_bodies(8);
    let interactions = vec![
        manifold(0, 1, 1),
        manifold(2, 3, 1),
        manifold(4, 5, 1),
        manifold(6, 7, 1),
    ];
    let indices = vec![0, 1, 2, 3];
    let mut g = InteractionGroups::new();
    g.group_manifolds(&bodies, &interactions, &indices);
    assert_eq!(g.grouped_interactions, vec![0, 1, 2, 3]);
    assert!(g.nongrouped_interactions.is_empty());
}

#[test]
fn simd_contacts_stratified_by_count() {
    let bodies = dynamic_bodies(10);
    let interactions = vec![
        manifold(0, 1, 1),
        manifold(2, 3, 2),
        manifold(4, 5, 1),
        manifold(6, 7, 1),
        manifold(8, 9, 1),
    ];
    let indices = vec![0, 1, 2, 3, 4];
    let mut g = InteractionGroups::new();
    g.group_manifolds(&bodies, &interactions, &indices);
    assert_eq!(g.grouped_interactions, vec![0, 2, 3, 4]);
    assert_eq!(g.nongrouped_interactions, vec![1]);
}

#[test]
fn simd_contacts_single_partial_bucket_spills() {
    let bodies = dynamic_bodies(2);
    let interactions = vec![manifold(0, 1, 1)];
    let indices = vec![0];
    let mut g = InteractionGroups::new();
    g.group_manifolds(&bodies, &interactions, &indices);
    assert!(g.grouped_interactions.is_empty());
    assert_eq!(g.nongrouped_interactions, vec![0]);
}

#[test]
fn simd_contacts_shared_body_never_same_bucket() {
    let bodies = dynamic_bodies(3);
    let interactions = vec![manifold(0, 1, 1), manifold(1, 2, 1)];
    let indices = vec![0, 1];
    let mut g = InteractionGroups::new();
    g.group_manifolds(&bodies, &interactions, &indices);
    assert!(g.grouped_interactions.is_empty());
    assert_eq!(g.nongrouped_interactions, vec![0, 1]);
}

#[test]
fn simd_contacts_empty_input() {
    let bodies = dynamic_bodies(2);
    let interactions: Vec<ContactManifold> = Vec::new();
    let indices: Vec<usize> = Vec::new();
    let mut g = InteractionGroups::new();
    g.group_manifolds(&bodies, &interactions, &indices);
    assert!(g.grouped_interactions.is_empty());
    assert!(g.nongrouped_interactions.is_empty());
}

#[test]
fn simd_joints_subtype_separation() {
    // Four subtype-0 joints on disjoint pairs complete bucket 0; one
    // interleaved subtype-2 joint opens a separate bucket and spills.
    let bodies = dynamic_bodies(10);
    let interactions = vec![
        joint(0, 1, 0, true),
        joint(2, 3, 0, true),
        joint(4, 5, 2, true),
        joint(6, 7, 0, true),
        joint(8, 9, 0, true),
    ];
    let indices = vec![0, 1, 2, 3, 4];
    let mut g = InteractionGroups::new();
    g.group_joints(&bodies, &interactions, &indices);
    assert_eq!(g.grouped_interactions, vec![0, 1, 3, 4]);
    assert_eq!(g.nongrouped_interactions, vec![2]);
}

#[test]
fn simd_joints_ineligible_fast_path() {
    let bodies = dynamic_bodies(4);
    let interactions = vec![joint(0, 1, 0, false), joint(2, 3, 0, true)];
    let indices = vec![0, 1];
    let mut g = InteractionGroups::new();
    g.group_joints(&bodies, &interactions, &indices);
    assert!(g.grouped_interactions.is_empty());
    assert_eq!(g.nongrouped_interactions, vec![0, 1]);
    assert!(!g.grouped_interactions.contains(&0));
}

#[test]
fn simd_joints_static_pair_dropped() {
    let mut bodies = dynamic_bodies(2);
    bodies.push(RigidBody { dynamic: false, active_set_offset: 0 });
    bodies.push(RigidBody { dynamic: false, active_set_offset: 1 });
    let interactions = vec![joint(2, 3, 1, true), joint(0, 1, 1, true)];
    let indices = vec![0, 1];
    let mut g = InteractionGroups::new();
    g.group_joints(&bodies, &interactions, &indices);
    assert!(g.grouped_interactions.is_empty());
    assert_eq!(g.nongrouped_interactions, vec![1]);
}

#[test]
fn simd_clear_behaves_like_fresh() {
    let bodies = dynamic_bodies(8);
    let interactions = vec![
        manifold(0, 1, 1),
        manifold(2, 3, 1),
        manifold(4, 5, 1),
        manifold(6, 7, 1),
    ];
    let indices = vec![0, 1, 2, 3];
    let mut used = InteractionGroups::new();
    used.group_manifolds(&bodies, &interactions, &indices);
    used.clear();
    assert!(used.grouped_interactions.is_empty());
    assert!(used.nongrouped_interactions.is_empty());
    used.group_manifolds(&bodies, &interactions, &indices);
    let mut fresh = InteractionGroups::new();
    fresh.group_manifolds(&bodies, &interactions, &indices);
    assert_eq!(used.grouped_interactions, fresh.grouped_interactions);
    assert_eq!(used.nongrouped_interactions, fresh.nongrouped_interactions);
}

#[test]
fn simd_clear_groups_resets_outputs() {
    let bodies = dynamic_bodies(2);
    let interactions = vec![manifold(0, 1, 1)];
    let indices = vec![0];
    let mut g = InteractionGroups::new();
    g.group_manifolds(&bodies, &interactions, &indices);
    assert_eq!(g.nongrouped_interactions, vec![0]);
    g.clear_groups();
    assert!(g.grouped_interactions.is_empty());
    assert!(g.nongrouped_interactions.is_empty());
    g.group_manifolds(&bodies, &interactions, &indices);
    assert_eq!(g.nongrouped_interactions, vec![0]);
}

#[test]
fn simd_deterministic_across_calls() {
    let bodies = dynamic_bodies(10);
    let interactions = vec![
        joint(0, 1, 0, true),
        joint(2, 3, 1, true),
        joint(4, 5, 0, true),
        joint(6, 7, 0, true),
        joint(8, 9, 0, true),
    ];
    let indices = vec![0, 1, 2, 3, 4];
    let mut g1 = InteractionGroups::new();
    g1.group_joints(&bodies, &interactions, &indices);
    let mut g2 = InteractionGroups::new();
    g2.group_joints(&bodies, &interactions, &indices);
    assert_eq!(g1.grouped_interactions, g2.grouped_interactions);
    assert_eq!(g1.nongrouped_interactions, g2.nongrouped_interactions);
}

#[test]
fn union_of_outputs_is_input_minus_dropped() {
    // Five manifolds; one is a static pair (dropped), the rest must all
    // appear exactly once across the two output streams.
    let mut bodies = dynamic_bodies(8);
    bodies.push(RigidBody { dynamic: false, active_set_offset: 0 });
    bodies.push(RigidBody { dynamic: false, active_set_offset: 1 });
    let interactions = vec![
        manifold(0, 1, 1),
        manifold(8, 9, 1),
        manifold(2, 3, 1),
        manifold(4, 5, 2),
        manifold(6, 7, 1),
    ];
    let indices = vec![0, 1, 2, 3, 4];
    let mut g = InteractionGroups::new();
    g.group_manifolds(&bodies, &interactions, &indices);
    let mut seen: Vec<usize> = g.grouped_interactions.clone();
    seen.extend(g.nongrouped_interactions.iter().copied());
    seen.sort();
    assert_eq!(seen, vec![0, 2, 3, 4]);
}

//! Grouping of pairwise body interactions for a rigid-body constraint solver.
//!
//! Two independent strategies over the same "pair interaction" shape:
//! greedy graph coloring into race-free parallel batches, and greedy
//! bin-packing into fixed-width lane groups for a vectorized solver.

use vstd::prelude::*;

pub mod bits;
pub mod pair_interaction;
pub mod parallel_groups;
pub mod simd_groups;

verus! {

/// Number of interactions solved together by one vectorized kernel call.
pub const SIMD_WIDTH: usize = 4;

/// Index of the last lane of a vectorized group.
pub const SIMD_LAST_INDEX: usize = 3;

/// Number of distinct joint subtypes.
pub const NUM_JOINT_TYPES: usize = 5;

} // verus!

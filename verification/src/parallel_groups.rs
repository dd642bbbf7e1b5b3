//! Race-free parallel batches by greedy graph coloring.
//!
//! Each interaction receives the lowest color not yet used by one of its
//! dynamic bodies; two interactions of the same color therefore never share
//! a dynamic body, so one color class can be solved in parallel without
//! data races on body state.

use vstd::prelude::*;
use vstd::seq_lib::lemma_multiset_commutative;
use vstd::multiset::Multiset;
use crate::bits::{bit, lowest_set, lemma_bit_or, lemma_bit_not, lemma_bit_zero, lemma_set_bit,
    lemma_lowest_set_props, trailing_zeros128};
use crate::pair_interaction::{BodyPair, RigidBody, PairInteraction, pair_in_range,
    pair_has_dynamic, is_dynamic_offset, dynamic_disjoint};

verus! {

/// The body pair of each selected interaction, in selection order.
pub open spec fn resolved_pairs<I: PairInteraction>(
    interactions: Seq<I>,
    indices: Seq<usize>,
) -> Seq<BodyPair> {
    Seq::new(indices.len(), |j: int| interactions[indices[j] as int].spec_body_pair())
}

/// Every selected index is in range and yields a pair whose bodies and
/// island offsets are in range.
pub open spec fn inputs_in_range<I: PairInteraction>(
    interactions: Seq<I>,
    bodies: Seq<RigidBody>,
    indices: Seq<usize>,
) -> bool {
    forall|j: int|
        0 <= j < indices.len() ==> (#[trigger] indices[j]) < interactions.len()
            && pair_in_range(resolved_pairs(interactions, indices)[j], bodies)
}

/// The forbidden-color mask an interaction sees: the union of the color
/// masks of its dynamic bodies (a static body forbids nothing).
pub open spec fn forbidden_mask(masks: Seq<u128>, p: BodyPair, bodies: Seq<RigidBody>) -> u128 {
    let b1 = bodies[p.body1 as int];
    let b2 = bodies[p.body2 as int];
    if b1.dynamic && b2.dynamic {
        masks[b1.active_set_offset as int] | masks[b2.active_set_offset as int]
    } else if b1.dynamic {
        masks[b1.active_set_offset as int]
    } else {
        masks[b2.active_set_offset as int]
    }
}

/// The greedy color picked against the masks `masks`: the lowest color not
/// forbidden by a dynamic body of `p`.
pub open spec fn greedy_color(masks: Seq<u128>, p: BodyPair, bodies: Seq<RigidBody>) -> u128 {
    lowest_set(!forbidden_mask(masks, p, bodies))
}

/// The masks after recording `p` under its greedy color: bit `c` is set in
/// the mask of each dynamic body of `p`.
pub open spec fn record_pair(masks: Seq<u128>, p: BodyPair, bodies: Seq<RigidBody>) -> Seq<u128> {
    let c = greedy_color(masks, p, bodies);
    if c < 128 {
        let b1 = bodies[p.body1 as int];
        let b2 = bodies[p.body2 as int];
        let m1 = if b1.dynamic {
            masks.update(b1.active_set_offset as int, masks[b1.active_set_offset as int] | (
            1u128 << c))
        } else {
            masks
        };
        if b2.dynamic {
            m1.update(b2.active_set_offset as int, m1[b2.active_set_offset as int] | (1u128 << c))
        } else {
            m1
        }
    } else {
        masks
    }
}

/// The per-body color masks after the first `n` pairs have been colored.
pub open spec fn masks_at(ps: Seq<BodyPair>, bodies: Seq<RigidBody>, n: int) -> Seq<u128>
    decreases n,
{
    if n <= 0 {
        Seq::new(bodies.len(), |i: int| 0u128)
    } else {
        record_pair(masks_at(ps, bodies, n - 1), ps[n - 1], bodies)
    }
}

/// The color the greedy pass assigns to the `j`-th pair.
pub open spec fn color_at(ps: Seq<BodyPair>, bodies: Seq<RigidBody>, j: int) -> u128 {
    greedy_color(masks_at(ps, bodies, j), ps[j], bodies)
}

/// Every pair has a dynamic body and receives a color below 128 (no mask
/// wrap-around), the caller's obligations of the greedy pass.
pub open spec fn colorable(ps: Seq<BodyPair>, bodies: Seq<RigidBody>) -> bool {
    forall|j: int|
        0 <= j < ps.len() ==> pair_has_dynamic(ps[j], bodies) && #[trigger] color_at(
            ps,
            bodies,
            j,
        ) < 128
}

/// How many of the first `n` pairs receive color `c`.
pub open spec fn color_count(ps: Seq<BodyPair>, bodies: Seq<RigidBody>, c: u128, n: int) -> int
    decreases n,
{
    if n <= 0 {
        0
    } else {
        color_count(ps, bodies, c, n - 1) + if color_at(ps, bodies, n - 1) == c {
            1int
        } else {
            0int
        }
    }
}

/// The first color at or above `c` that no pair receives, or 128.
pub open spec fn first_unused_color_from(ps: Seq<BodyPair>, bodies: Seq<RigidBody>, c: int) -> int
    decreases 128 - c,
{
    if c >= 128 {
        128
    } else if color_count(ps, bodies, c as u128, ps.len() as int) == 0 {
        c
    } else {
        first_unused_color_from(ps, bodies, c + 1)
    }
}

/// The number of colors the greedy pass uses: colors are allocated densely
/// from 0, so this is the first unused color.
pub open spec fn num_colors(ps: Seq<BodyPair>, bodies: Seq<RigidBody>) -> int {
    first_unused_color_from(ps, bodies, 0)
}

/// The start offset of color `c` in the sorted output: the total count of
/// all lower colors.
pub open spec fn color_offset(ps: Seq<BodyPair>, bodies: Seq<RigidBody>, c: int) -> int
    decreases c,
{
    if c <= 0 {
        0
    } else {
        color_offset(ps, bodies, c - 1) + color_count(ps, bodies, (c - 1) as u128, ps.len() as int)
    }
}

/// The selected indices among the first `n` whose pair receives color `c`,
/// in input order.
pub open spec fn of_color(
    indices: Seq<usize>,
    ps: Seq<BodyPair>,
    bodies: Seq<RigidBody>,
    c: u128,
    n: int,
) -> Seq<usize>
    decreases n,
{
    if n <= 0 {
        Seq::empty()
    } else {
        of_color(indices, ps, bodies, c, n - 1) + if color_at(ps, bodies, n - 1) == c {
            seq![indices[n - 1]]
        } else {
            Seq::empty()
        }
    }
}

// ---------------------------------------------------------------------------
// Lemmas about the greedy model.
// ---------------------------------------------------------------------------

pub proof fn lemma_color_count_bound(ps: Seq<BodyPair>, bodies: Seq<RigidBody>, c: u128, n: int)
    ensures
        0 <= color_count(ps, bodies, c, n) <= if n <= 0 {
            0int
        } else {
            n
        },
    decreases n,
{
    if n > 0 {
        lemma_color_count_bound(ps, bodies, c, n - 1);
    }
}

pub proof fn lemma_color_count_monotone(
    ps: Seq<BodyPair>,
    bodies: Seq<RigidBody>,
    c: u128,
    n: int,
    m: int,
)
    requires
        n <= m,
    ensures
        color_count(ps, bodies, c, n) <= color_count(ps, bodies, c, m),
    decreases m - n,
{
    if n < m {
        lemma_color_count_monotone(ps, bodies, c, n, m - 1);
        lemma_color_count_bound(ps, bodies, c, m);
    }
}

/// The length of the mask sequence is the body count.
pub proof fn lemma_masks_at_len(ps: Seq<BodyPair>, bodies: Seq<RigidBody>, n: int)
    requires
        forall|j: int| 0 <= j < n ==> pair_in_range(#[trigger] ps[j], bodies),
    ensures
        masks_at(ps, bodies, n).len() == bodies.len(),
    decreases n,
{
    if n > 0 {
        lemma_masks_at_len(ps, bodies, n - 1);
        let prev = masks_at(ps, bodies, n - 1);
        let p = ps[n - 1];
        let c = greedy_color(prev, p, bodies);
        if c < 128 {
            let b1 = bodies[p.body1 as int];
            let b2 = bodies[p.body2 as int];
            let m1 = if b1.dynamic {
                prev.update(b1.active_set_offset as int, prev[b1.active_set_offset as int] | (
                1u128 << c))
            } else {
                prev
            };
            assert(m1.len() == prev.len());
            assert(record_pair(prev, p, bodies).len() == m1.len());
        }
    }
}

/// How recording one pair changes a single mask bit.
proof fn lemma_record_pair_bits(
    masks: Seq<u128>,
    p: BodyPair,
    bodies: Seq<RigidBody>,
    o: int,
    c: u128,
)
    requires
        masks.len() == bodies.len(),
        pair_in_range(p, bodies),
        0 <= o < bodies.len(),
        c < 128,
        greedy_color(masks, p, bodies) < 128,
    ensures
        bit(record_pair(masks, p, bodies)[o], c) <==> (bit(masks[o], c) || (c == greedy_color(
            masks,
            p,
            bodies,
        ) && is_dynamic_offset(o, p, bodies))),
{
    let cc = greedy_color(masks, p, bodies);
    let b1 = bodies[p.body1 as int];
    let b2 = bodies[p.body2 as int];
    let m1 = if b1.dynamic {
        masks.update(b1.active_set_offset as int, masks[b1.active_set_offset as int] | (1u128
            << cc))
    } else {
        masks
    };
    if b1.dynamic {
        lemma_set_bit(masks[b1.active_set_offset as int], cc, c);
    }
    if b2.dynamic {
        lemma_set_bit(m1[b2.active_set_offset as int], cc, c);
    }
}

/// What a set mask bit means: bit `c` of the mask at island offset `o` is
/// set after `n` steps exactly when some earlier pair of color `c` has a
/// dynamic body at offset `o`.
pub proof fn lemma_masks_at_char(ps: Seq<BodyPair>, bodies: Seq<RigidBody>, n: int)
    requires
        n <= ps.len(),
        forall|j: int| 0 <= j < ps.len() ==> pair_in_range(#[trigger] ps[j], bodies),
        colorable(ps, bodies),
    ensures
        forall|o: int, c: u128|
            0 <= o < bodies.len() && c < 128 ==> (#[trigger] bit(masks_at(ps, bodies, n)[o], c)
                <==> exists|j: int|
                0 <= j < n && color_at(ps, bodies, j) == c && is_dynamic_offset(
                    o,
                    #[trigger] ps[j],
                    bodies,
                )),
    decreases n,
{
    lemma_masks_at_len(ps, bodies, n);
    if n <= 0 {
        assert forall|o: int, c: u128| 0 <= o < bodies.len() && c < 128 implies !(#[trigger] bit(
            masks_at(ps, bodies, n)[o],
            c,
        )) by {
            lemma_bit_zero(c);
        }
    } else {
        lemma_masks_at_char(ps, bodies, n - 1);
        lemma_masks_at_len(ps, bodies, n - 1);
        let prev = masks_at(ps, bodies, n - 1);
        let p = ps[n - 1];
        let cc = color_at(ps, bodies, n - 1);
        assert(cc < 128 && pair_has_dynamic(p, bodies));
        assert forall|o: int, c: u128| 0 <= o < bodies.len() && c < 128 implies (#[trigger] bit(
            masks_at(ps, bodies, n)[o],
            c,
        ) <==> exists|j: int|
            0 <= j < n && color_at(ps, bodies, j) == c && is_dynamic_offset(
                o,
                #[trigger] ps[j],
                bodies,
            )) by {
            lemma_record_pair_bits(prev, p, bodies, o, c);
            if bit(masks_at(ps, bodies, n)[o], c) {
                if c == cc && is_dynamic_offset(o, p, bodies) {
                    assert(color_at(ps, bodies, n - 1) == c && is_dynamic_offset(
                        o,
                        ps[n - 1],
                        bodies,
                    ));
                } else {
                    assert(bit(prev[o], c));
                    let j = choose|j: int|
                        0 <= j < n - 1 && color_at(ps, bodies, j) == c && is_dynamic_offset(
                            o,
                            #[trigger] ps[j],
                            bodies,
                        );
                    assert(0 <= j < n && color_at(ps, bodies, j) == c && is_dynamic_offset(
                        o,
                        ps[j],
                        bodies,
                    ));
                }
            }
            if exists|j: int|
                0 <= j < n && color_at(ps, bodies, j) == c && is_dynamic_offset(
                    o,
                    #[trigger] ps[j],
                    bodies,
                ) {
                let j = choose|j: int|
                    0 <= j < n && color_at(ps, bodies, j) == c && is_dynamic_offset(
                        o,
                        #[trigger] ps[j],
                        bodies,
                    );
                if j == n - 1 {
                    assert(bit(masks_at(ps, bodies, n)[o], c));
                } else {
                    assert(bit(prev[o], c));
                    assert(bit(masks_at(ps, bodies, n)[o], c));
                }
            }
        }
    }
}

/// The color chosen at step `j` is not forbidden: no earlier pair of the
/// same color shares a dynamic island offset with pair `j`.
pub proof fn lemma_chosen_color_fresh(
    ps: Seq<BodyPair>,
    bodies: Seq<RigidBody>,
    j: int,
    o: int,
)
    requires
        0 <= j < ps.len(),
        forall|t: int| 0 <= t < ps.len() ==> pair_in_range(#[trigger] ps[t], bodies),
        colorable(ps, bodies),
        is_dynamic_offset(o, ps[j], bodies),
    ensures
        !bit(masks_at(ps, bodies, j)[o], color_at(ps, bodies, j)),
{
    let masks = masks_at(ps, bodies, j);
    let p = ps[j];
    let f = forbidden_mask(masks, p, bodies);
    let c = color_at(ps, bodies, j);
    lemma_masks_at_len(ps, bodies, j);
    lemma_lowest_set_props(!f);
    assert(bit(!f, c));
    lemma_bit_not(f, c);
    let b1 = bodies[p.body1 as int];
    let b2 = bodies[p.body2 as int];
    if b1.dynamic && b2.dynamic {
        lemma_bit_or(
            masks[b1.active_set_offset as int],
            masks[b2.active_set_offset as int],
            c,
        );
    }
}

/// Two pairs of the same color share no dynamic body: the coloring
/// invariant of the parallel batches.
pub proof fn lemma_same_color_disjoint(
    ps: Seq<BodyPair>,
    bodies: Seq<RigidBody>,
    j: int,
    k: int,
)
    requires
        0 <= j < ps.len(),
        0 <= k < ps.len(),
        j != k,
        forall|t: int| 0 <= t < ps.len() ==> pair_in_range(#[trigger] ps[t], bodies),
        colorable(ps, bodies),
        color_at(ps, bodies, j) == color_at(ps, bodies, k),
    ensures
        dynamic_disjoint(ps[j], ps[k], bodies),
{
    let (a, b) = if j < k {
        (j, k)
    } else {
        (k, j)
    };
    let c = color_at(ps, bodies, b);
    assert forall|o: int| !(is_dynamic_offset(o, ps[a], bodies) && is_dynamic_offset(
        o,
        ps[b],
        bodies,
    )) by {
        if is_dynamic_offset(o, ps[a], bodies) && is_dynamic_offset(o, ps[b], bodies) {
            assert(0 <= o < bodies.len());
            lemma_masks_at_char(ps, bodies, b);
            assert(bit(masks_at(ps, bodies, b)[o], c));
            lemma_chosen_color_fresh(ps, bodies, b, o);
        }
    }
}

/// Colors are allocated densely: every color below a used color is used.
pub proof fn lemma_colors_dense(ps: Seq<BodyPair>, bodies: Seq<RigidBody>, j: int, c: u128)
    requires
        0 <= j < ps.len(),
        forall|t: int| 0 <= t < ps.len() ==> pair_in_range(#[trigger] ps[t], bodies),
        colorable(ps, bodies),
        c < color_at(ps, bodies, j),
    ensures
        color_count(ps, bodies, c, ps.len() as int) > 0,
    decreases j,
{
    let masks = masks_at(ps, bodies, j);
    let p = ps[j];
    let f = forbidden_mask(masks, p, bodies);
    lemma_masks_at_len(ps, bodies, j);
    lemma_lowest_set_props(!f);
    assert(!bit(!f, c));
    lemma_bit_not(f, c);
    assert(bit(f, c));
    let b1 = bodies[p.body1 as int];
    let b2 = bodies[p.body2 as int];
    let o: int = if b1.dynamic && b2.dynamic {
        lemma_bit_or(
            masks[b1.active_set_offset as int],
            masks[b2.active_set_offset as int],
            c,
        );
        if bit(masks[b1.active_set_offset as int], c) {
            b1.active_set_offset as int
        } else {
            b2.active_set_offset as int
        }
    } else if b1.dynamic {
        b1.active_set_offset as int
    } else {
        b2.active_set_offset as int
    };
    assert(bit(masks[o], c));
    lemma_masks_at_char(ps, bodies, j);
    let t = choose|t: int|
        0 <= t < j && color_at(ps, bodies, t) == c && is_dynamic_offset(o, #[trigger] ps[t], bodies);
    lemma_color_count_positive(ps, bodies, c, t, ps.len() as int);
}

/// A used color has a positive count over any prefix containing its user.
pub proof fn lemma_color_count_positive(
    ps: Seq<BodyPair>,
    bodies: Seq<RigidBody>,
    c: u128,
    j: int,
    n: int,
)
    requires
        0 <= j < n,
        color_at(ps, bodies, j) == c,
    ensures
        color_count(ps, bodies, c, n) > 0,
    decreases n,
{
    if j < n - 1 {
        lemma_color_count_positive(ps, bodies, c, j, n - 1);
        lemma_color_count_bound(ps, bodies, c, n - 1);
    } else {
        lemma_color_count_bound(ps, bodies, c, n - 1);
    }
}

/// Every assigned color lies below the number of colors.
pub proof fn lemma_colors_below_num(ps: Seq<BodyPair>, bodies: Seq<RigidBody>, j: int)
    requires
        0 <= j < ps.len(),
        forall|t: int| 0 <= t < ps.len() ==> pair_in_range(#[trigger] ps[t], bodies),
        colorable(ps, bodies),
    ensures
        color_at(ps, bodies, j) < num_colors(ps, bodies),
{
    let c = color_at(ps, bodies, j);
    lemma_color_count_positive(ps, bodies, c, j, ps.len() as int);
    assert forall|d: u128| 0 <= d < c implies color_count(ps, bodies, d, ps.len() as int) > 0 by {
        lemma_colors_dense(ps, bodies, j, d);
    }
    lemma_first_unused_above(ps, bodies, 0, c as int);
}

/// `first_unused_color_from(c0)` exceeds any used color at or above `c0`
/// whose lower colors are all used.
proof fn lemma_first_unused_above(ps: Seq<BodyPair>, bodies: Seq<RigidBody>, c0: int, c: int)
    requires
        0 <= c0 <= c < 128,
        forall|t: int| 0 <= t < ps.len() ==> pair_in_range(#[trigger] ps[t], bodies),
        colorable(ps, bodies),
        color_count(ps, bodies, c as u128, ps.len() as int) > 0,
        forall|d: u128|
            c0 <= d < c ==> color_count(ps, bodies, d, ps.len() as int) > 0,
    ensures
        first_unused_color_from(ps, bodies, c0) > c,
    decreases 128 - c0,
{
    if c0 < c {
        assert(color_count(ps, bodies, c0 as u128, ps.len() as int) > 0);
        lemma_first_unused_above(ps, bodies, c0 + 1, c);
    } else {
        lemma_first_unused_props(ps, bodies, c0 + 1);
    }
}

/// The count of an unused-or-higher color is zero at `num_colors` and above.
pub proof fn lemma_num_colors_props(ps: Seq<BodyPair>, bodies: Seq<RigidBody>)
    requires
        forall|t: int| 0 <= t < ps.len() ==> pair_in_range(#[trigger] ps[t], bodies),
        colorable(ps, bodies),
    ensures
        0 <= num_colors(ps, bodies) <= 128,
        num_colors(ps, bodies) < 128 ==> color_count(
            ps,
            bodies,
            num_colors(ps, bodies) as u128,
            ps.len() as int,
        ) == 0,
        forall|c: int|
            0 <= c < num_colors(ps, bodies) ==> #[trigger] color_count(
                ps,
                bodies,
                c as u128,
                ps.len() as int,
            ) > 0,
        forall|j: int| 0 <= j < ps.len() ==> color_at(ps, bodies, j) < num_colors(ps, bodies),
{
    lemma_first_unused_props(ps, bodies, 0);
    assert forall|j: int| 0 <= j < ps.len() implies color_at(ps, bodies, j) < num_colors(
        ps,
        bodies,
    ) by {
        lemma_colors_below_num(ps, bodies, j);
    }
}

proof fn lemma_first_unused_props(ps: Seq<BodyPair>, bodies: Seq<RigidBody>, c0: int)
    requires
        0 <= c0 <= 128,
    ensures
        c0 <= first_unused_color_from(ps, bodies, c0) <= 128,
        first_unused_color_from(ps, bodies, c0) < 128 ==> color_count(
            ps,
            bodies,
            first_unused_color_from(ps, bodies, c0) as u128,
            ps.len() as int,
        ) == 0,
        forall|c: int|
            c0 <= c < first_unused_color_from(ps, bodies, c0) ==> #[trigger] color_count(
                ps,
                bodies,
                c as u128,
                ps.len() as int,
            ) > 0,
    decreases 128 - c0,
{
    if c0 < 128 {
        if color_count(ps, bodies, c0 as u128, ps.len() as int) != 0 {
            lemma_first_unused_props(ps, bodies, c0 + 1);
            lemma_color_count_bound(ps, bodies, c0 as u128, ps.len() as int);
        }
    }
}

/// The number of pairs with a color below `c` among the first `n`.
pub open spec fn count_below(
    ps: Seq<BodyPair>,
    bodies: Seq<RigidBody>,
    c: int,
    n: int,
) -> int
    decreases n,
{
    if n <= 0 {
        0
    } else {
        count_below(ps, bodies, c, n - 1) + if color_at(ps, bodies, n - 1) < c {
            1int
        } else {
            0int
        }
    }
}

proof fn lemma_offset_is_count_below(ps: Seq<BodyPair>, bodies: Seq<RigidBody>, c: int, n: int)
    requires
        0 <= c,
        0 <= n <= ps.len(),
    ensures
        color_offset(ps, bodies, c) >= 0,
        count_below(ps, bodies, c, n) <= n,
    decreases c + n,
{
    if c > 0 {
        lemma_offset_is_count_below(ps, bodies, c - 1, n);
        lemma_color_count_bound(ps, bodies, (c - 1) as u128, ps.len() as int);
    }
    if n > 0 {
        lemma_offset_is_count_below(ps, bodies, c, n - 1);
    }
}

/// `color_offset(c)` counts the pairs of color below `c`, so it is at most
/// the number of pairs.
pub proof fn lemma_color_offset_bound(ps: Seq<BodyPair>, bodies: Seq<RigidBody>, c: int)
    requires
        0 <= c <= 128,
    ensures
        0 <= color_offset(ps, bodies, c),
        color_offset(ps, bodies, c) == count_below(ps, bodies, c, ps.len() as int),
        color_offset(ps, bodies, c) <= ps.len(),
    decreases c,
{
    if c == 0 {
        lemma_count_below_zero(ps, bodies, ps.len() as int);
    } else {
        lemma_color_offset_bound(ps, bodies, c - 1);
        lemma_count_below_step(ps, bodies, c, ps.len() as int);
        lemma_offset_is_count_below(ps, bodies, c, ps.len() as int);
    }
}

proof fn lemma_count_below_zero(ps: Seq<BodyPair>, bodies: Seq<RigidBody>, n: int)
    ensures
        count_below(ps, bodies, 0, n) == 0,
    decreases n,
{
    if n > 0 {
        lemma_count_below_zero(ps, bodies, n - 1);
    }
}

proof fn lemma_count_below_step(ps: Seq<BodyPair>, bodies: Seq<RigidBody>, c: int, n: int)
    requires
        1 <= c <= 128,
    ensures
        count_below(ps, bodies, c, n) == count_below(ps, bodies, c - 1, n) + color_count(
            ps,
            bodies,
            (c - 1) as u128,
            n,
        ),
    decreases n,
{
    if n > 0 {
        lemma_count_below_step(ps, bodies, c, n - 1);
    }
}

/// When every pair's color lies below `c`, all pairs are counted below `c`.
pub proof fn lemma_offset_covers_all(ps: Seq<BodyPair>, bodies: Seq<RigidBody>, c: int, n: int)
    requires
        0 <= n <= ps.len(),
        forall|j: int| 0 <= j < ps.len() ==> color_at(ps, bodies, j) < c,
    ensures
        count_below(ps, bodies, c, n) == n,
    decreases n,
{
    if n > 0 {
        lemma_offset_covers_all(ps, bodies, c, n - 1);
    }
}


/// The color classes in ascending color order, concatenated: the shape of
/// the sorted output.
pub open spec fn colors_concat(
    indices: Seq<usize>,
    ps: Seq<BodyPair>,
    bodies: Seq<RigidBody>,
    kk: int,
    n: int,
) -> Seq<usize>
    decreases kk,
{
    if kk <= 0 {
        Seq::empty()
    } else {
        colors_concat(indices, ps, bodies, kk - 1, n) + of_color(
            indices,
            ps,
            bodies,
            (kk - 1) as u128,
            n,
        )
    }
}

proof fn lemma_colors_concat_zero(
    indices: Seq<usize>,
    ps: Seq<BodyPair>,
    bodies: Seq<RigidBody>,
    kk: int,
)
    ensures
        colors_concat(indices, ps, bodies, kk, 0) == Seq::<usize>::empty(),
    decreases kk,
{
    if kk > 0 {
        lemma_colors_concat_zero(indices, ps, bodies, kk - 1);
        assert(colors_concat(indices, ps, bodies, kk, 0) =~= Seq::<usize>::empty());
    }
}

proof fn lemma_colors_concat_untouched(
    indices: Seq<usize>,
    ps: Seq<BodyPair>,
    bodies: Seq<RigidBody>,
    kk: int,
    n: int,
)
    requires
        0 < n,
        kk <= 128,
        !(color_at(ps, bodies, n - 1) < kk),
    ensures
        colors_concat(indices, ps, bodies, kk, n) == colors_concat(indices, ps, bodies, kk, n - 1),
    decreases kk,
{
    if kk > 0 {
        lemma_colors_concat_untouched(indices, ps, bodies, kk - 1, n);
        assert(of_color(indices, ps, bodies, (kk - 1) as u128, n) =~= of_color(
            indices,
            ps,
            bodies,
            (kk - 1) as u128,
            n - 1,
        ));
        assert(colors_concat(indices, ps, bodies, kk, n) =~= colors_concat(
            indices,
            ps,
            bodies,
            kk,
            n - 1,
        ));
    }
}

proof fn lemma_colors_concat_step(
    indices: Seq<usize>,
    ps: Seq<BodyPair>,
    bodies: Seq<RigidBody>,
    kk: int,
    n: int,
)
    requires
        0 < n <= indices.len(),
        kk <= 128,
        color_at(ps, bodies, n - 1) < kk,
    ensures
        colors_concat(indices, ps, bodies, kk, n).to_multiset() == colors_concat(
            indices,
            ps,
            bodies,
            kk,
            n - 1,
        ).to_multiset().insert(indices[n - 1]),
    decreases kk,
{
    let x = indices[n - 1];
    let cstar = color_at(ps, bodies, n - 1);
    let a1 = colors_concat(indices, ps, bodies, kk - 1, n);
    let a0 = colors_concat(indices, ps, bodies, kk - 1, n - 1);
    let b1 = of_color(indices, ps, bodies, (kk - 1) as u128, n);
    let b0 = of_color(indices, ps, bodies, (kk - 1) as u128, n - 1);
    assert(colors_concat(indices, ps, bodies, kk, n) == a1 + b1);
    assert(colors_concat(indices, ps, bodies, kk, n - 1) == a0 + b0);
    lemma_multiset_commutative(a1, b1);
    lemma_multiset_commutative(a0, b0);
    assert(colors_concat(indices, ps, bodies, kk, n).to_multiset() =~= a1.to_multiset().add(
        b1.to_multiset(),
    ));
    assert(colors_concat(indices, ps, bodies, kk, n - 1).to_multiset() =~= a0.to_multiset().add(
        b0.to_multiset(),
    ));
    if cstar == kk - 1 {
        lemma_colors_concat_untouched(indices, ps, bodies, kk - 1, n);
        assert(a1 == a0);
        assert(b1 =~= b0.push(x));
        b0.to_multiset_ensures();
        assert(b1.to_multiset() =~= b0.to_multiset().insert(x));
        assert(a0.to_multiset().add(b0.to_multiset().insert(x)) =~= a0.to_multiset().add(
            b0.to_multiset(),
        ).insert(x));
    } else {
        lemma_colors_concat_step(indices, ps, bodies, kk - 1, n);
        assert(b1 =~= b0);
        assert(a1.to_multiset() =~= a0.to_multiset().insert(x));
        assert(a0.to_multiset().insert(x).add(b0.to_multiset()) =~= a0.to_multiset().add(
            b0.to_multiset(),
        ).insert(x));
    }
}

/// The color classes partition the input: their concatenation holds exactly
/// the input index multiset.
pub proof fn lemma_color_partition(
    indices: Seq<usize>,
    ps: Seq<BodyPair>,
    bodies: Seq<RigidBody>,
    kk: int,
    n: int,
)
    requires
        0 <= n <= indices.len(),
        kk <= 128,
        forall|j: int| 0 <= j < n ==> color_at(ps, bodies, j) < kk,
    ensures
        colors_concat(indices, ps, bodies, kk, n).to_multiset() == indices.subrange(
            0,
            n,
        ).to_multiset(),
    decreases n,
{
    if n == 0 {
        lemma_colors_concat_zero(indices, ps, bodies, kk);
        assert(indices.subrange(0, 0) =~= Seq::<usize>::empty());
    } else {
        lemma_color_partition(indices, ps, bodies, kk, n - 1);
        lemma_colors_concat_step(indices, ps, bodies, kk, n);
        assert(indices.subrange(0, n) =~= indices.subrange(0, n - 1).push(indices[n - 1]));
        indices.subrange(0, n - 1).to_multiset_ensures();
    }
}

/// The sorted output is the concatenation of its color classes.
proof fn lemma_sorted_is_concat(
    sorted: Seq<usize>,
    indices: Seq<usize>,
    ps: Seq<BodyPair>,
    bodies: Seq<RigidBody>,
    kk: int,
)
    requires
        0 <= kk <= 128,
        sorted.len() == indices.len(),
        ps.len() == indices.len(),
        forall|c: int|
            0 <= c < kk ==> sorted.subrange(
                #[trigger] color_offset(ps, bodies, c),
                color_offset(ps, bodies, c + 1),
            ) == of_color(indices, ps, bodies, c as u128, indices.len() as int),
    ensures
        sorted.subrange(0, color_offset(ps, bodies, kk)) == colors_concat(
            indices,
            ps,
            bodies,
            kk,
            indices.len() as int,
        ),
    decreases kk,
{
    lemma_color_offset_bound(ps, bodies, kk);
    if kk == 0 {
        assert(sorted.subrange(0, 0) =~= colors_concat(
            indices,
            ps,
            bodies,
            0,
            indices.len() as int,
        ));
    } else {
        lemma_sorted_is_concat(sorted, indices, ps, bodies, kk - 1);
        lemma_color_offset_bound(ps, bodies, kk - 1);
        lemma_color_offset_monotone(ps, bodies, kk - 1, kk);
        lemma_color_count_bound(ps, bodies, (kk - 1) as u128, ps.len() as int);
        assert(sorted.subrange(0, color_offset(ps, bodies, kk)) =~= sorted.subrange(
            0,
            color_offset(ps, bodies, kk - 1),
        ) + sorted.subrange(color_offset(ps, bodies, kk - 1), color_offset(ps, bodies, kk)));
    }
}

/// `color_offset` grows with the color.
pub proof fn lemma_color_offset_monotone(
    ps: Seq<BodyPair>,
    bodies: Seq<RigidBody>,
    c1: int,
    c2: int,
)
    requires
        0 <= c1 <= c2,
    ensures
        color_offset(ps, bodies, c1) <= color_offset(ps, bodies, c2),
    decreases c2 - c1,
{
    if c1 < c2 {
        lemma_color_offset_monotone(ps, bodies, c1, c2 - 1);
        lemma_color_count_bound(ps, bodies, (c2 - 1) as u128, ps.len() as int);
    }
}

proof fn lemma_first_unused_is(ps: Seq<BodyPair>, bodies: Seq<RigidBody>, i: int, c0: int)
    requires
        0 <= c0 <= i <= 128,
        forall|c: int|
            c0 <= c < i ==> #[trigger] color_count(ps, bodies, c as u128, ps.len() as int) > 0,
        i < 128 ==> color_count(ps, bodies, i as u128, ps.len() as int) == 0,
    ensures
        first_unused_color_from(ps, bodies, c0) == i,
    decreases i - c0,
{
    if c0 < i {
        lemma_first_unused_is(ps, bodies, i, c0 + 1);
    }
}

/// Workspaces and outputs of the parallel grouper.  The first three vectors
/// are per-call scratch; the last two are the outputs read through
/// `num_groups` and `group`.
pub struct ParallelInteractionGroups {
    bodies_color: Vec<u128>,
    interaction_indices: Vec<usize>,
    interaction_colors: Vec<usize>,
    sorted_interactions: Vec<usize>,
    groups: Vec<usize>,
}

impl ParallelInteractionGroups {
    /// The offset table: color `c` occupies
    /// `sorted()[groups()[c] .. groups()[c + 1]]`.
    pub closed spec fn spec_groups(&self) -> Seq<usize> {
        self.groups@
    }

    /// The selected indices, permuted so that each color is contiguous.
    pub closed spec fn spec_sorted(&self) -> Seq<usize> {
        self.sorted_interactions@
    }

    /// The offset table is well formed: non-empty, non-decreasing, and
    /// ending at the length of the sorted output.
    pub closed spec fn wf(&self) -> bool {
        &&& self.groups@.len() >= 1
        &&& forall|i: int, j: int|
            0 <= i <= j < self.groups@.len() ==> self.groups@[i] <= self.groups@[j]
        &&& self.groups@[self.groups@.len() - 1] == self.sorted_interactions@.len()
    }

    pub fn new() -> (r: ParallelInteractionGroups)
        ensures
            r.spec_groups() == Seq::<usize>::empty(),
            r.spec_sorted() == Seq::<usize>::empty(),
    {
        ParallelInteractionGroups {
            bodies_color: Vec::new(),
            interaction_indices: Vec::new(),
            interaction_colors: Vec::new(),
            sorted_interactions: Vec::new(),
            groups: Vec::new(),
        }
    }

    /// The number of color groups computed by the last grouping call.
    pub fn num_groups(&self) -> (r: usize)
        requires
            self.spec_groups().len() >= 1,
        ensures
            r == self.spec_groups().len() - 1,
    {
        self.groups.len() - 1
    }

    /// The indices of color group `i`, in input order.
    pub fn group(&self, i: usize) -> (r: Vec<usize>)
        requires
            self.wf(),
            i + 1 < self.spec_groups().len(),
        ensures
            r@ == self.spec_sorted().subrange(
                self.spec_groups()[i as int] as int,
                self.spec_groups()[i as int + 1] as int,
            ),
    {
        let glen = self.groups.len();
        assert(i + 1 < glen);
        let start = self.groups[i];
        let end = self.groups[i + 1];
        let mut r: Vec<usize> = Vec::new();
        let mut t = start;
        while t < end
            invariant
                start <= t <= end,
                end <= self.sorted_interactions@.len(),
                r@ == self.sorted_interactions@.subrange(start as int, t as int),
            decreases end - t,
        {
            r.push(self.sorted_interactions[t]);
            t = t + 1;
            assert(r@ =~= self.sorted_interactions@.subrange(start as int, t as int));
        }
        r
    }

    /// Color every selected interaction with the lowest color not already
    /// used by one of its dynamic bodies, then emit the indices sorted by
    /// color together with the color offset table.
    #[verifier::rlimit(50)]
    pub fn group_interactions<I: PairInteraction>(
        &mut self,
        bodies: &Vec<RigidBody>,
        interactions: &Vec<I>,
        interaction_indices: &Vec<usize>,
    )
        requires
            inputs_in_range(interactions@, bodies@, interaction_indices@),
            colorable(resolved_pairs(interactions@, interaction_indices@), bodies@),
        ensures
            ({
                let ps = resolved_pairs(interactions@, interaction_indices@);
                let nc = num_colors(ps, bodies@);
                &&& final(self).wf()
                &&& final(self).spec_groups().len() == nc + 1
                &&& forall|c: int|
                    0 <= c < nc ==> final(self).spec_groups()[c] as int == color_offset(
                        ps,
                        bodies@,
                        c,
                    )
                &&& final(self).spec_groups()[nc] == interaction_indices@.len()
                &&& final(self).spec_sorted().len() == interaction_indices@.len()
                &&& final(self).spec_sorted().to_multiset() == interaction_indices@.to_multiset()
                &&& forall|c: int|
                    0 <= c < nc ==> final(self).spec_sorted().subrange(
                        #[trigger] color_offset(ps, bodies@, c),
                        color_offset(ps, bodies@, c + 1),
                    ) == of_color(
                        interaction_indices@,
                        ps,
                        bodies@,
                        c as u128,
                        interaction_indices@.len() as int,
                    )
            }),
    {
        let ghost ps = resolved_pairs(interactions@, interaction_indices@);
        let ghost bs = bodies@;
        let n = interaction_indices.len();
        proof {
            assert forall|t: int| 0 <= t < ps.len() implies pair_in_range(
                #[trigger] ps[t],
                bs,
            ) by {
                assert(interaction_indices@[t] < interactions@.len());
            }
        }
        let num_island_bodies = bodies.len();
        self.bodies_color.clear();
        self.interaction_indices.clear();
        self.groups.clear();
        self.sorted_interactions.clear();
        self.interaction_colors.clear();

        let mut i: usize = 0;
        while i < num_island_bodies
            invariant
                i <= num_island_bodies,
                self.bodies_color@.len() == i,
                forall|t: int| 0 <= t < i ==> self.bodies_color@[t] == 0u128,
                self.interaction_indices@.len() == 0,
                self.groups@.len() == 0,
                self.sorted_interactions@.len() == 0,
                self.interaction_colors@.len() == 0,
            decreases num_island_bodies - i,
        {
            self.bodies_color.push(0u128);
            i = i + 1;
        }
        assert(self.bodies_color@ =~= masks_at(ps, bs, 0));

        let mut color_len: Vec<usize> = Vec::new();
        let mut i: usize = 0;
        while i < 128
            invariant
                i <= 128,
                color_len@.len() == i,
                forall|t: int| 0 <= t < i ==> color_len@[t] == 0usize,
            decreases 128 - i,
        {
            color_len.push(0);
            i = i + 1;
        }

        let mut j: usize = 0;
        while j < n
            invariant
                j <= n,
                n == interaction_indices@.len(),
                ps == resolved_pairs(interactions@, interaction_indices@),
                bs == bodies@,
                inputs_in_range(interactions@, bodies@, interaction_indices@),
                colorable(ps, bs),
                forall|t: int| 0 <= t < ps.len() ==> pair_in_range(#[trigger] ps[t], bs),
                self.bodies_color@ == masks_at(ps, bs, j as int),
                self.interaction_colors@.len() == j,
                forall|t: int|
                    0 <= t < j ==> (#[trigger] self.interaction_colors@[t]) as u128 == color_at(
                        ps,
                        bs,
                        t,
                    ) && self.interaction_colors@[t] < 128,
                self.interaction_indices@ == interaction_indices@.subrange(0, j as int),
                color_len@.len() == 128,
                forall|c: u128|
                    c < 128 ==> (#[trigger] color_len@[c as int]) as int == color_count(
                        ps,
                        bs,
                        c,
                        j as int,
                    ),
                self.groups@.len() == 0,
                self.sorted_interactions@.len() == 0,
            decreases n - j,
        {
            proof {
                lemma_masks_at_len(ps, bs, j as int);
            }
            let idx = interaction_indices[j];
            proof {
                assert(ps[j as int] == interactions@[idx as int].spec_body_pair());
            }
            let pair = interactions[idx].body_pair();
            let rb1 = bodies[pair.body1];
            let rb2 = bodies[pair.body2];
            let forbidden: u128 = if rb1.is_dynamic() && rb2.is_dynamic() {
                self.bodies_color[rb1.active_set_offset] | self.bodies_color[rb2.active_set_offset]
            } else if rb1.is_dynamic() {
                self.bodies_color[rb1.active_set_offset]
            } else {
                self.bodies_color[rb2.active_set_offset]
            };
            assert(forbidden == forbidden_mask(masks_at(ps, bs, j as int), ps[j as int], bs));
            let color = trailing_zeros128(!forbidden);
            assert(color as u128 == color_at(ps, bs, j as int));
            assert(color < 128);
            proof {
                lemma_color_count_bound(ps, bs, color as u128, j as int);
            }
            let cl = color_len[color];
            color_len[color] = cl + 1;
            let target_bit: u128 = 1u128 << (color as u128);
            if rb1.is_dynamic() {
                let o1 = rb1.active_set_offset;
                let m = self.bodies_color[o1];
                self.bodies_color[o1] = m | target_bit;
            }
            if rb2.is_dynamic() {
                let o2 = rb2.active_set_offset;
                let m = self.bodies_color[o2];
                self.bodies_color[o2] = m | target_bit;
            }
            assert(self.bodies_color@ =~= masks_at(ps, bs, j as int + 1));
            self.interaction_colors.push(color);
            self.interaction_indices.push(idx);
            assert(self.interaction_indices@ =~= interaction_indices@.subrange(0, j as int + 1));
            j = j + 1;
        }

        assert(self.interaction_indices@ =~= interaction_indices@);
        proof {
            lemma_num_colors_props(ps, bs);
        }
        let ghost nc = num_colors(ps, bs);
        let mut sort_offsets: Vec<usize> = Vec::new();
        let mut i: usize = 0;
        while i < 128
            invariant
                i <= 128,
                sort_offsets@.len() == i,
            decreases 128 - i,
        {
            sort_offsets.push(0);
            i = i + 1;
        }

        let mut last_offset: usize = 0;
        let mut i: usize = 0;
        let mut done: bool = false;
        while !done && i < 128
            invariant
                i <= 128,
                n == interaction_indices@.len(),
                ps.len() == n,
                bs == bodies@,
                colorable(ps, bs),
                forall|t: int| 0 <= t < ps.len() ==> pair_in_range(#[trigger] ps[t], bs),
                nc == num_colors(ps, bs),
                color_len@.len() == 128,
                forall|c: u128|
                    c < 128 ==> (#[trigger] color_len@[c as int]) as int == color_count(
                        ps,
                        bs,
                        c,
                        n as int,
                    ),
                forall|c: int|
                    0 <= c < i ==> #[trigger] color_count(ps, bs, c as u128, ps.len() as int) > 0,
                done ==> i < 128 && color_count(ps, bs, i as u128, ps.len() as int) == 0,
                !done ==> last_offset as int == color_offset(ps, bs, i as int),
                self.groups@.len() == i,
                forall|c: int|
                    0 <= c < i ==> (#[trigger] self.groups@[c]) as int == color_offset(ps, bs, c),
                sort_offsets@.len() == 128,
                forall|c: int|
                    0 <= c < i ==> (#[trigger] sort_offsets@[c]) as int == color_offset(ps, bs, c),
                self.sorted_interactions@.len() == 0,
                self.interaction_indices@ == interaction_indices@,
                self.interaction_colors@.len() == n,
                forall|t: int|
                    0 <= t < n ==> (#[trigger] self.interaction_colors@[t]) as u128 == color_at(
                        ps,
                        bs,
                        t,
                    ) && self.interaction_colors@[t] < 128,
            decreases 128 - i + if done {
                0int
            } else {
                1int
            },
        {
            if color_len[i] == 0 {
                done = true;
            } else {
                proof {
                    lemma_color_offset_bound(ps, bs, i as int + 1);
                    lemma_color_count_bound(ps, bs, i as u128, n as int);
                }
                self.groups.push(last_offset);
                sort_offsets[i] = last_offset;
                last_offset = last_offset + color_len[i];
                i = i + 1;
            }
        }
        proof {
            lemma_first_unused_is(ps, bs, i as int, 0);
            assert(nc == i);
        }

        let mut t: usize = 0;
        while t < n
            invariant
                t <= n,
                self.sorted_interactions@.len() == t,
                n == interaction_indices@.len(),
                self.interaction_colors@.len() == n,
                forall|t2: int|
                    0 <= t2 < n ==> (#[trigger] self.interaction_colors@[t2]) as u128 == color_at(
                        ps,
                        bs,
                        t2,
                    ) && self.interaction_colors@[t2] < 128,
                self.interaction_indices@ == interaction_indices@,
                self.groups@.len() == nc,
                forall|c: int|
                    0 <= c < nc ==> (#[trigger] self.groups@[c]) as int == color_offset(ps, bs, c),
                sort_offsets@.len() == 128,
                forall|c: int|
                    0 <= c < nc ==> (#[trigger] sort_offsets@[c]) as int == color_offset(ps, bs, c),
            decreases n - t,
        {
            self.sorted_interactions.push(0);
            t = t + 1;
        }

        proof {
            assert forall|c: int| 0 <= c < nc implies self.sorted_interactions@.subrange(
                color_offset(ps, bs, c),
                color_offset(ps, bs, c) + color_count(ps, bs, c as u128, 0),
            ) == of_color(interaction_indices@, ps, bs, c as u128, 0) by {
                lemma_color_offset_bound(ps, bs, c);
                assert(color_count(ps, bs, c as u128, 0) == 0);
                assert(self.sorted_interactions@.subrange(
                    color_offset(ps, bs, c),
                    color_offset(ps, bs, c),
                ) =~= of_color(interaction_indices@, ps, bs, c as u128, 0));
            }
        }
        let mut j: usize = 0;
        while j < n
            invariant
                j <= n,
                n == interaction_indices@.len(),
                ps == resolved_pairs(interactions@, interaction_indices@),
                ps.len() == n,
                bs == bodies@,
                colorable(ps, bs),
                forall|t2: int| 0 <= t2 < ps.len() ==> pair_in_range(#[trigger] ps[t2], bs),
                nc == num_colors(ps, bs),
                0 <= nc <= 128,
                forall|t2: int| 0 <= t2 < ps.len() ==> color_at(ps, bs, t2) < nc,
                self.interaction_colors@.len() == n,
                forall|t2: int|
                    0 <= t2 < n ==> (#[trigger] self.interaction_colors@[t2]) as u128 == color_at(
                        ps,
                        bs,
                        t2,
                    ) && self.interaction_colors@[t2] < 128,
                self.interaction_indices@ == interaction_indices@,
                self.groups@.len() == nc,
                forall|c: int|
                    0 <= c < nc ==> (#[trigger] self.groups@[c]) as int == color_offset(ps, bs, c),
                sort_offsets@.len() == 128,
                forall|c: int|
                    0 <= c < nc ==> (#[trigger] sort_offsets@[c]) as int == color_offset(ps, bs, c)
                        + color_count(ps, bs, c as u128, j as int),
                self.sorted_interactions@.len() == n,
                forall|c: int|
                    0 <= c < nc ==> self.sorted_interactions@.subrange(
                        color_offset(ps, bs, c),
                        color_offset(ps, bs, c) + color_count(ps, bs, c as u128, j as int),
                    ) == of_color(interaction_indices@, ps, bs, c as u128, j as int),
            decreases n - j,
        {
            let idx = self.interaction_indices[j];
            let color = self.interaction_colors[j];
            let ghost cc = color as int;
            assert(color as u128 == color_at(ps, bs, j as int));
            assert(cc < nc);
            proof {
                lemma_color_count_monotone(ps, bs, color as u128, j as int + 1, n as int);
                lemma_color_count_bound(ps, bs, color as u128, j as int);
                lemma_color_offset_bound(ps, bs, cc + 1);
                lemma_color_offset_bound(ps, bs, cc);
                lemma_color_offset_monotone(ps, bs, cc + 1, nc);
                lemma_color_offset_bound(ps, bs, nc);
            }
            let pos = sort_offsets[color];
            assert(pos as int == color_offset(ps, bs, cc) + color_count(
                ps,
                bs,
                color as u128,
                j as int,
            ));
            assert((pos as int) < color_offset(ps, bs, cc + 1));
            assert(pos < n);
            let ghost old_sorted = self.sorted_interactions@;
            self.sorted_interactions[pos] = idx;
            sort_offsets[color] = pos + 1;
            assert forall|c: int| 0 <= c < nc implies self.sorted_interactions@.subrange(
                color_offset(ps, bs, c),
                color_offset(ps, bs, c) + color_count(ps, bs, c as u128, j as int + 1),
            ) == of_color(interaction_indices@, ps, bs, c as u128, j as int + 1) by {
                lemma_color_offset_bound(ps, bs, c);
                lemma_color_offset_bound(ps, bs, c + 1);
                lemma_color_count_bound(ps, bs, c as u128, j as int);
                if c == cc {
                    assert(self.sorted_interactions@.subrange(
                        color_offset(ps, bs, c),
                        color_offset(ps, bs, c) + color_count(ps, bs, c as u128, j as int + 1),
                    ) =~= of_color(interaction_indices@, ps, bs, c as u128, j as int) + seq![idx]);
                } else {
                    if c < cc {
                        lemma_color_offset_monotone(ps, bs, c + 1, cc);
                        lemma_color_count_monotone(ps, bs, c as u128, j as int, n as int);
                    } else {
                        lemma_color_offset_monotone(ps, bs, cc + 1, c);
                        lemma_color_count_monotone(ps, bs, c as u128, j as int, n as int);
                    }
                    assert(self.sorted_interactions@.subrange(
                        color_offset(ps, bs, c),
                        color_offset(ps, bs, c) + color_count(ps, bs, c as u128, j as int + 1),
                    ) =~= old_sorted.subrange(
                        color_offset(ps, bs, c),
                        color_offset(ps, bs, c) + color_count(ps, bs, c as u128, j as int),
                    ));
                }
            }
            j = j + 1;
        }

        self.groups.push(self.sorted_interactions.len());
        proof {
            assert forall|c: int| 0 <= c < nc implies final(self).spec_sorted().subrange(
                #[trigger] color_offset(ps, bs, c),
                color_offset(ps, bs, c + 1),
            ) == of_color(interaction_indices@, ps, bs, c as u128, n as int) by {
                lemma_color_offset_bound(ps, bs, c);
            }
            assert forall|a: int, b: int|
                0 <= a <= b < final(self).spec_groups().len() implies final(self).spec_groups()[a]
                <= final(self).spec_groups()[b] by {
                if b < nc {
                    lemma_color_offset_monotone(ps, bs, a, b);
                } else if a < nc {
                    lemma_color_offset_monotone(ps, bs, a, nc);
                    lemma_color_offset_bound(ps, bs, nc);
                    lemma_offset_covers_all(ps, bs, nc, n as int);
                }
            }
            lemma_sorted_is_concat(final(self).spec_sorted(), interaction_indices@, ps, bs, nc);
            lemma_color_offset_bound(ps, bs, nc);
            lemma_offset_covers_all(ps, bs, nc, n as int);
            assert(color_offset(ps, bs, nc) == n);
            assert(final(self).spec_sorted().subrange(0, n as int) =~= final(self).spec_sorted());
            lemma_color_partition(interaction_indices@, ps, bs, nc, n as int);
            assert(interaction_indices@.subrange(0, n as int) =~= interaction_indices@);
            assert(final(self).spec_sorted().to_multiset() == interaction_indices@.to_multiset());
            assert(final(self).spec_groups().len() == nc + 1);
            assert(final(self).spec_groups()[final(self).spec_groups().len() - 1]
                == final(self).spec_sorted().len());
            assert(final(self).wf());
        }
    }
}

} // verus!

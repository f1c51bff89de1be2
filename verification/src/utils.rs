//! Partitioning of a fingerprint range into contiguous sub-ranges.

use vstd::prelude::*;
use vstd::arithmetic::div_mod::{
    lemma_div_is_ordered, lemma_div_is_ordered_by_denominator, lemma_div_multiples_vanish,
    lemma_div_pos_is_pos, lemma_multiply_divide_lt,
};
use vstd::arithmetic::mul::{lemma_mul_inequality, lemma_mul_nonnegative};

verus! {

/// Lower bound of part `p` when the inclusive range `[start, end]` is cut
/// into `nb_parts` parts: `start + p * (end - start + 1) / nb_parts`.
/// Part `p` holds the values from `part_lo(p)` up to `part_lo(p + 1) - 1`.
pub open spec fn part_lo(start: int, end: int, nb_parts: int, p: int) -> int {
    start + p * (end - start + 1) / nb_parts
}

/// The lower bounds are within the range and increase with `p`, so the
/// parts tile `[start, end]` in order.
pub proof fn lemma_part_lo_bounds(start: int, end: int, nb_parts: int, p: int)
    requires
        start <= end,
        1 <= nb_parts,
        0 <= p <= nb_parts,
    ensures
        start <= part_lo(start, end, nb_parts, p) <= end + 1,
        p < nb_parts ==> part_lo(start, end, nb_parts, p) <= end,
        p == nb_parts ==> part_lo(start, end, nb_parts, p) == end + 1,
{
    let s = end - start + 1;
    lemma_mul_nonnegative(p, s);
    lemma_div_pos_is_pos(p * s, nb_parts);
    lemma_mul_inequality(p, nb_parts, s);
    lemma_div_is_ordered(p * s, nb_parts * s, nb_parts);
    lemma_div_multiples_vanish(s, nb_parts);
    assert(nb_parts * s / nb_parts == s);
    if p < nb_parts {
        assert(p * s < nb_parts * s) by (nonlinear_arith)
            requires
                p < nb_parts,
                s >= 1,
        ;
        lemma_multiply_divide_lt(p * s, nb_parts, s);
        assert(p * s / nb_parts < s);
    }
}

/// Monotonicity of the part bounds in `p`.
pub proof fn lemma_part_lo_mono(start: int, end: int, nb_parts: int, p1: int, p2: int)
    requires
        start <= end,
        1 <= nb_parts,
        0 <= p1 <= p2,
    ensures
        part_lo(start, end, nb_parts, p1) <= part_lo(start, end, nb_parts, p2),
{
    let s = end - start + 1;
    lemma_mul_inequality(p1, p2, s);
    lemma_div_is_ordered(p1 * s, p2 * s, nb_parts);
}

/// Whether value `x` falls in part `p` of the partition of `[start, end]`.
pub open spec fn in_part(start: int, end: int, nb_parts: int, p: int, x: int) -> bool {
    part_lo(start, end, nb_parts, p) <= x < part_lo(start, end, nb_parts, p + 1)
}

proof fn lemma_part_exists_from(start: int, end: int, nb_parts: int, x: int, p: int)
    requires
        start <= end,
        1 <= nb_parts,
        0 <= p < nb_parts,
        part_lo(start, end, nb_parts, p) <= x <= end,
    ensures
        exists|q: int| 0 <= q < nb_parts && in_part(start, end, nb_parts, q, x),
    decreases nb_parts - p,
{
    if x < part_lo(start, end, nb_parts, p + 1) {
        assert(in_part(start, end, nb_parts, p, x));
    } else {
        lemma_part_lo_bounds(start, end, nb_parts, p + 1);
        assert(p + 1 < nb_parts) by {
            if p + 1 == nb_parts {
                assert(part_lo(start, end, nb_parts, p + 1) == end + 1);
            }
        }
        lemma_part_exists_from(start, end, nb_parts, x, p + 1);
    }
}

/// Law: every value of the partitioned range falls in exactly one part, so
/// the parts cover the whole range with no overlap.
pub proof fn lemma_partition_sound(start: int, end: int, nb_parts: int, x: int)
    requires
        start <= end,
        1 <= nb_parts,
        start <= x <= end,
    ensures
        exists|p: int| 0 <= p < nb_parts && in_part(start, end, nb_parts, p, x),
        forall|p1: int, p2: int|
            0 <= p1 < nb_parts && 0 <= p2 < nb_parts && in_part(start, end, nb_parts, p1, x)
                && in_part(start, end, nb_parts, p2, x) ==> p1 == p2,
{
    assert(part_lo(start, end, nb_parts, 0) == start) by {
        assert(0 * (end - start + 1) == 0) by (nonlinear_arith);
    }
    lemma_part_exists_from(start, end, nb_parts, x, 0);
    assert forall|p1: int, p2: int|
        0 <= p1 < nb_parts && 0 <= p2 < nb_parts && in_part(start, end, nb_parts, p1, x)
            && in_part(start, end, nb_parts, p2, x) implies p1 == p2 by {
        if p1 < p2 {
            lemma_part_lo_mono(start, end, nb_parts, p1 + 1, p2);
        }
        if p2 < p1 {
            lemma_part_lo_mono(start, end, nb_parts, p2 + 1, p1);
        }
    }
}

/// Exec computation of `part_lo`, in wide arithmetic.
pub(crate) fn part_lo_exec(start: i64, end: i64, nb_parts: usize, p: usize) -> (r: i128)
    requires
        start <= end,
        1 <= nb_parts <= 0x7fff_ffff,
        p <= nb_parts,
    ensures
        r == part_lo(start as int, end as int, nb_parts as int, p as int),
        start <= r <= end as int + 1,
{
    let span: i128 = end as i128 - start as i128 + 1;
    proof {
        lemma_part_lo_bounds(start as int, end as int, nb_parts as int, p as int);
        lemma_mul_nonnegative(p as int, span as int);
        vstd::arithmetic::mul::lemma_mul_upper_bound(
            p as int,
            0x7fff_ffff,
            span as int,
            0x2_0000_0000_0000_0000,
        );
        lemma_div_pos_is_pos((p as int) * (span as int), nb_parts as int);
        lemma_div_is_ordered_by_denominator((p as int) * (span as int), 1, nb_parts as int);
    }
    let prod: i128 = (p as i128) * span;
    let r: i128 = start as i128 + prod / (nb_parts as i128);
    r
}

/// Cut the inclusive range `[start, end]` into `nb_parts` contiguous parts,
/// returned as inclusive `(low, high)` bounds by increasing value. A part
/// may be empty (`high < low`) when the range has fewer values than parts.
pub fn partition(start: i64, end: i64, nb_parts: usize) -> (r: Vec<(i64, i64)>)
    requires
        i64::MIN < start <= end,
        1 <= nb_parts <= 0x7fff_ffff,
    ensures
        r@.len() == nb_parts,
        forall|p: int|
            0 <= p < nb_parts ==> (#[trigger] r@[p]).0 == part_lo(
                start as int,
                end as int,
                nb_parts as int,
                p,
            ) && r@[p].1 == part_lo(start as int, end as int, nb_parts as int, p + 1) - 1,
{
    let mut r: Vec<(i64, i64)> = Vec::new();
    for p in 0..nb_parts
        invariant
            i64::MIN < start <= end,
            1 <= nb_parts <= 0x7fff_ffff,
            r@.len() == p,
            forall|q: int|
                0 <= q < p ==> (#[trigger] r@[q]).0 == part_lo(
                    start as int,
                    end as int,
                    nb_parts as int,
                    q,
                ) && r@[q].1 == part_lo(start as int, end as int, nb_parts as int, q + 1) - 1,
    {
        let lo = part_lo_exec(start, end, nb_parts, p);
        let hi = part_lo_exec(start, end, nb_parts, p + 1) - 1;
        proof {
            lemma_part_lo_bounds(start as int, end as int, nb_parts as int, p as int);
            lemma_part_lo_bounds(start as int, end as int, nb_parts as int, p + 1);
        }
        r.push((lo as i64, hi as i64));
    }
    r
}

} // verus!

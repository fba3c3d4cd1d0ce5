//! The bit-width table: how many address bits size the storage that holds
//! every position down to a given depth of a stride.

use vstd::prelude::*;
use vstd::arithmetic::power2::{
    lemma2_to64, lemma_pow2_pos, lemma_pow2_strictly_increases, lemma_pow2_unfold, pow2,
};
use vstd::layout::unsigned_int_max_values;

verus! {

/// Deepest depth whose position count still fits in 64 bits.
pub const MAX_COUNTED_DEPTH: u8 = 62;

/// Number of positions at the depths 1 to `depth` of a stride together.
///
/// A stride is a binary subtree: it has 2 positions at depth 1, 4 at depth 2,
/// and twice as many with every further bit. Depth 0, the start of the
/// stride, adds none.
pub open spec fn cumulative_positions(depth: nat) -> nat
    decreases depth,
{
    if depth == 0 {
        0
    } else {
        cumulative_positions((depth - 1) as nat) + pow2(depth)
    }
}

/// `bits` is the least number of address bits that tell `count` positions
/// apart: `2^bits` covers `count`, and `2^(bits - 1)` does not.
pub open spec fn is_least_bits(count: nat, bits: nat) -> bool {
    &&& count <= pow2(bits)
    &&& bits > 0 ==> pow2((bits - 1) as nat) < count
}

/// The table entry for `depth` in closed form: 0 bits at the start of a
/// stride, 1 bit at depth 1, and `depth + 1` bits from depth 2 on.
pub open spec fn depth_bits(depth: nat) -> nat {
    if depth <= 1 {
        depth
    } else {
        depth + 1
    }
}

/// `value` is 2 raised to some exponent.
pub open spec fn is_power_of_two(value: nat) -> bool {
    exists|exponent: nat| #[trigger] pow2(exponent) == value
}

/// Powers of two do not decrease with the exponent.
pub proof fn lemma_pow2_ordered(low: nat, high: nat)
    requires
        low <= high,
    ensures
        pow2(low) <= pow2(high),
{
    if low < high {
        lemma_pow2_strictly_increases(low, high);
    }
}

/// The positions down to `depth` are two short of the next power of two.
pub proof fn lemma_cumulative_positions(depth: nat)
    ensures
        cumulative_positions(depth) + 2 == pow2(depth + 1),
    decreases depth,
{
    lemma_pow2_unfold(depth + 1);
    if depth == 0 {
        lemma2_to64();
    } else {
        lemma_cumulative_positions((depth - 1) as nat);
    }
}

/// A count has one least number of bits.
pub proof fn lemma_least_bits_unique(count: nat, first: nat, second: nat)
    requires
        is_least_bits(count, first),
        is_least_bits(count, second),
    ensures
        first == second,
{
    if first < second {
        lemma_pow2_ordered(first, (second - 1) as nat);
    } else if second < first {
        lemma_pow2_ordered(second, (first - 1) as nat);
    }
}

/// The closed form is the least number of bits for the positions down to
/// `depth`.
pub proof fn lemma_depth_bits(depth: nat)
    ensures
        is_least_bits(cumulative_positions(depth), depth_bits(depth)),
{
    lemma_cumulative_positions(depth);
    lemma2_to64();
    if depth >= 2 {
        lemma_pow2_ordered(2, depth);
        lemma_pow2_unfold(depth + 1);
    }
}

/// Counts the positions at the depths 1 to `depth` of a stride.
pub fn count_positions(depth: u8) -> (count: u64)
    requires
        depth <= MAX_COUNTED_DEPTH,
    ensures
        count == cumulative_positions(depth as nat),
{
    let mut count: u64 = 0;
    let mut at_depth: u64 = 1;
    let mut reached: u8 = 0;
    proof {
        lemma2_to64();
    }
    while reached < depth
        invariant
            reached <= depth <= MAX_COUNTED_DEPTH,
            at_depth == pow2(reached as nat),
            count == cumulative_positions(reached as nat),
        decreases depth - reached,
    {
        proof {
            lemma_cumulative_positions(reached as nat);
            lemma_cumulative_positions((reached + 1) as nat);
            lemma_pow2_unfold((reached + 1) as nat);
            lemma_pow2_unfold((reached + 2) as nat);
            lemma_pow2_ordered((reached + 2) as nat, 64);
            unsigned_int_max_values();
        }
        at_depth = at_depth * 2;
        reached = reached + 1;
        count = count + at_depth;
    }
    count
}

/// Finds the least number of bits whose values cover `count` positions: the
/// base-2 logarithm of `count`, rounded up.
pub fn bits_for_count(count: u64) -> (bits: u8)
    ensures
        is_least_bits(count as nat, bits as nat),
{
    let mut bits: u8 = 0;
    let mut covered: u64 = 1;
    proof {
        lemma2_to64();
    }
    while covered < count
        invariant
            bits < 64,
            covered == pow2(bits as nat),
            bits > 0 ==> pow2((bits - 1) as nat) < count,
        decreases 64 - bits,
    {
        proof {
            lemma_pow2_unfold((bits + 1) as nat);
            unsigned_int_max_values();
        }
        if covered > u64::MAX / 2 {
            proof {
                if bits < 63 {
                    lemma_pow2_ordered((bits + 1) as nat, 63);
                    lemma_pow2_unfold(64);
                }
            }
            return bits + 1;
        }
        proof {
            if bits >= 63 {
                lemma_pow2_ordered(63, bits as nat);
                lemma_pow2_unfold(64);
            }
        }
        covered = covered * 2;
        bits = bits + 1;
    }
    bits
}

/// Looks up the bit-width table: the least number of bits that address every
/// position at the depths 1 to `depth` of a stride.
pub fn bits_at_depth(depth: u8) -> (bits: u8)
    requires
        depth <= MAX_COUNTED_DEPTH,
    ensures
        is_least_bits(cumulative_positions(depth as nat), bits as nat),
        bits == depth_bits(depth as nat),
{
    let bits = bits_for_count(count_positions(depth));
    proof {
        lemma_depth_bits(depth as nat);
        lemma_least_bits_unique(
            cumulative_positions(depth as nat),
            bits as nat,
            depth_bits(depth as nat),
        );
    }
    bits
}

/// The capacity of a bucket addressed by `bits` bits: `2^bits`.
pub fn capacity_for_bits(bits: u8) -> (capacity: usize)
    requires
        bits < usize::BITS,
    ensures
        capacity == pow2(bits as nat),
        capacity >= 1,
        is_power_of_two(capacity as nat),
{
    let mut capacity: usize = 1;
    let mut doubled: u8 = 0;
    proof {
        lemma2_to64();
    }
    while doubled < bits
        invariant
            doubled <= bits < usize::BITS,
            capacity == pow2(doubled as nat),
        decreases bits - doubled,
    {
        proof {
            lemma_pow2_unfold((doubled + 1) as nat);
            lemma_pow2_ordered((doubled + 1) as nat, (usize::BITS - 1) as nat);
            lemma_pow2_unfold(usize::BITS as nat);
            unsigned_int_max_values();
        }
        capacity = capacity * 2;
        doubled = doubled + 1;
    }
    proof {
        lemma_pow2_pos(bits as nat);
    }
    capacity
}

} // verus!

//! Stride sequences: which are valid, and how a short one is completed.

use vstd::prelude::*;
use crate::family::{AddressFamily, LayoutError};

verus! {

/// Narrowest stride a level may have, in address bits.
pub const MIN_STRIDE_WIDTH: u8 = 3;

/// Widest stride a level may have, in address bits.
pub const MAX_STRIDE_WIDTH: u8 = 5;

/// A stride consumes 3, 4 or 5 address bits.
pub open spec fn is_stride_width(width: u8) -> bool {
    MIN_STRIDE_WIDTH <= width <= MAX_STRIDE_WIDTH
}

/// Every element of `strides` is a stride width.
pub open spec fn all_stride_widths(strides: Seq<u8>) -> bool {
    forall|i: int| 0 <= i < strides.len() ==> is_stride_width(#[trigger] strides[i])
}

/// Sum of the widths in `strides`.
pub open spec fn stride_sum(strides: Seq<u8>) -> int
    decreases strides.len(),
{
    if strides.len() == 0 {
        0
    } else {
        stride_sum(strides.drop_last()) + strides.last()
    }
}

/// The first `count` elements of `strides` repeated from its start forever.
pub open spec fn cyclic_repeat(strides: Seq<u8>, count: nat) -> Seq<u8> {
    Seq::new(count, |i: int| strides[i % (strides.len() as int)])
}

/// `effective` is `given`, followed by as many further elements of its cyclic
/// repetition as it takes to sum to `bit_width` exactly. Nothing of `given`
/// is cut off.
pub open spec fn is_completion(given: Seq<u8>, bit_width: int, effective: Seq<u8>) -> bool {
    &&& given.len() > 0
    &&& effective.len() >= given.len()
    &&& effective == cyclic_repeat(given, effective.len())
    &&& stride_sum(effective) == bit_width
}

/// Some cyclic repetition of `given` that keeps all of it sums to `bit_width`.
pub open spec fn completable(given: Seq<u8>, bit_width: int) -> bool {
    exists|count: nat| #[trigger]
        is_completion(given, bit_width, cyclic_repeat(given, count))
}

/// Appending one width adds it to the sum.
pub proof fn lemma_stride_sum_push(strides: Seq<u8>, width: u8)
    ensures
        stride_sum(strides.push(width)) == stride_sum(strides) + width,
{
    assert(strides.push(width).drop_last() == strides);
}

/// One more element of the repetition is the next element in cyclic order.
pub proof fn lemma_cyclic_repeat_step(strides: Seq<u8>, count: nat)
    requires
        strides.len() > 0,
    ensures
        cyclic_repeat(strides, count + 1) == cyclic_repeat(strides, count).push(
            strides[(count as int) % (strides.len() as int)],
        ),
        stride_sum(cyclic_repeat(strides, count + 1)) == stride_sum(cyclic_repeat(strides, count))
            + strides[(count as int) % (strides.len() as int)],
{
    let next = strides[(count as int) % (strides.len() as int)];
    assert(cyclic_repeat(strides, count + 1) =~= cyclic_repeat(strides, count).push(next));
    lemma_stride_sum_push(cyclic_repeat(strides, count), next);
}

/// The sum of a repetition grows strictly with its length, and by at least
/// the narrowest stride per element.
pub proof fn lemma_cyclic_sum_grows(strides: Seq<u8>, shorter: nat, longer: nat)
    requires
        strides.len() > 0,
        all_stride_widths(strides),
        shorter <= longer,
    ensures
        stride_sum(cyclic_repeat(strides, shorter)) + MIN_STRIDE_WIDTH * (longer - shorter)
            <= stride_sum(cyclic_repeat(strides, longer)),
    decreases longer - shorter,
{
    if shorter < longer {
        let before = (longer - 1) as nat;
        lemma_cyclic_sum_grows(strides, shorter, before);
        lemma_cyclic_repeat_step(strides, before);
        let at = (before as int) % (strides.len() as int);
        assert(0 <= at < strides.len());
        assert(is_stride_width(strides[at]));
    }
}

/// A sequence of stride widths sums to at least the narrowest width times
/// its length, and to at most the widest width times its length.
pub proof fn lemma_stride_sum_bounds(strides: Seq<u8>)
    requires
        all_stride_widths(strides),
    ensures
        MIN_STRIDE_WIDTH * strides.len() <= stride_sum(strides) <= MAX_STRIDE_WIDTH
            * strides.len(),
    decreases strides.len(),
{
    if strides.len() > 0 {
        lemma_stride_sum_bounds(strides.drop_last());
        assert(is_stride_width(strides[strides.len() - 1]));
    }
}

/// A stride sequence has at most one completion for a bit width.
pub proof fn lemma_completion_unique(
    given: Seq<u8>,
    bit_width: int,
    first: Seq<u8>,
    second: Seq<u8>,
)
    requires
        all_stride_widths(given),
        is_completion(given, bit_width, first),
        is_completion(given, bit_width, second),
    ensures
        first == second,
{
    if first.len() < second.len() {
        lemma_cyclic_sum_grows(given, first.len(), second.len());
    } else if second.len() < first.len() {
        lemma_cyclic_sum_grows(given, second.len(), first.len());
    }
}

/// Validates a stride sequence for an address family and completes it.
///
/// Every width must be 3, 4 or 5. A sequence that sums to less than the
/// family's bit width is continued with its own elements, taken again from
/// its start, until the sum reaches the bit width. The result must then sum
/// to the bit width exactly: a sequence that overshoots it, by itself or
/// after being continued, is rejected, and so is the empty sequence.
pub fn validate_strides(family: AddressFamily, strides: &[u8]) -> (result: Result<
    Vec<u8>,
    LayoutError,
>)
    ensures
        match result {
            Ok(effective) => all_stride_widths(strides@) && is_completion(
                strides@,
                family.bits(),
                effective@,
            ),
            Err(LayoutError::InvalidStrideWidth) => !all_stride_widths(strides@),
            Err(LayoutError::StrideSumMismatch) => all_stride_widths(strides@) && !completable(
                strides@,
                family.bits(),
            ),
            Err(LayoutError::LengthOutOfRange) => false,
        },
{
    let bit_width = family.bit_width();
    let given = strides.len();
    let mut checked: usize = 0;
    while checked < given
        invariant
            checked <= given,
            given == strides@.len(),
            forall|i: int| 0 <= i < checked ==> is_stride_width(#[trigger] strides@[i]),
        decreases given - checked,
    {
        let width = strides[checked];
        if width < MIN_STRIDE_WIDTH || width > MAX_STRIDE_WIDTH {
            return Err(LayoutError::InvalidStrideWidth);
        }
        checked = checked + 1;
    }
    if given == 0 {
        return Err(LayoutError::StrideSumMismatch);
    }
    let mut effective: Vec<u8> = Vec::new();
    let mut sum: u8 = 0;
    let mut taken: usize = 0;
    assert(effective@ == cyclic_repeat(strides@, 0));
    while taken < given || sum < bit_width
        invariant
            given == strides@.len(),
            given > 0,
            all_stride_widths(strides@),
            bit_width == family.bits(),
            effective@ == cyclic_repeat(strides@, taken as nat),
            sum == stride_sum(effective@),
            sum <= bit_width,
            MIN_STRIDE_WIDTH * taken <= sum,
        decreases (if taken < given { given - taken } else { 0 }) + (bit_width - sum),
    {
        let width = strides[taken % given];
        proof {
            lemma_cyclic_repeat_step(strides@, taken as nat);
        }
        if width > bit_width - sum {
            proof {
                assert forall|count: nat| !#[trigger] is_completion(
                    strides@,
                    family.bits(),
                    cyclic_repeat(strides@, count),
                ) by {
                    if count > taken {
                        lemma_cyclic_sum_grows(strides@, (taken + 1) as nat, count);
                    } else if count >= given {
                        lemma_cyclic_sum_grows(strides@, count, taken as nat);
                    }
                }
            }
            return Err(LayoutError::StrideSumMismatch);
        }
        effective.push(width);
        sum = sum + width;
        taken = taken + 1;
    }
    Ok(effective)
}

} // verus!

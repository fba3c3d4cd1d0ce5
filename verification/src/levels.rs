//! Levels: the depth boundaries that a stride sequence cuts the prefix-length
//! space into.

use vstd::prelude::*;
use crate::strides::stride_sum;

verus! {

/// One depth boundary of the trie.
///
/// The start offset doubles as the level's identifier: no two levels of a
/// layout start at the same bit.
#[derive(Clone, Copy, Debug, PartialEq, Eq, Structural)]
pub struct Level {
    /// Number of address bits consumed before this level.
    pub start_bit: u8,
    /// Number of address bits this level consumes.
    pub stride_width: u8,
}

/// Bit offset at which level `index` starts: the sum of the strides before it.
pub open spec fn level_start(strides: Seq<u8>, index: int) -> int {
    stride_sum(strides.take(index))
}

/// The levels of a stride sequence, in order of depth.
pub open spec fn levels_of(strides: Seq<u8>) -> Seq<Level> {
    Seq::new(
        strides.len(),
        |i: int| Level { start_bit: level_start(strides, i) as u8, stride_width: strides[i] },
    )
}

/// `levels` cut `[0, bit_width]` into adjacent spans: the first starts at 0,
/// each next one starts where the one before it ends, none is empty, and the
/// last ends at `bit_width`.
pub open spec fn is_partition(levels: Seq<Level>, bit_width: int) -> bool {
    &&& levels.len() > 0
    &&& levels[0].start_bit == 0
    &&& forall|i: int| 0 <= i < levels.len() ==> (#[trigger] levels[i]).stride_width > 0
    &&& forall|i: int|
        0 <= i && i + 1 < levels.len() ==> (#[trigger] levels[i + 1]).start_bit == levels[i].start_bit
            + levels[i].stride_width
    &&& levels.last().start_bit + levels.last().stride_width == bit_width
}

/// A level starts where the level before it ends.
pub proof fn lemma_level_start_step(strides: Seq<u8>, index: int)
    requires
        0 <= index < strides.len(),
    ensures
        level_start(strides, index + 1) == level_start(strides, index) + strides[index],
{
    assert(strides.take(index + 1).drop_last() == strides.take(index));
}

/// Level starts never decrease with depth, and none exceeds the total.
pub proof fn lemma_level_start_ordered(strides: Seq<u8>, shallow: int, deep: int)
    requires
        0 <= shallow <= deep <= strides.len(),
    ensures
        0 <= level_start(strides, shallow) <= level_start(strides, deep) <= stride_sum(strides),
    decreases strides.len() - shallow, strides.len() - deep,
{
    if shallow < deep {
        lemma_level_start_ordered(strides, shallow + 1, deep);
        lemma_level_start_step(strides, shallow);
        lemma_stride_sum_nonnegative(strides.take(shallow));
    } else if deep < strides.len() {
        lemma_level_start_ordered(strides, deep, strides.len() as int);
    } else {
        assert(strides.take(deep) == strides);
        lemma_stride_sum_nonnegative(strides);
    }
}

/// A sum of widths is not negative.
pub proof fn lemma_stride_sum_nonnegative(strides: Seq<u8>)
    ensures
        0 <= stride_sum(strides),
    decreases strides.len(),
{
    if strides.len() > 0 {
        lemma_stride_sum_nonnegative(strides.drop_last());
    }
}

/// The levels of a non-empty sequence of positive strides that sums to
/// `bit_width` cut `[0, bit_width]` into adjacent spans.
pub proof fn lemma_levels_partition(strides: Seq<u8>, bit_width: int)
    requires
        strides.len() > 0,
        forall|i: int| 0 <= i < strides.len() ==> #[trigger] strides[i] > 0,
        stride_sum(strides) == bit_width,
        bit_width <= u8::MAX,
    ensures
        is_partition(levels_of(strides), bit_width),
{
    let levels = levels_of(strides);
    assert(strides.take(0) == Seq::<u8>::empty());
    assert forall|i: int| 0 <= i && i + 1 < levels.len() implies (#[trigger] levels[i
        + 1]).start_bit == levels[i].start_bit + levels[i].stride_width by {
        lemma_level_start_step(strides, i);
        lemma_level_start_ordered(strides, i, i + 1);
        lemma_level_start_ordered(strides, i + 1, i + 1);
    }
    let last = strides.len() - 1;
    lemma_level_start_step(strides, last);
    lemma_level_start_ordered(strides, last, last + 1);
    assert(strides.take(last + 1) == strides);
}

/// Derives the levels of a stride sequence: level `i` starts at the sum of
/// the strides before it and has the width `strides[i]`.
pub fn build_levels(strides: &[u8]) -> (levels: Vec<Level>)
    requires
        stride_sum(strides@) <= u8::MAX,
    ensures
        levels@ == levels_of(strides@),
{
    let count = strides.len();
    let mut levels: Vec<Level> = Vec::new();
    let mut start: u8 = 0;
    let mut index: usize = 0;
    assert(strides@.take(0) == Seq::<u8>::empty());
    while index < count
        invariant
            count == strides@.len(),
            index <= count,
            stride_sum(strides@) <= u8::MAX,
            start == level_start(strides@, index as int),
            levels@ == levels_of(strides@).take(index as int),
        decreases count - index,
    {
        let width = strides[index];
        proof {
            lemma_level_start_step(strides@, index as int);
            lemma_level_start_ordered(strides@, index as int + 1, count as int);
        }
        levels.push(Level { start_bit: start, stride_width: width });
        assert(levels@ == levels_of(strides@).take(index as int + 1));
        start = start + width;
        index = index + 1;
    }
    assert(levels_of(strides@).take(count as int) == levels_of(strides@));
    levels
}

} // verus!

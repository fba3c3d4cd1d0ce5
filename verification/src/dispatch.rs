//! The length dispatch table: for every prefix length, the level that owns
//! it, found by one indexed read.

use vstd::prelude::*;
use crate::family::AddressFamily;
use crate::levels::{is_partition, Level};

verus! {

/// The owning level of one prefix length.
#[derive(Clone, Copy, Debug, PartialEq, Eq, Structural)]
pub struct LengthDispatchEntry {
    /// Position of the owning level among the levels, counted from 0.
    pub level_index: usize,
    /// The owning level: its start and its stride width.
    pub level: Level,
}

/// Level `index` owns `length`: it starts at or before `length`, and no
/// level that starts at or before `length` starts later.
pub open spec fn owns(levels: Seq<Level>, index: int, length: int) -> bool {
    &&& 0 <= index < levels.len()
    &&& levels[index].start_bit <= length
    &&& forall|other: int|
        0 <= other < levels.len() && (#[trigger] levels[other]).start_bit <= length
            ==> levels[other].start_bit <= levels[index].start_bit
}

/// The index of the level that owns `length`.
pub open spec fn owner_of(levels: Seq<Level>, length: int) -> int {
    choose|index: int| owns(levels, index, length)
}

/// The dispatch entry of `length`.
pub open spec fn entry_for(levels: Seq<Level>, length: int) -> LengthDispatchEntry {
    LengthDispatchEntry {
        level_index: owner_of(levels, length) as usize,
        level: levels[owner_of(levels, length)],
    }
}

/// The dispatch table of `levels`: one entry for each length from 0 to
/// `bit_width`, both included.
pub open spec fn dispatch_table_of(levels: Seq<Level>, bit_width: int) -> Seq<LengthDispatchEntry> {
    Seq::new((bit_width + 1) as nat, |length: int| entry_for(levels, length))
}

/// In a partition a deeper level starts at or after the end of a shallower
/// one.
pub proof fn lemma_starts_increase(levels: Seq<Level>, bit_width: int, shallow: int, deep: int)
    requires
        is_partition(levels, bit_width),
        0 <= shallow < deep < levels.len(),
    ensures
        levels[shallow].start_bit + levels[shallow].stride_width <= levels[deep].start_bit,
        levels[shallow].start_bit < levels[deep].start_bit,
    decreases deep - shallow,
{
    assert(levels[deep - 1 + 1].start_bit == levels[deep - 1].start_bit + levels[deep
        - 1].stride_width);
    assert(levels[deep - 1].stride_width > 0);
    assert(levels[shallow].stride_width > 0);
    if shallow + 1 < deep {
        lemma_starts_increase(levels, bit_width, shallow, deep - 1);
    }
}

/// In a partition at most one level owns a length.
pub proof fn lemma_owner_unique(
    levels: Seq<Level>,
    bit_width: int,
    first: int,
    second: int,
    length: int,
)
    requires
        is_partition(levels, bit_width),
        owns(levels, first, length),
        owns(levels, second, length),
    ensures
        first == second,
        owner_of(levels, length) == first,
{
    if first < second {
        lemma_starts_increase(levels, bit_width, first, second);
    } else if second < first {
        lemma_starts_increase(levels, bit_width, second, first);
    }
    let chosen = owner_of(levels, length);
    if chosen < first {
        lemma_starts_increase(levels, bit_width, chosen, first);
    } else if first < chosen {
        lemma_starts_increase(levels, bit_width, first, chosen);
    }
}

/// The first level of a partition owns length 0.
pub proof fn lemma_owner_of_zero(levels: Seq<Level>, bit_width: int)
    requires
        is_partition(levels, bit_width),
    ensures
        owns(levels, 0, 0),
{
}

/// From the owner of a length to the owner of the next: it is the next
/// level if that one starts there, and the same level if not.
pub proof fn lemma_owner_step(levels: Seq<Level>, bit_width: int, index: int, length: int)
    requires
        is_partition(levels, bit_width),
        owns(levels, index, length),
    ensures
        index + 1 < levels.len() && levels[index + 1].start_bit <= length + 1 ==> owns(
            levels,
            index + 1,
            length + 1,
        ),
        !(index + 1 < levels.len() && levels[index + 1].start_bit <= length + 1) ==> owns(
            levels,
            index,
            length + 1,
        ),
{
    if index + 1 < levels.len() {
        lemma_starts_increase(levels, bit_width, index, index + 1);
    }
    assert forall|other: int|
        0 <= other < levels.len() && (#[trigger] levels[other]).start_bit == length
            + 1 implies index + 1 < levels.len() && levels[index + 1].start_bit <= length + 1 by {
        if other < index {
            lemma_starts_increase(levels, bit_width, other, index);
        } else if other > index + 1 {
            lemma_starts_increase(levels, bit_width, index + 1, other);
        }
    }
}

/// Every length from 0 to the bit width has an owner, which starts at or
/// before it; and the length lies before the owner's end, or is the bit
/// width itself, which the last level owns.
pub proof fn lemma_owner_exists(levels: Seq<Level>, bit_width: int, length: int)
    requires
        is_partition(levels, bit_width),
        0 <= length <= bit_width,
    ensures
        owns(levels, owner_of(levels, length), length),
        levels[owner_of(levels, length)].start_bit <= length <= levels[owner_of(
            levels,
            length,
        )].start_bit + levels[owner_of(levels, length)].stride_width,
        length == levels[owner_of(levels, length)].start_bit + levels[owner_of(
            levels,
            length,
        )].stride_width ==> length == bit_width && owner_of(levels, length) == levels.len() - 1,
    decreases length,
{
    if length == 0 {
        lemma_owner_of_zero(levels, bit_width);
        assert(levels[0].stride_width > 0);
    } else {
        lemma_owner_exists(levels, bit_width, length - 1);
        let before = owner_of(levels, length - 1);
        lemma_owner_step(levels, bit_width, before, length - 1);
        let next_starts = before + 1 < levels.len() && levels[before + 1].start_bit <= length;
        let index = if next_starts {
            before + 1
        } else {
            before
        };
        lemma_owner_unique(levels, bit_width, index, index, length);
        assert(levels[index].stride_width > 0);
        if index + 1 < levels.len() {
            assert(levels[index + 1].start_bit == levels[index].start_bit
                + levels[index].stride_width);
            lemma_starts_increase(levels, bit_width, index, index + 1);
        }
    }
}

/// Builds the dispatch table of `levels` for an address family.
pub fn build_dispatch_table(levels: &[Level], family: AddressFamily) -> (table: Vec<
    LengthDispatchEntry,
>)
    requires
        is_partition(levels@, family.bits()),
    ensures
        table@ == dispatch_table_of(levels@, family.bits()),
{
    let bit_width = family.bit_width();
    let mut table: Vec<LengthDispatchEntry> = Vec::new();
    let mut index: usize = 0;
    let mut length: u8 = 0;
    proof {
        lemma_owner_of_zero(levels@, family.bits());
    }
    while length <= bit_width
        invariant
            is_partition(levels@, family.bits()),
            bit_width == family.bits(),
            length <= bit_width + 1,
            owns(levels@, index as int, length as int),
            table@ == dispatch_table_of(levels@, family.bits()).take(length as int),
        decreases bit_width + 1 - length,
    {
        proof {
            lemma_owner_unique(levels@, family.bits(), index as int, index as int, length as int);
            lemma_owner_step(levels@, family.bits(), index as int, length as int);
        }
        table.push(LengthDispatchEntry { level_index: index, level: levels[index] });
        assert(table@ == dispatch_table_of(levels@, family.bits()).take(length as int + 1));
        if index + 1 < levels.len() && levels[index + 1].start_bit <= length + 1 {
            index = index + 1;
        }
        length = length + 1;
    }
    assert(dispatch_table_of(levels@, family.bits()).take(length as int) == dispatch_table_of(
        levels@,
        family.bits(),
    ));
    table
}

} // verus!

//! The assembled layout: the levels, the dispatch table and one pre-sized
//! bucket for each level and for each prefix length.

use vstd::prelude::*;
use vstd::arithmetic::power2::{lemma_pow2_pos, pow2};
use crate::bits::{
    bits_at_depth, capacity_for_bits, cumulative_positions, depth_bits, is_least_bits,
    is_power_of_two,
};
use crate::dispatch::{
    build_dispatch_table, dispatch_table_of, lemma_owner_exists, lemma_owner_unique, owner_of,
    owns, LengthDispatchEntry,
};
use crate::family::{AddressFamily, LayoutError};
use crate::levels::{build_levels, is_partition, lemma_levels_partition, levels_of, Level};
use crate::strides::{
    all_stride_widths, completable, cyclic_repeat, is_completion, is_stride_width,
    lemma_completion_unique, lemma_stride_sum_bounds, stride_sum, validate_strides,
};

verus! {

/// Most levels a layout can have: 42 strides of the narrowest width fit into
/// 128 bits, 43 do not.
pub const MAX_LEVELS: usize = 42;

/// What the slots of a bucket hold.
#[derive(Clone, Copy, Debug, PartialEq, Eq, Structural)]
pub enum BucketKind {
    /// Trie nodes of one level.
    Node,
    /// Prefix records of one exact prefix length.
    Prefix,
}

/// The shape of a bucket as a mathematical value.
pub struct BucketModel {
    /// What the bucket holds.
    pub kind: BucketKind,
    /// The level start of a node bucket, the prefix length of a prefix bucket.
    pub key: int,
    /// Number of address bits that index the bucket's slots.
    pub bits: nat,
}

impl BucketModel {
    /// Number of slots: 2 to the power of `bits`.
    pub open spec fn capacity(self) -> nat {
        pow2(self.bits)
    }
}

/// A fixed-capacity store of slots. Its capacity is a power of two, set when
/// the bucket is made and never changed.
#[derive(Clone, Copy, Debug, PartialEq, Eq)]
pub struct Bucket {
    kind: BucketKind,
    key: u8,
    bits: u8,
    capacity: usize,
}

impl View for Bucket {
    type V = BucketModel;

    closed spec fn view(&self) -> BucketModel {
        BucketModel { kind: self.kind, key: self.key as int, bits: self.bits as nat }
    }
}

impl Bucket {
    #[verifier::type_invariant]
    spec fn sized(self) -> bool {
        self.capacity == pow2(self.bits as nat)
    }

    /// Makes the bucket of `kind` for `key` with `2^bits` slots.
    pub fn new(kind: BucketKind, key: u8, bits: u8) -> (bucket: Bucket)
        requires
            bits < usize::BITS,
        ensures
            bucket@ == (BucketModel { kind, key: key as int, bits: bits as nat }),
    {
        Bucket { kind, key, bits, capacity: capacity_for_bits(bits) }
    }

    /// What the bucket holds.
    pub fn kind(&self) -> (kind: BucketKind)
        ensures
            kind == self@.kind,
    {
        self.kind
    }

    /// The level start of a node bucket, the prefix length of a prefix bucket.
    pub fn key(&self) -> (key: u8)
        ensures
            key == self@.key,
    {
        self.key
    }

    /// Number of address bits that index the slots.
    pub fn bits(&self) -> (bits: u8)
        ensures
            bits == self@.bits,
    {
        self.bits
    }

    /// Number of slots: a power of two, and at least 1.
    pub fn capacity(&self) -> (capacity: usize)
        ensures
            capacity == self@.capacity(),
            capacity >= 1,
            is_power_of_two(capacity as nat),
    {
        proof {
            use_type_invariant(self);
            lemma_pow2_pos(self.bits as nat);
        }
        self.capacity
    }
}

/// A layout as a mathematical value: everything else follows from the
/// address family and the effective stride sequence.
pub struct LayoutModel {
    /// The address family.
    pub family: AddressFamily,
    /// The stride sequence after completion.
    pub strides: Seq<u8>,
}

impl LayoutModel {
    /// Number of key bits.
    pub open spec fn bit_width(self) -> int {
        self.family.bits()
    }

    /// The strides are 3, 4 or 5 wide and sum to the bit width exactly.
    pub open spec fn valid(self) -> bool {
        &&& all_stride_widths(self.strides)
        &&& stride_sum(self.strides) == self.bit_width()
    }

    /// The levels, in order of depth.
    pub open spec fn levels(self) -> Seq<Level> {
        levels_of(self.strides)
    }

    /// The dispatch table, indexed by prefix length.
    pub open spec fn dispatch_table(self) -> Seq<LengthDispatchEntry> {
        dispatch_table_of(self.levels(), self.bit_width())
    }

    /// Index of the level that owns `length`.
    pub open spec fn owner(self, length: int) -> int {
        owner_of(self.levels(), length)
    }

    /// The level that owns `length`.
    pub open spec fn owning_level(self, length: int) -> Level {
        self.levels()[self.owner(length)]
    }

    /// The node bucket of level `index`: keyed by the level's start and sized
    /// for depth 0 of its stride. No position lies above depth 1, so the
    /// table gives 0 bits there and the bucket has a single slot.
    pub open spec fn node_bucket(self, index: int) -> BucketModel {
        BucketModel {
            kind: BucketKind::Node,
            key: self.levels()[index].start_bit as int,
            bits: depth_bits(0),
        }
    }

    /// The prefix bucket of `length`: keyed by the length and sized for
    /// depth 0, whatever the levels are; it too has a single slot.
    pub open spec fn prefix_bucket(self, length: int) -> BucketModel {
        BucketModel { kind: BucketKind::Prefix, key: length, bits: depth_bits(0) }
    }

    /// The levels of a valid layout cut `[0, bit_width]` into adjacent
    /// spans, one for each stride, and there are at most 42 of them.
    pub proof fn lemma_levels(self)
        requires
            self.valid(),
        ensures
            is_partition(self.levels(), self.bit_width()),
            0 < self.strides.len() <= MAX_LEVELS,
            self.levels().len() == self.strides.len(),
            forall|index: int|
                0 <= index < self.strides.len() ==> (#[trigger] self.levels()[index]).stride_width
                    == self.strides[index],
    {
        assert forall|i: int| 0 <= i < self.strides.len() implies #[trigger] self.strides[i]
            > 0 by {
            assert(is_stride_width(self.strides[i]));
        }
        lemma_levels_partition(self.strides, self.bit_width());
        lemma_stride_sum_bounds(self.strides);
    }

    /// Every length from 0 to the bit width has exactly one owner. The owner
    /// starts at or before the length, no level that starts at or before the
    /// length starts later, and the next level, if there is one, starts
    /// beyond the length: the levels leave no gap and do not overlap.
    pub proof fn lemma_owning_level(self, length: int)
        requires
            self.valid(),
            0 <= length <= self.bit_width(),
        ensures
            owns(self.levels(), self.owner(length), length),
            forall|index: int| owns(self.levels(), index, length) ==> index == self.owner(length),
            self.owning_level(length).start_bit <= length,
            forall|index: int|
                0 <= index < self.levels().len() && (#[trigger] self.levels()[index]).start_bit
                    <= length ==> self.levels()[index].start_bit <= self.owning_level(
                    length,
                ).start_bit,
            self.owner(length) + 1 < self.levels().len() ==> length < self.levels()[self.owner(
                length,
            ) + 1].start_bit,
            self.owner(length) + 1 == self.levels().len() ==> length <= self.owning_level(
                length,
            ).start_bit + self.owning_level(length).stride_width == self.bit_width(),
    {
        self.lemma_levels();
        lemma_owner_exists(self.levels(), self.bit_width(), length);
        let owner = self.owner(length);
        assert forall|index: int| owns(self.levels(), index, length) implies index == owner by {
            lemma_owner_unique(self.levels(), self.bit_width(), index, owner, length);
        }
        if owner + 1 < self.levels().len() {
            assert(self.levels()[owner + 1].start_bit == self.levels()[owner].start_bit
                + self.levels()[owner].stride_width);
        }
    }
}

/// An address family and a stride sequence determine the layout: two layouts
/// derived from the same family and the same sequence are the same layout,
/// with the same dispatch table and the same bucket capacities.
pub proof fn lemma_layout_determined(
    family: AddressFamily,
    given: Seq<u8>,
    first: LayoutModel,
    second: LayoutModel,
)
    requires
        all_stride_widths(given),
        first.family == family,
        second.family == family,
        is_completion(given, family.bits(), first.strides),
        is_completion(given, family.bits(), second.strides),
    ensures
        first == second,
        first.levels() == second.levels(),
        first.dispatch_table() == second.dispatch_table(),
        forall|index: int|
            first.node_bucket(index).capacity() == second.node_bucket(index).capacity(),
        forall|length: int|
            first.prefix_bucket(length).capacity() == second.prefix_bucket(length).capacity(),
{
    lemma_completion_unique(given, family.bits(), first.strides, second.strides);
}

/// The buckets of a store for one address family, with the tables that route
/// a prefix length to its bucket. Built once; nothing in it changes afterwards.
#[derive(Debug)]
pub struct BucketSet {
    family: AddressFamily,
    strides: Vec<u8>,
    levels: Vec<Level>,
    dispatch: Vec<LengthDispatchEntry>,
    node_buckets: Vec<Bucket>,
    prefix_buckets: Vec<Bucket>,
}

impl View for BucketSet {
    type V = LayoutModel;

    closed spec fn view(&self) -> LayoutModel {
        LayoutModel { family: self.family, strides: self.strides@ }
    }
}

impl BucketSet {
    #[verifier::type_invariant]
    spec fn assembled(self) -> bool {
        &&& self@.valid()
        &&& self.levels@ == self@.levels()
        &&& self.dispatch@ == self@.dispatch_table()
        &&& self.node_buckets@.len() == self.levels@.len()
        &&& forall|index: int|
            0 <= index < self.node_buckets@.len() ==> (#[trigger] self.node_buckets@[index])@
                == self@.node_bucket(index)
        &&& self.prefix_buckets@.len() == self@.bit_width() + 1
        &&& forall|length: int|
            0 <= length < self.prefix_buckets@.len() ==> (#[trigger] self.prefix_buckets@[length])@
                == self@.prefix_bucket(length)
    }

    /// The address family of the layout.
    pub fn family(&self) -> (family: AddressFamily)
        ensures
            family == self@.family,
            self@.valid(),
    {
        proof {
            use_type_invariant(self);
        }
        self.family
    }

    /// Number of key bits of the layout's family.
    pub fn bit_width(&self) -> (width: u8)
        ensures
            width == self@.bit_width(),
            self@.valid(),
    {
        proof {
            use_type_invariant(self);
        }
        self.family.bit_width()
    }

    /// The stride sequence after completion: its widths sum to the bit
    /// width.
    pub fn effective_stride_sizes(&self) -> (strides: &[u8])
        ensures
            strides@ == self@.strides,
            self@.valid(),
    {
        proof {
            use_type_invariant(self);
        }
        self.strides.as_slice()
    }

    /// The levels, in order of depth.
    pub fn levels(&self) -> (levels: &[Level])
        ensures
            levels@ == self@.levels(),
            self@.valid(),
    {
        proof {
            use_type_invariant(self);
        }
        self.levels.as_slice()
    }

    /// The dispatch table: entry `l` names the level that owns length `l`.
    pub fn dispatch_table(&self) -> (table: &[LengthDispatchEntry])
        ensures
            table@ == self@.dispatch_table(),
            table@.len() == self@.bit_width() + 1,
            self@.valid(),
    {
        proof {
            use_type_invariant(self);
        }
        self.dispatch.as_slice()
    }
}

impl BucketSet {
    /// Looks up the dispatch entry of a prefix length: the level with the
    /// greatest start that does not exceed the length.
    pub fn dispatch(&self, length: u8) -> (result: Result<LengthDispatchEntry, LayoutError>)
        ensures
            self@.valid(),
            match result {
                Ok(entry) => {
                    &&& length <= self@.bit_width()
                    &&& entry == self@.dispatch_table()[length as int]
                    &&& entry.level_index == self@.owner(length as int)
                    &&& entry.level == self@.owning_level(length as int)
                    &&& owns(self@.levels(), entry.level_index as int, length as int)
                },
                Err(error) => length > self@.bit_width() && error
                    == LayoutError::LengthOutOfRange,
            },
    {
        proof {
            use_type_invariant(self);
            self@.lemma_levels();
        }
        if length > self.family.bit_width() {
            return Err(LayoutError::LengthOutOfRange);
        }
        proof {
            lemma_owner_exists(self@.levels(), self@.bit_width(), length as int);
        }
        Ok(self.dispatch[length as usize])
    }

    /// The start of the level that owns a prefix length. It does not exceed
    /// the length, and no level that starts at or before the length starts
    /// later.
    pub fn level_start_for_length(&self, length: u8) -> (result: Result<u8, LayoutError>)
        ensures
            self@.valid(),
            match result {
                Ok(start) => {
                    &&& length <= self@.bit_width()
                    &&& start == self@.owning_level(length as int).start_bit
                    &&& owns(self@.levels(), self@.owner(length as int), length as int)
                    &&& start <= length
                    &&& forall|index: int|
                        0 <= index < self@.levels().len() && (
                        #[trigger] self@.levels()[index]).start_bit <= length
                            ==> self@.levels()[index].start_bit <= start
                },
                Err(error) => length > self@.bit_width() && error
                    == LayoutError::LengthOutOfRange,
            },
    {
        match self.dispatch(length) {
            Ok(entry) => Ok(entry.level.start_bit),
            Err(error) => Err(error),
        }
    }

    /// The stride width of the level that owns a prefix length: 3, 4 or 5.
    pub fn stride_for_length(&self, length: u8) -> (result: Result<u8, LayoutError>)
        ensures
            self@.valid(),
            match result {
                Ok(width) => {
                    &&& length <= self@.bit_width()
                    &&& width == self@.owning_level(length as int).stride_width
                    &&& width == self@.strides[self@.owner(length as int)]
                    &&& is_stride_width(width)
                },
                Err(error) => length > self@.bit_width() && error
                    == LayoutError::LengthOutOfRange,
            },
    {
        proof {
            use_type_invariant(self);
            self@.lemma_levels();
        }
        match self.dispatch(length) {
            Ok(entry) => {
                assert(is_stride_width(self@.strides[entry.level_index as int]));
                Ok(entry.level.stride_width)
            },
            Err(error) => Err(error),
        }
    }

    /// Looks up the bit-width table for a prefix length and a depth below
    /// the start of a stride: the least number of bits that address every
    /// position at the depths 1 to `depth`. The depth may not reach below
    /// the stride of the level that owns the length.
    pub fn bits_needed(&self, length: u8, depth: u8) -> (result: Result<u8, LayoutError>)
        requires
            length <= self@.bit_width() ==> depth <= self@.owning_level(
                length as int,
            ).stride_width,
        ensures
            self@.valid(),
            match result {
                Ok(bits) => {
                    &&& length <= self@.bit_width()
                    &&& is_least_bits(cumulative_positions(depth as nat), bits as nat)
                    &&& bits == depth_bits(depth as nat)
                },
                Err(error) => length > self@.bit_width() && error
                    == LayoutError::LengthOutOfRange,
            },
    {
        match self.stride_for_length(length) {
            Ok(_) => Ok(bits_at_depth(depth)),
            Err(error) => Err(error),
        }
    }

    /// The node bucket that a prefix length is routed to: that of the level
    /// which owns the length.
    pub fn get_node_bucket(&self, length: u8) -> (result: Result<&Bucket, LayoutError>)
        ensures
            self@.valid(),
            match result {
                Ok(bucket) => {
                    &&& length <= self@.bit_width()
                    &&& bucket@ == self@.node_bucket(self@.owner(length as int))
                    &&& bucket@.key == self@.owning_level(length as int).start_bit
                    &&& is_power_of_two(bucket@.capacity())
                    &&& bucket@.capacity() >= 1
                },
                Err(error) => length > self@.bit_width() && error
                    == LayoutError::LengthOutOfRange,
            },
    {
        proof {
            use_type_invariant(self);
        }
        match self.dispatch(length) {
            Ok(entry) => {
                let bucket = &self.node_buckets[entry.level_index];
                proof {
                    lemma_pow2_pos(bucket@.bits);
                }
                Ok(bucket)
            },
            Err(error) => Err(error),
        }
    }

    /// The prefix bucket of an exact prefix length.
    pub fn get_prefix_bucket(&self, length: u8) -> (result: Result<&Bucket, LayoutError>)
        ensures
            self@.valid(),
            match result {
                Ok(bucket) => {
                    &&& length <= self@.bit_width()
                    &&& bucket@ == self@.prefix_bucket(length as int)
                    &&& is_power_of_two(bucket@.capacity())
                    &&& bucket@.capacity() >= 1
                },
                Err(error) => length > self@.bit_width() && error
                    == LayoutError::LengthOutOfRange,
            },
    {
        proof {
            use_type_invariant(self);
        }
        if length > self.family.bit_width() {
            return Err(LayoutError::LengthOutOfRange);
        }
        let bucket = &self.prefix_buckets[length as usize];
        proof {
            lemma_pow2_pos(bucket@.bits);
        }
        Ok(bucket)
    }

    /// Number of slots of the node bucket that `level_start` is routed to;
    /// for the start of a level that is the level's own bucket. A power of
    /// two, and at least 1.
    pub fn node_bucket_capacity(&self, level_start: u8) -> (result: Result<usize, LayoutError>)
        ensures
            self@.valid(),
            match result {
                Ok(capacity) => {
                    &&& level_start <= self@.bit_width()
                    &&& capacity == self@.node_bucket(
                        self@.owner(level_start as int),
                    ).capacity()
                    &&& is_power_of_two(capacity as nat)
                    &&& capacity >= 1
                },
                Err(error) => level_start > self@.bit_width() && error
                    == LayoutError::LengthOutOfRange,
            },
    {
        match self.get_node_bucket(level_start) {
            Ok(bucket) => Ok(bucket.capacity()),
            Err(error) => Err(error),
        }
    }

    /// Number of slots of the prefix bucket of an exact prefix length. A
    /// power of two, and at least 1.
    pub fn prefix_bucket_capacity(&self, length: u8) -> (result: Result<usize, LayoutError>)
        ensures
            self@.valid(),
            match result {
                Ok(capacity) => {
                    &&& length <= self@.bit_width()
                    &&& capacity == self@.prefix_bucket(length as int).capacity()
                    &&& is_power_of_two(capacity as nat)
                    &&& capacity >= 1
                },
                Err(error) => length > self@.bit_width() && error
                    == LayoutError::LengthOutOfRange,
            },
    {
        match self.get_prefix_bucket(length) {
            Ok(bucket) => Ok(bucket.capacity()),
            Err(error) => Err(error),
        }
    }
}

/// The test for a level of stride width `width`.
pub open spec fn has_width(width: u8) -> spec_fn(Level) -> bool {
    |level: Level| level.stride_width == width
}

/// `strides` followed by zeros up to the length [`MAX_LEVELS`].
pub open spec fn zero_padded(strides: Seq<u8>) -> Seq<u8> {
    Seq::new(
        MAX_LEVELS as nat,
        |i: int|
            if i < strides.len() {
                strides[i]
            } else {
                0u8
            },
    )
}

impl BucketSet {
    /// Number of levels, which is the number of strides after completion: at
    /// least 1 and at most 42.
    pub fn level_count(&self) -> (count: u8)
        ensures
            self@.valid(),
            count == self@.strides.len(),
            count == self@.levels().len(),
            1 <= count <= MAX_LEVELS,
    {
        proof {
            use_type_invariant(self);
            self@.lemma_levels();
        }
        self.strides.len() as u8
    }

    /// The stride width of the first level.
    pub fn first_stride_size(&self) -> (width: u8)
        ensures
            self@.valid(),
            self@.strides.len() > 0,
            width == self@.strides[0],
            is_stride_width(width),
    {
        proof {
            use_type_invariant(self);
            self@.lemma_levels();
        }
        self.strides[0]
    }

    /// The levels of one stride width, in order of depth.
    pub fn levels_of_width(&self, width: u8) -> (levels: Vec<Level>)
        ensures
            self@.valid(),
            levels@ == self@.levels().filter(has_width(width)),
    {
        proof {
            use_type_invariant(self);
        }
        let mut found: Vec<Level> = Vec::new();
        let mut index: usize = 0;
        proof {
            reveal(Seq::filter);
            assert(self.levels@.take(0).filter(has_width(width)) == Seq::<Level>::empty());
        }
        while index < self.levels.len()
            invariant
                index <= self.levels@.len(),
                found@ == self.levels@.take(index as int).filter(has_width(width)),
            decreases self.levels@.len() - index,
        {
            let level = self.levels[index];
            proof {
                reveal(Seq::filter);
                assert(self.levels@.take(index as int + 1).drop_last() == self.levels@.take(
                    index as int,
                ));
            }
            if level.stride_width == width {
                found.push(level);
            }
            index = index + 1;
        }
        assert(self.levels@.take(index as int) == self.levels@);
        found
    }

    /// The stride sequence after completion in an array of fixed length,
    /// with zeros behind the last stride. No stride is 0, so the first 0
    /// marks the end.
    pub fn padded_stride_sizes(&self) -> (padded: [u8; 42])
        ensures
            self@.valid(),
            padded@ == zero_padded(self@.strides),
    {
        proof {
            use_type_invariant(self);
            self@.lemma_levels();
        }
        let mut padded: [u8; 42] = [0u8; 42];
        let mut index: usize = 0;
        while index < self.strides.len()
            invariant
                index <= self.strides@.len() <= MAX_LEVELS,
                forall|i: int| 0 <= i < index ==> padded@[i] == self.strides@[i],
                forall|i: int| index <= i < MAX_LEVELS ==> padded@[i] == 0,
            decreases self.strides@.len() - index,
        {
            padded[index] = self.strides[index];
            index = index + 1;
        }
        assert(padded@ =~= zero_padded(self@.strides));
        padded
    }
}

/// Builds one node bucket for each level, sized for depth 0 of its stride.
fn build_node_buckets(levels: &[Level]) -> (buckets: Vec<Bucket>)
    ensures
        buckets@.len() == levels@.len(),
        forall|index: int|
            0 <= index < buckets@.len() ==> (#[trigger] buckets@[index])@ == (BucketModel {
                kind: BucketKind::Node,
                key: levels@[index].start_bit as int,
                bits: depth_bits(0),
            }),
{
    let mut buckets: Vec<Bucket> = Vec::new();
    let mut index: usize = 0;
    while index < levels.len()
        invariant
            index <= levels@.len(),
            buckets@.len() == index,
            forall|i: int|
                0 <= i < buckets@.len() ==> (#[trigger] buckets@[i])@ == (BucketModel {
                    kind: BucketKind::Node,
                    key: levels@[i].start_bit as int,
                    bits: depth_bits(0),
                }),
        decreases levels@.len() - index,
    {
        let bits = bits_at_depth(0);
        buckets.push(Bucket::new(BucketKind::Node, levels[index].start_bit, bits));
        index = index + 1;
    }
    buckets
}

/// Builds one prefix bucket for each length from 0 to the bit width, sized
/// for depth 0.
fn build_prefix_buckets(family: AddressFamily) -> (buckets: Vec<Bucket>)
    ensures
        buckets@.len() == family.bits() + 1,
        forall|length: int|
            0 <= length < buckets@.len() ==> (#[trigger] buckets@[length])@ == (BucketModel {
                kind: BucketKind::Prefix,
                key: length,
                bits: depth_bits(0),
            }),
{
    let bit_width = family.bit_width();
    let mut buckets: Vec<Bucket> = Vec::new();
    let mut length: u8 = 0;
    while length <= bit_width
        invariant
            bit_width == family.bits(),
            length <= bit_width + 1,
            buckets@.len() == length,
            forall|l: int|
                0 <= l < buckets@.len() ==> (#[trigger] buckets@[l])@ == (BucketModel {
                    kind: BucketKind::Prefix,
                    key: l,
                    bits: depth_bits(0),
                }),
        decreases bit_width + 1 - length,
    {
        let bits = bits_at_depth(0);
        buckets.push(Bucket::new(BucketKind::Prefix, length, bits));
        length = length + 1;
    }
    buckets
}

/// Why a stride sequence is rejected for a bit width, if it is: a width
/// that is not 3, 4 or 5 comes first, a sum that cannot be met second.
pub open spec fn rejection(given: Seq<u8>, bit_width: int) -> Option<LayoutError> {
    if !all_stride_widths(given) {
        Some(LayoutError::InvalidStrideWidth)
    } else if !completable(given, bit_width) {
        Some(LayoutError::StrideSumMismatch)
    } else {
        None
    }
}

/// Derives the layout of a store for `family` from a stride sequence.
///
/// The sequence is validated and completed as [`validate_strides`] says; on
/// a rejection nothing is built. On success the layout's strides are the
/// completed sequence, and its levels, dispatch table and buckets follow
/// from them.
pub fn stride_sizes(family: AddressFamily, strides: &[u8]) -> (result: Result<
    BucketSet,
    LayoutError,
>)
    ensures
        match result {
            Ok(layout) => {
                &&& rejection(strides@, family.bits()) is None
                &&& layout@.family == family
                &&& layout@.valid()
                &&& is_completion(strides@, family.bits(), layout@.strides)
            },
            Err(error) => rejection(strides@, family.bits()) == Some(error),
        },
{
    let effective = match validate_strides(family, strides) {
        Ok(effective) => effective,
        Err(error) => {
            return Err(error);
        },
    };
    proof {
        assert(is_completion(strides@, family.bits(), cyclic_repeat(strides@, effective@.len())));
        assert forall|i: int| 0 <= i < effective@.len() implies #[trigger] effective@[i] > 0 by {
            assert(is_stride_width(strides@[i % (strides@.len() as int)]));
        }
        lemma_levels_partition(effective@, family.bits());
    }
    let levels = build_levels(effective.as_slice());
    let dispatch = build_dispatch_table(levels.as_slice(), family);
    let node_buckets = build_node_buckets(levels.as_slice());
    let prefix_buckets = build_prefix_buckets(family);
    Ok(BucketSet { family, strides: effective, levels, dispatch, node_buckets, prefix_buckets })
}

} // verus!

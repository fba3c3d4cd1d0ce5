//! Address families and the errors of layout construction and lookup.

use vstd::prelude::*;

verus! {

/// The kind of address a store holds; it fixes the number of key bits.
#[derive(Clone, Copy, Debug, PartialEq, Eq, Structural)]
pub enum AddressFamily {
    /// 32-bit keys.
    IPv4,
    /// 128-bit keys.
    IPv6,
}

/// Why a layout could not be built, or a lookup could not be answered.
#[derive(Clone, Copy, Debug, PartialEq, Eq, Structural)]
pub enum LayoutError {
    /// A supplied stride width is not 3, 4 or 5.
    InvalidStrideWidth,
    /// The stride sequence, repeated from its start as often as needed, never
    /// sums to the family's bit width exactly.
    StrideSumMismatch,
    /// A prefix length lies beyond the family's bit width.
    LengthOutOfRange,
}

impl AddressFamily {
    /// Number of key bits of the family, as a mathematical integer.
    pub open spec fn bits(self) -> int {
        match self {
            AddressFamily::IPv4 => 32,
            AddressFamily::IPv6 => 128,
        }
    }

    /// Number of key bits of the family: 32 or 128.
    pub fn bit_width(self) -> (width: u8)
        ensures
            width == self.bits(),
    {
        match self {
            AddressFamily::IPv4 => 32,
            AddressFamily::IPv6 => 128,
        }
    }
}

impl LayoutError {
    /// A one-line description of the error.
    pub fn message(self) -> (text: &'static str)
        ensures
            text@ == self.message_text(),
    {
        match self {
            LayoutError::InvalidStrideWidth => "stride width is not 3, 4 or 5",
            LayoutError::StrideSumMismatch => "stride widths do not add up to the bit width",
            LayoutError::LengthOutOfRange => "prefix length exceeds the bit width",
        }
    }

    /// The characters of [`LayoutError::message`].
    pub open spec fn message_text(self) -> Seq<char> {
        match self {
            LayoutError::InvalidStrideWidth => "stride width is not 3, 4 or 5"@,
            LayoutError::StrideSumMismatch => "stride widths do not add up to the bit width"@,
            LayoutError::LengthOutOfRange => "prefix length exceeds the bit width"@,
        }
    }
}

} // verus!

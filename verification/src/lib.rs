//! Layout derivation for a tree-bitmap prefix store.
//!
//! From an address family and a sequence of stride widths this crate derives
//! how the prefix-length space is cut into levels, how many slots the bucket
//! of each level and of each prefix length has, and which bucket a prefix
//! length is routed to. Every function is verified against the contract it
//! states.

pub mod family;
pub mod strides;
pub mod levels;
pub mod bits;
pub mod dispatch;
pub mod layout;
pub mod store;

pub use crate::layout::stride_sizes;
pub use crate::store::create_store;

//! The layout of a whole store: one bucket set for each address family.

use vstd::prelude::*;
use crate::family::{AddressFamily, LayoutError};
use crate::layout::{rejection, stride_sizes, BucketSet, LayoutModel};
use crate::strides::is_completion;

verus! {

/// A store layout as a mathematical value.
pub struct StoreModel {
    /// The layout for 32-bit keys.
    pub v4: LayoutModel,
    /// The layout for 128-bit keys.
    pub v6: LayoutModel,
}

impl StoreModel {
    /// Both layouts are valid, each for its own family.
    pub open spec fn valid(self) -> bool {
        &&& self.v4.valid()
        &&& self.v4.family == AddressFamily::IPv4
        &&& self.v6.valid()
        &&& self.v6.family == AddressFamily::IPv6
    }

    /// The layout of one family.
    pub open spec fn layout_for(self, family: AddressFamily) -> LayoutModel {
        match family {
            AddressFamily::IPv4 => self.v4,
            AddressFamily::IPv6 => self.v6,
        }
    }
}

/// The layouts of a store that holds both address families.
#[derive(Debug)]
pub struct StoreLayout {
    v4: BucketSet,
    v6: BucketSet,
}

impl View for StoreLayout {
    type V = StoreModel;

    closed spec fn view(&self) -> StoreModel {
        StoreModel { v4: self.v4@, v6: self.v6@ }
    }
}

impl StoreLayout {
    #[verifier::type_invariant]
    spec fn paired(self) -> bool {
        self@.valid()
    }

    /// The bucket set of one address family.
    pub fn layout_for(&self, family: AddressFamily) -> (layout: &BucketSet)
        ensures
            self@.valid(),
            layout@ == self@.layout_for(family),
            layout@.family == family,
            layout@.valid(),
    {
        proof {
            use_type_invariant(self);
        }
        match family {
            AddressFamily::IPv4 => &self.v4,
            AddressFamily::IPv6 => &self.v6,
        }
    }
}

/// Why a pair of stride sequences is rejected, if it is: the sequence for
/// 32-bit keys is judged first.
pub open spec fn store_rejection(strides4: Seq<u8>, strides6: Seq<u8>) -> Option<LayoutError> {
    if rejection(strides4, AddressFamily::IPv4.bits()) is Some {
        rejection(strides4, AddressFamily::IPv4.bits())
    } else {
        rejection(strides6, AddressFamily::IPv6.bits())
    }
}

/// Derives the layouts of a store from one stride sequence for each address
/// family. Either both layouts are built or none is.
pub fn create_store(strides4: &[u8], strides6: &[u8]) -> (result: Result<StoreLayout, LayoutError>)
    ensures
        match result {
            Ok(store) => {
                &&& store_rejection(strides4@, strides6@) is None
                &&& store@.valid()
                &&& is_completion(strides4@, AddressFamily::IPv4.bits(), store@.v4.strides)
                &&& is_completion(strides6@, AddressFamily::IPv6.bits(), store@.v6.strides)
            },
            Err(error) => store_rejection(strides4@, strides6@) == Some(error),
        },
{
    let v4 = match stride_sizes(AddressFamily::IPv4, strides4) {
        Ok(layout) => layout,
        Err(error) => {
            return Err(error);
        },
    };
    let v6 = match stride_sizes(AddressFamily::IPv6, strides6) {
        Ok(layout) => layout,
        Err(error) => {
            return Err(error);
        },
    };
    Ok(StoreLayout { v4, v6 })
}

} // verus!

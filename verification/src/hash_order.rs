//! The order of hashes, for the comparison operators.

use crate::hash::{byte_order, FileHash};
use std::cmp::Ordering;
use vstd::prelude::*;
use vstd::std_specs::cmp::PartialOrdSpecImpl;

verus! {

/// The order that a sign stands for.
pub open spec fn order_of(sign: int) -> Ordering {
    if sign < 0 {
        Ordering::Less
    } else if sign == 0 {
        Ordering::Equal
    } else {
        Ordering::Greater
    }
}

impl PartialOrd for FileHash {
    /// Hashes are ordered as their bytes are.
    fn partial_cmp(&self, other: &Self) -> (order: Option<Ordering>) {
        let sign = self.compare(other);
        if sign < 0 {
            Some(Ordering::Less)
        } else if sign == 0 {
            Some(Ordering::Equal)
        } else {
            Some(Ordering::Greater)
        }
    }
}

impl PartialOrdSpecImpl for FileHash {
    open spec fn obeys_partial_cmp_spec() -> bool {
        true
    }

    open spec fn partial_cmp_spec(&self, other: &Self) -> Option<Ordering> {
        Some(order_of(byte_order(self@, other@)))
    }
}

} // verus!

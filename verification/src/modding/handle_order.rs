//! Handles compare as their values, so as the positions they name.

use std::cmp::Ordering;

use vstd::prelude::*;

use crate::modding::types::DefHandle;

verus! {

/// How two handle values compare.
pub open spec fn compare_values(a: u32, b: u32) -> Option<Ordering> {
    if a < b {
        Some(Ordering::Less)
    } else if a == b {
        Some(Ordering::Equal)
    } else {
        Some(Ordering::Greater)
    }
}

impl<T> PartialOrd for DefHandle<T> {
    fn partial_cmp(&self, other: &DefHandle<T>) -> (r: Option<Ordering>) {
        let a = self.get();
        let b = other.get();
        if a < b {
            Some(Ordering::Less)
        } else if a == b {
            Some(Ordering::Equal)
        } else {
            Some(Ordering::Greater)
        }
    }
}

impl<T> vstd::std_specs::cmp::PartialOrdSpecImpl for DefHandle<T> {
    open spec fn obeys_partial_cmp_spec() -> bool {
        true
    }

    open spec fn partial_cmp_spec(&self, other: &DefHandle<T>) -> Option<Ordering> {
        compare_values(self@, other@)
    }
}

} // verus!

//! Mappings compare by their start address.

use vstd::prelude::*;
use core::cmp::Ordering;
use vstd::std_specs::cmp::PartialEqSpecImpl;
use vstd::std_specs::cmp::PartialOrdSpecImpl;
use crate::mappings::ExportMapping;

verus! {

/// How two start addresses compare.
pub open spec fn start_order(a: u64, b: u64) -> Ordering {
    if a < b {
        Ordering::Less
    } else if a == b {
        Ordering::Equal
    } else {
        Ordering::Greater
    }
}

impl PartialEq for ExportMapping {
    fn eq(&self, other: &Self) -> (r: bool) {
        self.start() == other.start()
    }
}

impl PartialEqSpecImpl for ExportMapping {
    open spec fn obeys_eq_spec() -> bool {
        true
    }

    open spec fn eq_spec(&self, other: &Self) -> bool {
        self@.start == other@.start
    }
}

impl Eq for ExportMapping {

}

impl PartialOrd for ExportMapping {
    fn partial_cmp(&self, other: &Self) -> (r: Option<Ordering>) {
        let a = self.start();
        let b = other.start();
        if a < b {
            Some(Ordering::Less)
        } else if a == b {
            Some(Ordering::Equal)
        } else {
            Some(Ordering::Greater)
        }
    }
}

impl PartialOrdSpecImpl for ExportMapping {
    open spec fn obeys_partial_cmp_spec() -> bool {
        true
    }

    open spec fn partial_cmp_spec(&self, other: &Self) -> Option<Ordering> {
        Some(start_order(self@.start, other@.start))
    }
}

} // verus!

//! The circular order of sequence numbers, as `PartialOrd`.
use vstd::prelude::*;
use core::cmp::Ordering;
use vstd::std_specs::cmp::PartialOrdSpecImpl;
use crate::seq_num::{SeqNum, seq_gt_spec};

verus! {

impl PartialOrd for SeqNum {
    fn partial_cmp(&self, rhs: &Self) -> (r: Option<Ordering>) {
        if self.0 == rhs.0 {
            Some(Ordering::Equal)
        } else if SeqNum::seq_gt(self.0, rhs.0) {
            Some(Ordering::Greater)
        } else {
            Some(Ordering::Less)
        }
    }
}

impl PartialOrdSpecImpl for SeqNum {
    open spec fn obeys_partial_cmp_spec() -> bool {
        true
    }

    open spec fn partial_cmp_spec(&self, rhs: &SeqNum) -> Option<Ordering> {
        if self.0 == rhs.0 {
            Some(Ordering::Equal)
        } else if seq_gt_spec(self.0, rhs.0) {
            Some(Ordering::Greater)
        } else {
            Some(Ordering::Less)
        }
    }
}

} // verus!

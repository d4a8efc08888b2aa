//! The order of timestamps: by their millisecond counts.
use vstd::prelude::*;
use vstd::std_specs::cmp::{PartialOrdSpec, PartialOrdSpecImpl};

use core::cmp::Ordering;

use crate::timestamp::Timestamp;

verus! {

impl PartialOrd for Timestamp {
    fn partial_cmp(&self, other: &Timestamp) -> (r: Option<Ordering>) {
        let a = self.as_millis();
        let b = other.as_millis();
        if a < b {
            Some(Ordering::Less)
        } else if a == b {
            Some(Ordering::Equal)
        } else {
            Some(Ordering::Greater)
        }
    }
}

impl PartialOrdSpecImpl for Timestamp {
    open spec fn obeys_partial_cmp_spec() -> bool {
        true
    }

    open spec fn partial_cmp_spec(&self, other: &Timestamp) -> Option<Ordering> {
        if self@ < other@ {
            Some(Ordering::Less)
        } else if self@ == other@ {
            Some(Ordering::Equal)
        } else {
            Some(Ordering::Greater)
        }
    }
}

/// Timestamps are ordered by their millisecond counts: `<`, `<=`, `>` and
/// `>=` on two timestamps answer as the same comparison of `as_millis`.
pub proof fn lemma_order_by_millis(t1: Timestamp, t2: Timestamp)
    ensures
        (PartialOrdSpec::partial_cmp_spec(&t1, &t2) == Some(Ordering::Less)) == (t1@ < t2@),
        (PartialOrdSpec::partial_cmp_spec(&t1, &t2) == Some(Ordering::Greater)) == (t1@ > t2@),
        (PartialOrdSpec::partial_cmp_spec(&t1, &t2) == Some(Ordering::Equal)) == (t1@ == t2@),
        PartialOrdSpec::partial_cmp_spec(&t1, &t2) is Some,
{
}

} // verus!

//! The order of scores and of offsets, for the comparison operators.

use crate::search::{outranks, Offset, Score};
use std::cmp::Ordering;
use vstd::prelude::*;
use vstd::std_specs::cmp::PartialOrdSpecImpl;

verus! {

/// Whether `a` stands before `b`: it starts earlier, or starts at the same
/// byte and ends earlier.
pub open spec fn earlier(a: Offset, b: Offset) -> bool {
    a.start < b.start || (a.start == b.start && a.end < b.end)
}

impl PartialOrd for Offset {
    /// An offset is less than one that starts later, or starts at the same
    /// byte and ends later.
    fn partial_cmp(&self, other: &Offset) -> (r: Option<Ordering>) {
        if self.start < other.start || (self.start == other.start && self.end < other.end) {
            Some(Ordering::Less)
        } else if self.start == other.start && self.end == other.end {
            Some(Ordering::Equal)
        } else {
            Some(Ordering::Greater)
        }
    }
}

impl PartialOrdSpecImpl for Offset {
    open spec fn obeys_partial_cmp_spec() -> bool {
        true
    }

    open spec fn partial_cmp_spec(&self, other: &Offset) -> Option<Ordering> {
        if earlier(*self, *other) {
            Some(Ordering::Less)
        } else if self.start == other.start && self.end == other.end {
            Some(Ordering::Equal)
        } else {
            Some(Ordering::Greater)
        }
    }
}

impl PartialOrd for Score {
    /// A score is greater than one that it outranks.
    fn partial_cmp(&self, other: &Score) -> (r: Option<Ordering>) {
        if self.outranks(other) {
            Some(Ordering::Greater)
        } else if other.outranks(self) {
            Some(Ordering::Less)
        } else {
            Some(Ordering::Equal)
        }
    }
}

impl PartialOrdSpecImpl for Score {
    open spec fn obeys_partial_cmp_spec() -> bool {
        true
    }

    open spec fn partial_cmp_spec(&self, other: &Score) -> Option<Ordering> {
        if outranks(*self, *other) {
            Some(Ordering::Greater)
        } else if outranks(*other, *self) {
            Some(Ordering::Less)
        } else {
            Some(Ordering::Equal)
        }
    }
}

} // verus!

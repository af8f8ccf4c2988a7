use vstd::prelude::*;

use core::cmp::Ordering;

verus! {

/// An action paired with its desirability weight (fixed-point, `UNIT` is 1.0).
///
/// Candidates are ordered by weight alone; two candidates are equal only when
/// both the weight and the action match.
#[derive(Clone, Copy, Debug, PartialEq)]
pub struct WeightedAction<T> {
    pub action: T,
    pub weight: u32,
}

/// The order of two candidates: by weight, higher is greater.
pub open spec fn weight_order(a: u32, b: u32) -> Ordering {
    if a > b {
        Ordering::Greater
    } else if a < b {
        Ordering::Less
    } else {
        Ordering::Equal
    }
}

impl<T> WeightedAction<T> {
    pub fn new(action: T, weight: u32) -> (r: Self)
        ensures
            r.action == action,
            r.weight == weight,
    {
        WeightedAction { action, weight }
    }

    /// Compares two candidates by weight; the actions take no part.
    pub fn cmp(&self, other: &Self) -> (r: Ordering)
        ensures
            r == weight_order(self.weight, other.weight),
    {
        if self.weight > other.weight {
            return Ordering::Greater;
        }
        if self.weight < other.weight {
            return Ordering::Less;
        }
        Ordering::Equal
    }
}

} // verus!

//! The edge condition of the proximity ranking rule: the concrete condition
//! type this crate ships, requiring one term to occur within a bounded
//! distance of another.

use vstd::prelude::*;

use crate::interner::Condition;

verus! {

/// A proximity edge condition: the document must contain `left_term` and
/// `right_term` at most `proximity` word positions apart.
#[derive(PartialEq, Eq, Structural, Clone, Copy, Debug, Hash)]
pub struct ProximityCondition {
    pub left_term: u16,
    pub right_term: u16,
    pub proximity: u8,
}

impl Condition for ProximityCondition {
    fn eq_cond(&self, other: &Self) -> (r: bool)
        ensures
            r == (self == other),
    {
        self.left_term == other.left_term && self.right_term == other.right_term
            && self.proximity == other.proximity
    }

    fn clone_cond(&self) -> (r: Self)
        ensures
            r == *self,
    {
        *self
    }
}

} // verus!

//! The competitive ratio: what an online policy paid, over what the offline
//! policy paid on the same trace.

use vstd::prelude::*;

verus! {

/// A competitive ratio, held exactly as its two costs.
///
/// The ratio is undefined when the offline cost is zero; every comparison of
/// an undefined ratio is false.
#[derive(Debug, Clone, Copy, PartialEq, Eq, Structural)]
pub struct CompetitiveRatio {
    pub online_cost: u64,
    pub offline_cost: u64,
}

impl CompetitiveRatio {
    /// Whether the ratio is a number: the offline cost is not zero.
    pub open spec fn defined(self) -> bool {
        self.offline_cost != 0
    }

    /// Whether the ratio is a number: the offline cost is not zero.
    pub fn is_defined(&self) -> (defined: bool)
        ensures
            defined == self.defined(),
    {
        self.offline_cost != 0
    }

    /// Whether the ratio is at most `numerator / denominator`.
    pub fn at_most(&self, numerator: u64, denominator: u64) -> (holds: bool)
        ensures
            holds == (self.defined() && denominator != 0 && self.online_cost * denominator
                <= numerator * self.offline_cost),
    {
        if self.offline_cost == 0 || denominator == 0 {
            return false;
        }
        assert(self.online_cost * denominator <= u128::MAX && numerator * self.offline_cost
            <= u128::MAX) by (nonlinear_arith)
            requires
                self.online_cost <= u64::MAX,
                denominator <= u64::MAX,
                numerator <= u64::MAX,
                self.offline_cost <= u64::MAX,
        ;
        (self.online_cost as u128) * (denominator as u128) <= (numerator as u128) * (
        self.offline_cost as u128)
    }

    /// Whether the ratio is at least `numerator / denominator`.
    pub fn at_least(&self, numerator: u64, denominator: u64) -> (holds: bool)
        ensures
            holds == (self.defined() && denominator != 0 && self.online_cost * denominator
                >= numerator * self.offline_cost),
    {
        if self.offline_cost == 0 || denominator == 0 {
            return false;
        }
        assert(self.online_cost * denominator <= u128::MAX && numerator * self.offline_cost
            <= u128::MAX) by (nonlinear_arith)
            requires
                self.online_cost <= u64::MAX,
                denominator <= u64::MAX,
                numerator <= u64::MAX,
                self.offline_cost <= u64::MAX,
        ;
        (self.online_cost as u128) * (denominator as u128) >= (numerator as u128) * (
        self.offline_cost as u128)
    }
}

} // verus!

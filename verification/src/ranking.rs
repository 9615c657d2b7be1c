//! The order in which harmonies are ranked: more covered cells first, and
//! among harmonies that cover as many, fewer test cases first.

use crate::harmony::Harmony;
use crate::model::HarmonyView;
use std::cmp::Ordering;
use vstd::prelude::*;
use vstd::std_specs::cmp::{PartialEqSpecImpl, PartialOrdSpecImpl};

verus! {

/// `a` ranks strictly before `b`: it covers more cells, or as many with
/// fewer test cases.
pub open spec fn better(a: HarmonyView, b: HarmonyView) -> bool {
    a.fitness > b.fitness || (a.fitness == b.fitness && a.size < b.size)
}

/// `a` and `b` rank alike: neither is better than the other.
pub open spec fn tied(a: HarmonyView, b: HarmonyView) -> bool {
    a.fitness == b.fitness && a.size == b.size
}

/// Where `a` stands relative to `b`: `Less` means that `a` ranks before `b`.
pub open spec fn rank_order(a: HarmonyView, b: HarmonyView) -> Ordering {
    if better(a, b) {
        Ordering::Less
    } else if better(b, a) {
        Ordering::Greater
    } else {
        Ordering::Equal
    }
}

impl PartialEq for Harmony {
    /// Two harmonies are equal in rank when they cover as many cells with as
    /// many test cases; their suites may differ.
    fn eq(&self, other: &Self) -> (alike: bool) {
        self.fitness() == other.fitness() && self.size() == other.size()
    }
}

impl PartialEqSpecImpl for Harmony {
    open spec fn obeys_eq_spec() -> bool {
        true
    }

    open spec fn eq_spec(&self, other: &Self) -> bool {
        tied(self@, other@)
    }
}

impl Eq for Harmony {

}

impl PartialOrd for Harmony {
    /// `Less` when `self` ranks before `other`.
    fn partial_cmp(&self, other: &Self) -> (order: Option<Ordering>) {
        if self.fitness() > other.fitness() {
            Some(Ordering::Less)
        } else if self.fitness() < other.fitness() {
            Some(Ordering::Greater)
        } else if self.size() < other.size() {
            Some(Ordering::Less)
        } else if self.size() > other.size() {
            Some(Ordering::Greater)
        } else {
            Some(Ordering::Equal)
        }
    }
}

impl PartialOrdSpecImpl for Harmony {
    open spec fn obeys_partial_cmp_spec() -> bool {
        true
    }

    open spec fn partial_cmp_spec(&self, other: &Self) -> Option<Ordering> {
        Some(rank_order(self@, other@))
    }
}

impl Harmony {
    /// Whether this harmony ranks strictly before `other`.
    pub fn ranks_before(&self, other: &Harmony) -> (yes: bool)
        ensures
            yes == better(self@, other@),
    {
        self.fitness() > other.fitness() || (self.fitness() == other.fitness() && self.size()
            < other.size())
    }
}

/// Ranking is a strict order whose ties are an equivalence: nothing ranks
/// before itself, and ranking before carries over a chain and over a tie.
pub proof fn lemma_rank_order(a: HarmonyView, b: HarmonyView, c: HarmonyView)
    ensures
        !better(a, a),
        better(a, b) ==> !better(b, a),
        better(a, b) && better(b, c) ==> better(a, c),
        !better(a, b) && !better(b, c) ==> !better(a, c),
        tied(a, b) <==> !better(a, b) && !better(b, a),
{
}

} // verus!

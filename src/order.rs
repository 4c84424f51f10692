//! The causal partial order between clocks and the four relations derived
//! from it.
use vstd::prelude::*;
use crate::clock::{counter, vectime};
use std::cmp::Ordering;

verus! {

/// `a` is at least `b` at every identifier.
pub open spec fn dominates(a: Map<Seq<char>, int>, b: Map<Seq<char>, int>) -> bool {
    forall|k: Seq<char>| #[trigger] counter(b, k) <= counter(a, k)
}

/// The causal relation of `a` to `b`; `None` when they are concurrent.
pub open spec fn causal_order(a: Map<Seq<char>, int>, b: Map<Seq<char>, int>) -> Option<Ordering> {
    if dominates(a, b) && dominates(b, a) {
        Some(Ordering::Equal)
    } else if dominates(a, b) {
        Some(Ordering::Greater)
    } else if dominates(b, a) {
        Some(Ordering::Less)
    } else {
        None
    }
}

impl PartialEq for vectime {
    /// Two clocks are equal when they are causally equal.
    fn eq(&self, other: &vectime) -> (r: bool) {
        match self.compare(other) {
            Some(Ordering::Equal) => true,
            _ => false,
        }
    }
}

impl Eq for vectime {

}

impl vstd::std_specs::cmp::PartialEqSpecImpl for vectime {
    open spec fn obeys_eq_spec() -> bool {
        true
    }

    open spec fn eq_spec(&self, other: &vectime) -> bool {
        causal_order(self@, other@) == Some(Ordering::Equal)
    }
}

impl PartialOrd for vectime {
    fn partial_cmp(&self, other: &vectime) -> (r: Option<Ordering>) {
        self.compare(other)
    }
}

impl vstd::std_specs::cmp::PartialOrdSpecImpl for vectime {
    open spec fn obeys_partial_cmp_spec() -> bool {
        true
    }

    open spec fn partial_cmp_spec(&self, other: &vectime) -> Option<Ordering> {
        causal_order(self@, other@)
    }
}

/// Are the two clocks concurrent (causally unordered)?
pub fn intersects(t1: vectime, t2: vectime) -> (r: bool)
    ensures
        r == (causal_order(t1@, t2@) == None::<Ordering>),
{
    match t1.compare(&t2) {
        None => true,
        Some(_) => false,
    }
}

/// Are the two clocks causally equal?
pub fn same(t1: vectime, t2: vectime) -> (r: bool)
    ensures
        r == (causal_order(t1@, t2@) == Some(Ordering::Equal)),
{
    match t1.compare(&t2) {
        Some(Ordering::Equal) => true,
        _ => false,
    }
}

/// Does `t1` strictly follow `t2`?
pub fn contains(t1: vectime, t2: vectime) -> (r: bool)
    ensures
        r == (causal_order(t1@, t2@) == Some(Ordering::Greater)),
{
    match t1.compare(&t2) {
        Some(Ordering::Greater) => true,
        _ => false,
    }
}

/// Does `t1` strictly precede `t2`?
pub fn contained(t1: vectime, t2: vectime) -> (r: bool)
    ensures
        r == (causal_order(t1@, t2@) == Some(Ordering::Less)),
{
    match t1.compare(&t2) {
        Some(Ordering::Less) => true,
        _ => false,
    }
}

/// Every clock is causally equal to itself.
pub proof fn lemma_compare_reflexive(a: Map<Seq<char>, int>)
    ensures
        causal_order(a, a) == Some(Ordering::Equal),
{
}

/// `a` follows `b` exactly when `b` precedes `a`, and equality is symmetric.
pub proof fn lemma_compare_antisymmetric(a: Map<Seq<char>, int>, b: Map<Seq<char>, int>)
    ensures
        (causal_order(a, b) == Some(Ordering::Greater)) <==> (causal_order(b, a) == Some(
            Ordering::Less,
        )),
        (causal_order(a, b) == Some(Ordering::Equal)) <==> (causal_order(b, a) == Some(
            Ordering::Equal,
        )),
{
}

} // verus!

//! Belief tables: where the observed probability of a proposition is found.
//! The reserved existence relation always holds.
use crate::objects::{existence_name, existence_predicate_name, predicate_text, PredicateView, Proposition};
use vstd::prelude::*;

verus! {

/// Where a proposition's observed probability comes from.
#[derive(Debug, Clone)]
pub enum BeliefLookup {
    /// The proposition holds with probability 1.
    Certain,
    /// The proposition is unobserved.
    Unobserved,
    /// The probability, if any, is stored under this field of the
    /// probabilities map.
    Field(String),
}

pub open spec fn is_existence(p: PredicateView) -> bool {
    p.relation.name == existence_name()
}

/// Whether the proposition is of the reserved existence relation.
pub fn is_existence_proposition(proposition: &Proposition) -> (r: bool)
    ensures
        r == is_existence(proposition@),
{
    proposition.predicate.relation.relation_name == existence_predicate_name()
}

/// A belief table kept in the key/field store, one field per proposition key.
pub struct RedisBeliefTable {
    pub namespace: String,
}

impl RedisBeliefTable {
    /// The map that holds the probabilities of a namespace.
    pub const PROBABILITIES_KEY: &'static str = "probabilities";

    pub fn new(namespace: String) -> (r: Self)
        ensures
            r.namespace == namespace,
    {
        RedisBeliefTable { namespace }
    }

    /// Existence propositions are certain; any other is looked up under its
    /// canonical key.
    pub fn lookup(&self, proposition: &Proposition) -> (r: BeliefLookup)
        ensures
            is_existence(proposition@) ==> r is Certain,
            !is_existence(proposition@) ==> (r matches BeliefLookup::Field(k) && k@ == predicate_text(
                proposition@,
            )),
    {
        if is_existence_proposition(proposition) {
            BeliefLookup::Certain
        } else {
            BeliefLookup::Field(proposition.predicate.hash_string())
        }
    }

    /// The field under which a proposition's probability is stored.
    pub fn store_field(&self, proposition: &Proposition) -> (r: String)
        ensures
            r@ == predicate_text(proposition@),
    {
        proposition.predicate.hash_string()
    }
}

/// A belief table with no evidence: only existence propositions hold.
pub struct EmptyBeliefTable {}

impl EmptyBeliefTable {
    pub fn new() -> (r: Self) {
        EmptyBeliefTable {  }
    }

    pub fn lookup(&self, proposition: &Proposition) -> (r: BeliefLookup)
        ensures
            is_existence(proposition@) ==> r is Certain,
            !is_existence(proposition@) ==> r is Unobserved,
    {
        if is_existence_proposition(proposition) {
            BeliefLookup::Certain
        } else {
            BeliefLookup::Unobserved
        }
    }
}

} // verus!

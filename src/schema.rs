//! Labels and key names under which the storage collaborator keeps the
//! network's entities.
use vstd::prelude::*;

verus! {

/// Node labels for the entities of the network in the graph store.
#[derive(Debug, Clone, Copy, PartialEq, Eq, Structural)]
pub enum NodeLabel {
    KeyValue,
    Hash,
    SetContainer,
    SetMember,
    List,
    ListItem,
    Relation,
    Domain,
    Entity,
    Proposition,
    Predicate,
    Argument,
    Factor,
    Feature,
    Weight,
}

impl NodeLabel {
    pub open spec fn label_text(self) -> Seq<char> {
        match self {
            NodeLabel::KeyValue => "KeyValue"@,
            NodeLabel::Hash => "Hash"@,
            NodeLabel::SetContainer => "Set"@,
            NodeLabel::SetMember => "SetMember"@,
            NodeLabel::List => "List"@,
            NodeLabel::ListItem => "ListItem"@,
            NodeLabel::Relation => "Relation"@,
            NodeLabel::Domain => "Domain"@,
            NodeLabel::Entity => "Entity"@,
            NodeLabel::Proposition => "Proposition"@,
            NodeLabel::Predicate => "Predicate"@,
            NodeLabel::Argument => "Argument"@,
            NodeLabel::Factor => "Factor"@,
            NodeLabel::Feature => "Feature"@,
            NodeLabel::Weight => "Weight"@,
        }
    }

    /// The label's name in storage.
    pub fn as_str(&self) -> (r: &'static str)
        ensures
            r@ == self.label_text(),
    {
        match self {
            NodeLabel::KeyValue => "KeyValue",
            NodeLabel::Hash => "Hash",
            NodeLabel::SetContainer => "Set",
            NodeLabel::SetMember => "SetMember",
            NodeLabel::List => "List",
            NodeLabel::ListItem => "ListItem",
            NodeLabel::Relation => "Relation",
            NodeLabel::Domain => "Domain",
            NodeLabel::Entity => "Entity",
            NodeLabel::Proposition => "Proposition",
            NodeLabel::Predicate => "Predicate",
            NodeLabel::Argument => "Argument",
            NodeLabel::Factor => "Factor",
            NodeLabel::Feature => "Feature",
            NodeLabel::Weight => "Weight",
        }
    }
}

/// Edge labels for the relationships between stored entities.
#[derive(Debug, Clone, Copy, PartialEq, Eq, Structural)]
pub enum EdgeLabel {
    Contains,
    HasItem,
    BelongsToDomain,
    HasArgument,
    HasPremise,
    HasConclusion,
    HasFeature,
    HasWeight,
    FactorInput,
    FactorOutput,
    ImpliedBy,
    Negation,
    Conjunction,
    Disjunction,
}

impl EdgeLabel {
    pub open spec fn label_text(self) -> Seq<char> {
        match self {
            EdgeLabel::Contains => "CONTAINS"@,
            EdgeLabel::HasItem => "HAS_ITEM"@,
            EdgeLabel::BelongsToDomain => "BELONGS_TO_DOMAIN"@,
            EdgeLabel::HasArgument => "HAS_ARGUMENT"@,
            EdgeLabel::HasPremise => "HAS_PREMISE"@,
            EdgeLabel::HasConclusion => "HAS_CONCLUSION"@,
            EdgeLabel::HasFeature => "HAS_FEATURE"@,
            EdgeLabel::HasWeight => "HAS_WEIGHT"@,
            EdgeLabel::FactorInput => "FACTOR_INPUT"@,
            EdgeLabel::FactorOutput => "FACTOR_OUTPUT"@,
            EdgeLabel::ImpliedBy => "IMPLIED_BY"@,
            EdgeLabel::Negation => "NEGATION"@,
            EdgeLabel::Conjunction => "CONJUNCTION"@,
            EdgeLabel::Disjunction => "DISJUNCTION"@,
        }
    }

    /// The label's name in storage.
    pub fn as_str(&self) -> (r: &'static str)
        ensures
            r@ == self.label_text(),
    {
        match self {
            EdgeLabel::Contains => "CONTAINS",
            EdgeLabel::HasItem => "HAS_ITEM",
            EdgeLabel::BelongsToDomain => "BELONGS_TO_DOMAIN",
            EdgeLabel::HasArgument => "HAS_ARGUMENT",
            EdgeLabel::HasPremise => "HAS_PREMISE",
            EdgeLabel::HasConclusion => "HAS_CONCLUSION",
            EdgeLabel::HasFeature => "HAS_FEATURE",
            EdgeLabel::HasWeight => "HAS_WEIGHT",
            EdgeLabel::FactorInput => "FACTOR_INPUT",
            EdgeLabel::FactorOutput => "FACTOR_OUTPUT",
            EdgeLabel::ImpliedBy => "IMPLIED_BY",
            EdgeLabel::Negation => "NEGATION",
            EdgeLabel::Conjunction => "CONJUNCTION",
            EdgeLabel::Disjunction => "DISJUNCTION",
        }
    }
}

/// Kinds of factor.
#[derive(Debug, Clone, Copy, PartialEq, Eq, Structural)]
pub enum FactorType {
    Implication,
    Conjunction,
    Disjunction,
    Negation,
    WeightedSum,
    ExponentialModel,
}

impl FactorType {
    pub open spec fn label_text(self) -> Seq<char> {
        match self {
            FactorType::Implication => "IMPLICATION"@,
            FactorType::Conjunction => "CONJUNCTION"@,
            FactorType::Disjunction => "DISJUNCTION"@,
            FactorType::Negation => "NEGATION"@,
            FactorType::WeightedSum => "WEIGHTED_SUM"@,
            FactorType::ExponentialModel => "EXPONENTIAL_MODEL"@,
        }
    }

    /// The factor kind's name in storage.
    pub fn as_str(&self) -> (r: &'static str)
        ensures
            r@ == self.label_text(),
    {
        match self {
            FactorType::Implication => "IMPLICATION",
            FactorType::Conjunction => "CONJUNCTION",
            FactorType::Disjunction => "DISJUNCTION",
            FactorType::Negation => "NEGATION",
            FactorType::WeightedSum => "WEIGHTED_SUM",
            FactorType::ExponentialModel => "EXPONENTIAL_MODEL",
        }
    }
}

/// Property names of a stored proposition.
#[derive(Debug, Clone, Copy, PartialEq, Eq, Structural)]
pub enum PropProperty {
    Id,
    PredicateHash,
    Belief,
    Evidence,
    Lambda,
    Pi,
    Timestamp,
}

impl PropProperty {
    pub open spec fn label_text(self) -> Seq<char> {
        match self {
            PropProperty::Id => "id"@,
            PropProperty::PredicateHash => "predicate_hash"@,
            PropProperty::Belief => "belief"@,
            PropProperty::Evidence => "evidence"@,
            PropProperty::Lambda => "lambda"@,
            PropProperty::Pi => "pi"@,
            PropProperty::Timestamp => "timestamp"@,
        }
    }

    /// The property's name in storage.
    pub fn as_str(&self) -> (r: &'static str)
        ensures
            r@ == self.label_text(),
    {
        match self {
            PropProperty::Id => "id",
            PropProperty::PredicateHash => "predicate_hash",
            PropProperty::Belief => "belief",
            PropProperty::Evidence => "evidence",
            PropProperty::Lambda => "lambda",
            PropProperty::Pi => "pi",
            PropProperty::Timestamp => "timestamp",
        }
    }
}

pub open spec fn key_prefix() -> Seq<char> {
    "bayes-star"@
}

/// `bayes-star:namespace:key`.
pub open spec fn qualified_text(namespace: Seq<char>, key: Seq<char>) -> Seq<char> {
    key_prefix() + ":"@ + namespace + ":"@ + key
}

/// A storage key qualified by the namespace.
pub fn qualified_key(namespace: &str, key: &str) -> (r: String)
    ensures
        r@ == qualified_text(namespace@, key@),
{
    String::from_str("bayes-star").concat(":").concat(namespace).concat(":").concat(key)
}

/// The same key as `qualified_key`, under the name the key/field layer uses.
pub fn namespace_qualified_key(namespace: &str, key: &str) -> (r: String)
    ensures
        r@ == qualified_text(namespace@, key@),
{
    qualified_key(namespace, key)
}

} // verus!

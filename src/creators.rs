//! Short constructors for the logical schema.
use crate::objects::{
    labeled_views, predicate_views, role_map_views, Argument, ArgumentView, ConstantArgument,
    GroupRoleMap, ImplicationFactor, LabeledArgument, Predicate, PredicateGroup, Proposition,
    Relation, RoleMap, VariableArgument,
};
use vstd::prelude::*;

verus! {

pub fn conjunction(terms: Vec<Predicate>) -> (r: PredicateGroup)
    ensures
        r@ == predicate_views(terms@),
{
    PredicateGroup { terms }
}

/// The rule `premise => conclusion` with one role map per premise term.
pub fn implication(premise: PredicateGroup, conclusion: Predicate, role_maps: Vec<RoleMap>) -> (r:
    ImplicationFactor)
    ensures
        r@.premise == premise@,
        r@.conclusion == conclusion@,
        r@.maps == role_map_views(role_maps@),
{
    let role_maps = GroupRoleMap { role_maps };
    ImplicationFactor { premise, conclusion, role_maps }
}

pub fn variable_argument(domain: String) -> (r: VariableArgument)
    ensures
        r.domain == domain,
{
    VariableArgument { domain }
}

pub fn relation(relation_name: String, roles: Vec<VariableArgument>) -> (r: Relation)
    ensures
        r.relation_name == relation_name,
        r.types == roles,
{
    Relation::new(relation_name, roles)
}

pub fn proposition(relation: Relation, roles: Vec<LabeledArgument>) -> (r: Proposition)
    ensures
        r@.relation == relation@,
        r@.roles == labeled_views(roles@),
{
    Proposition::from(Predicate::new_from_relation(relation, roles))
}

pub fn predicate(relation: Relation, roles: Vec<LabeledArgument>) -> (r: Predicate)
    ensures
        r@.relation == relation@,
        r@.roles == labeled_views(roles@),
{
    Predicate::new_from_relation(relation, roles)
}

pub fn role(role_name: String, argument: Argument) -> (r: LabeledArgument)
    ensures
        r@.role == role_name@,
        r@.arg == argument@,
{
    LabeledArgument { role_name, argument }
}

pub fn variable(domain: String) -> (r: Argument)
    ensures
        r@ == ArgumentView::Variable(domain@),
{
    Argument::Variable(VariableArgument { domain })
}

pub fn constant(domain: String, entity_id: String) -> (r: Argument)
    ensures
        r@ == ArgumentView::Constant(domain@, entity_id@),
{
    Argument::Constant(ConstantArgument { domain, entity_id })
}

/// The argument in the subject role, `sub`.
pub fn sub(argument: Argument) -> (r: LabeledArgument)
    ensures
        r@.role == "sub"@,
        r@.arg == argument@,
{
    role(String::from_str("sub"), argument)
}

/// The argument in the object role, `obj`.
pub fn obj(argument: Argument) -> (r: LabeledArgument)
    ensures
        r@.role == "obj"@,
        r@.arg == argument@,
{
    role(String::from_str("obj"), argument)
}

} // verus!

//! Operations on predicates: quantifying roles, projecting a conclusion's
//! bindings through a role map, and grounding a premise term.
use crate::objects::{
    is_constant, is_grounded, labeled_views, quantified, Argument, ArgumentView, LabeledArgument, LabeledView, Predicate,
    PredicateView, Proposition, RoleMap,
};
use crate::text::views;
use vstd::prelude::*;

verus! {

/// Why a rule could not be grounded against a conclusion. Both are
/// configuration errors of the rule: fatal for that rule only.
#[derive(Clone, Copy, Debug, PartialEq, Eq, Structural)]
pub enum GroundingError {
    /// The role map names a role that the conclusion does not have.
    RoleNotInConclusion,
    /// A premise variable has no binding to a constant.
    UnboundRole,
    /// The rule has not one role map per premise term.
    RoleMapCountMismatch,
}

/// The argument of the first role named `name`, if any.
pub open spec fn lookup(roles: Seq<LabeledView>, name: Seq<char>) -> Option<ArgumentView>
    decreases roles.len(),
{
    if roles.len() == 0 {
        None
    } else if roles[0].role == name {
        Some(roles[0].arg)
    } else {
        lookup(roles.drop_first(), name)
    }
}

/// A role, with its argument made a variable when its name is among `names`.
pub open spec fn quantify_role(l: LabeledView, names: Seq<Seq<char>>) -> LabeledView {
    if names.contains(l.role) {
        quantified(l)
    } else {
        l
    }
}

/// The predicate with the roles named in `names` quantified.
pub open spec fn quantify(p: PredicateView, names: Seq<Seq<char>>) -> PredicateView {
    PredicateView {
        relation: p.relation,
        roles: p.roles.map_values(|l: LabeledView| quantify_role(l, names)),
    }
}

/// Projects a conclusion's roles through a role map of `(premise role,
/// conclusion role)` pairs: each premise role is bound to the argument of its
/// conclusion role. `None` when a conclusion role is missing.
pub open spec fn bind_roles(conclusion: Seq<LabeledView>, map: Seq<(Seq<char>, Seq<char>)>) -> Option<
    Seq<LabeledView>,
>
    decreases map.len(),
{
    if map.len() == 0 {
        Some(Seq::empty())
    } else {
        match (lookup(conclusion, map[0].1), bind_roles(conclusion, map.drop_first())) {
            (Some(a), Some(rest)) => Some(seq![LabeledView { role: map[0].0, arg: a }] + rest),
            _ => None,
        }
    }
}

/// Grounds a role: a constant stays, a variable takes the constant bound to its role.
pub open spec fn ground_role(l: LabeledView, bindings: Seq<LabeledView>) -> Option<LabeledView> {
    if is_constant(l.arg) {
        Some(l)
    } else {
        match lookup(bindings, l.role) {
            Some(a) => if is_constant(a) {
                Some(LabeledView { role: l.role, arg: a })
            } else {
                None
            },
            None => None,
        }
    }
}

pub open spec fn ground_roles(roles: Seq<LabeledView>, bindings: Seq<LabeledView>) -> Option<
    Seq<LabeledView>,
>
    decreases roles.len(),
{
    if roles.len() == 0 {
        Some(Seq::empty())
    } else {
        match (ground_role(roles[0], bindings), ground_roles(roles.drop_first(), bindings)) {
            (Some(l), Some(rest)) => Some(seq![l] + rest),
            _ => None,
        }
    }
}

/// The predicate with each variable replaced by its binding; `None` when a
/// variable has no constant bound to it.
pub open spec fn ground_predicate(p: PredicateView, bindings: Seq<LabeledView>) -> Option<
    PredicateView,
> {
    match ground_roles(p.roles, bindings) {
        Some(roles) => Some(PredicateView { relation: p.relation, roles }),
        None => None,
    }
}

/// Grounded roles are constants, one per role.
proof fn lemma_ground_roles_constant(roles: Seq<LabeledView>, bindings: Seq<LabeledView>)
    ensures
        ground_roles(roles, bindings) matches Some(r) ==> r.len() == roles.len() && forall|i: int|
            0 <= i < r.len() ==> is_constant(#[trigger] r[i].arg),
    decreases roles.len(),
{
    if roles.len() > 0 {
        lemma_ground_roles_constant(roles.drop_first(), bindings);
        match (ground_role(roles[0], bindings), ground_roles(roles.drop_first(), bindings)) {
            (Some(l), Some(rest)) => {
                let r = seq![l] + rest;
                assert forall|i: int| 0 <= i < r.len() implies is_constant(#[trigger] r[i].arg) by {
                    if i > 0 {
                        assert(r[i] == rest[i - 1]);
                    }
                }
            },
            _ => {},
        }
    }
}

/// Finds the argument of the first role named `name`.
pub fn find_role(roles: &Vec<LabeledArgument>, name: &String) -> (r: Option<Argument>)
    ensures
        r matches Some(a) ==> lookup(labeled_views(roles@), name@) == Some(a@),
        r is None ==> lookup(labeled_views(roles@), name@) is None,
{
    let ghost all = labeled_views(roles@);
    let mut i: usize = 0;
    assert(all.skip(0) =~= all);
    while i < roles.len()
        invariant
            i <= roles@.len(),
            all == labeled_views(roles@),
            lookup(all, name@) == lookup(all.skip(i as int), name@),
        decreases roles@.len() - i,
    {
        if roles[i].role_name == *name {
            return Some(roles[i].argument.duplicate());
        }
        assert(all.skip(i as int).drop_first() =~= all.skip(i + 1));
        i = i + 1;
    }
    None
}

/// Whether `names` holds a string equal to `name`.
pub fn contains_string(names: &Vec<String>, name: &String) -> (r: bool)
    ensures
        r == views(names@).contains(name@),
{
    let mut i: usize = 0;
    while i < names.len()
        invariant
            i <= names@.len(),
            forall|k: int| 0 <= k < i ==> names@[k]@ != name@,
        decreases names@.len() - i,
    {
        if names[i] == *name {
            assert(views(names@)[i as int] == name@);
            return true;
        }
        i = i + 1;
    }
    assert(!views(names@).contains(name@)) by {
        if views(names@).contains(name@) {
            let k = choose|k: int| 0 <= k < views(names@).len() && views(names@)[k] == name@;
            assert(names@[k]@ == name@);
        }
    }
    false
}

/// The proposition's predicate with the roles named in `quantified_roles`
/// turned into variables of their domains.
pub fn convert_to_quantified(proposition: &Proposition, quantified_roles: &Vec<String>) -> (r:
    Predicate)
    ensures
        r@ == quantify(proposition@, views(quantified_roles@)),
{
    let roles = &proposition.predicate.roles;
    let ghost names = views(quantified_roles@);
    let mut out: Vec<LabeledArgument> = Vec::new();
    let mut i: usize = 0;
    while i < roles.len()
        invariant
            i <= roles@.len(),
            names == views(quantified_roles@),
            out@.len() == i,
            forall|k: int| 0 <= k < i ==> #[trigger] out@[k]@ == quantify_role(roles@[k]@, names),
        decreases roles@.len() - i,
    {
        if contains_string(quantified_roles, &roles[i].role_name) {
            out.push(roles[i].convert_to_quantified());
        } else {
            out.push(roles[i].duplicate());
        }
        i = i + 1;
    }
    let r = Predicate { relation: proposition.predicate.relation.duplicate(), roles: out };
    assert(r@.roles =~= quantify(proposition@, names).roles);
    r
}

/// Binds each premise role of `role_map` to the argument that the conclusion
/// gives its conclusion role.
pub fn extract_premise_role_map(conclusion: &Proposition, role_map: &RoleMap) -> (r: Result<
    Vec<LabeledArgument>,
    GroundingError,
>)
    ensures
        r matches Ok(b) ==> bind_roles(conclusion@.roles, role_map@) == Some(labeled_views(b@)),
        r matches Err(e) ==> bind_roles(conclusion@.roles, role_map@) is None && e
            == GroundingError::RoleNotInConclusion,
{
    let ghost m = role_map@;
    let ghost c = conclusion@.roles;
    let mut out: Vec<LabeledArgument> = Vec::new();
    let mut i: usize = 0;
    assert(m.skip(0) =~= m);
    while i < role_map.role_map.len()
        invariant
            i <= role_map.role_map@.len(),
            m == role_map@,
            c == conclusion@.roles,
            bind_roles(c, m) == match bind_roles(c, m.skip(i as int)) {
                Some(rest) => Some(labeled_views(out@) + rest),
                None => None,
            },
        decreases role_map.role_map@.len() - i,
    {
        let pair = &role_map.role_map[i];
        assert(m.skip(i as int).drop_first() =~= m.skip(i + 1));
        match find_role(&conclusion.predicate.roles, &pair.1) {
            Some(a) => {
                let ghost before = labeled_views(out@);
                out.push(LabeledArgument { role_name: pair.0.clone(), argument: a });
                proof {
                    assert(labeled_views(out@) =~= before + seq![labeled_views(out@).last()]);
                    match bind_roles(c, m.skip(i + 1)) {
                        Some(rest) => {
                            assert(labeled_views(out@) + rest =~= before + (seq![
                                labeled_views(out@).last(),
                            ] + rest));
                        },
                        None => {},
                    }
                }
            },
            None => {
                return Err(GroundingError::RoleNotInConclusion);
            },
        }
        i = i + 1;
    }
    assert(m.skip(m.len() as int) =~= Seq::<(Seq<char>, Seq<char>)>::empty());
    assert(labeled_views(out@) + Seq::<LabeledView>::empty() =~= labeled_views(out@));
    Ok(out)
}

/// Grounds a premise term with the bindings: constants stay, each variable
/// takes the constant bound to its role.
pub fn convert_to_proposition(predicate: &Predicate, bindings: &Vec<LabeledArgument>) -> (r: Result<
    Proposition,
    GroundingError,
>)
    ensures
        r matches Ok(p) ==> ground_predicate(predicate@, labeled_views(bindings@)) == Some(p@)
            && is_grounded(p@),
        r matches Err(e) ==> ground_predicate(predicate@, labeled_views(bindings@)) is None && e
            == GroundingError::UnboundRole,
{
    let ghost roles = predicate@.roles;
    let ghost b = labeled_views(bindings@);
    let mut out: Vec<LabeledArgument> = Vec::new();
    let mut i: usize = 0;
    assert(roles.skip(0) =~= roles);
    while i < predicate.roles.len()
        invariant
            i <= predicate.roles@.len(),
            roles == predicate@.roles,
            b == labeled_views(bindings@),
            ground_roles(roles, b) == match ground_roles(roles.skip(i as int), b) {
                Some(rest) => Some(labeled_views(out@) + rest),
                None => None,
            },
        decreases predicate.roles@.len() - i,
    {
        let role = &predicate.roles[i];
        assert(roles.skip(i as int).drop_first() =~= roles.skip(i + 1));
        let ghost before = labeled_views(out@);
        if role.argument.is_constant() {
            out.push(role.duplicate());
        } else {
            match find_role(bindings, &role.role_name) {
                Some(a) => {
                    if a.is_constant() {
                        out.push(LabeledArgument { role_name: role.role_name.clone(), argument: a });
                    } else {
                        return Err(GroundingError::UnboundRole);
                    }
                },
                None => {
                    return Err(GroundingError::UnboundRole);
                },
            }
        }
        proof {
            assert(labeled_views(out@) =~= before + seq![labeled_views(out@).last()]);
            match ground_roles(roles.skip(i + 1), b) {
                Some(rest) => {
                    assert(labeled_views(out@) + rest =~= before + (seq![labeled_views(out@).last()]
                        + rest));
                },
                None => {},
            }
        }
        i = i + 1;
    }
    assert(roles.skip(roles.len() as int) =~= Seq::<LabeledView>::empty());
    assert(labeled_views(out@) + Seq::<LabeledView>::empty() =~= labeled_views(out@));
    proof {
        lemma_ground_roles_constant(roles, b);
    }
    Ok(Proposition { predicate: Predicate { relation: predicate.relation.duplicate(), roles: out } })
}

} // verus!

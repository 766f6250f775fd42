//! Combinatorics of role selection, the search keys under which rules are
//! indexed, and backward grounding of rules against a conclusion.
use crate::graph::{FactorView, PropositionFactor};
use crate::index::{links_for, RuleIndex};
use crate::objects::{
    existence_name, existence_predicate_name, implication_views, predicate_text, quantified, is_grounded, domain_of,
    GroupRoleMap, ImplicationFactor, ImplicationView, LabeledArgument, LabeledView, Predicate,
    PredicateGroup, PredicateView, Proposition, PropositionGroup, RoleMap,
};
use crate::ops::{
    bind_roles, convert_to_proposition, convert_to_quantified, extract_premise_role_map,
    ground_predicate, quantify, GroundingError,
};
use crate::text::views;
use vstd::prelude::*;

verus! {

/// The `k`-element subsequences of `s`, in lexicographic order of positions.
pub open spec fn choose_from(s: Seq<usize>, k: nat) -> Seq<Seq<usize>>
    decreases s.len(),
{
    if k == 0 {
        seq![Seq::empty()]
    } else if s.len() == 0 {
        Seq::empty()
    } else {
        choose_from(s.drop_first(), (k - 1) as nat).map_values(|c: Seq<usize>| seq![s[0]] + c)
            + choose_from(s.drop_first(), k)
    }
}

/// The indices `0, 1, ..., n - 1`.
pub open spec fn range_seq(n: nat) -> Seq<usize> {
    Seq::new(n, |i: int| i as usize)
}

pub open spec fn index_views(v: Seq<Vec<usize>>) -> Seq<Seq<usize>> {
    v.map_values(|c: Vec<usize>| c@)
}

/// The elements of `roles` whose positions are listed in `idx`, in order.
pub open spec fn pick(roles: Seq<Seq<char>>, idx: Seq<usize>) -> Seq<Seq<char>>
    decreases roles.len(),
{
    if roles.len() == 0 {
        Seq::empty()
    } else {
        pick(roles.drop_last(), idx) + if idx.contains((roles.len() - 1) as usize) {
            seq![roles.last()]
        } else {
            Seq::empty()
        }
    }
}

/// The role names of a predicate, in stored order.
pub open spec fn role_names_of(p: PredicateView) -> Seq<Seq<char>> {
    p.roles.map_values(|l: LabeledView| l.role)
}

/// The ways of quantifying one or two role slots of a predicate.
pub open spec fn search_configurations(p: PredicateView) -> Seq<Seq<usize>> {
    choose_from(range_seq(p.roles.len()), 1) + choose_from(range_seq(p.roles.len()), 2)
}

/// The search keys of a proposition: each one- or two-role quantification of it.
pub open spec fn search_keys(p: PredicateView) -> Seq<PredicateView> {
    search_configurations(p).map_values(|c: Seq<usize>| quantify(p, pick(role_names_of(p), c)))
}

/// Grounds the premise terms through their role maps against the conclusion's
/// roles; the error is that of the first term that fails.
pub open spec fn ground_terms(
    conclusion: Seq<LabeledView>,
    terms: Seq<PredicateView>,
    maps: Seq<Seq<(Seq<char>, Seq<char>)>>,
) -> Result<Seq<PredicateView>, GroundingError>
    decreases terms.len(),
{
    if terms.len() == 0 || maps.len() == 0 {
        Ok(Seq::empty())
    } else {
        match bind_roles(conclusion, maps[0]) {
            None => Err(GroundingError::RoleNotInConclusion),
            Some(b) => match ground_predicate(terms[0], b) {
                None => Err(GroundingError::UnboundRole),
                Some(t) => match ground_terms(conclusion, terms.drop_first(), maps.drop_first()) {
                    Ok(rest) => Ok(seq![t] + rest),
                    Err(e) => Err(e),
                },
            },
        }
    }
}

/// Grounding of a rule against a conclusion: its premise terms as propositions.
pub open spec fn ground_rule(conclusion: PredicateView, rule: ImplicationView) -> Result<
    Seq<PredicateView>,
    GroundingError,
> {
    if rule.premise.len() != rule.maps.len() {
        Err(GroundingError::RoleMapCountMismatch)
    } else {
        ground_terms(conclusion.roles, rule.premise, rule.maps)
    }
}

/// The factors of the rules that ground against the conclusion; the others are skipped.
pub open spec fn ground_all(conclusion: PredicateView, rules: Seq<ImplicationView>) -> Seq<
    FactorView,
>
    decreases rules.len(),
{
    if rules.len() == 0 {
        Seq::empty()
    } else {
        (match ground_rule(conclusion, rules[0]) {
            Ok(terms) => seq![FactorView { premise: terms, conclusion, inference: rules[0] }],
            Err(_) => Seq::empty(),
        }) + ground_all(conclusion, rules.drop_first())
    }
}

/// For each search key in turn, the grounded factors of the rules indexed under it.
pub open spec fn back_factors(
    conclusion: PredicateView,
    keys: Seq<PredicateView>,
    rules: Seq<ImplicationView>,
) -> Seq<FactorView>
    decreases keys.len(),
{
    if keys.len() == 0 {
        Seq::empty()
    } else {
        ground_all(conclusion, links_for(predicate_text(keys[0]), rules)) + back_factors(
            conclusion,
            keys.drop_first(),
            rules,
        )
    }
}

fn prefixed(x: usize, c: &Vec<usize>) -> (r: Vec<usize>)
    ensures
        r@ == seq![x] + c@,
{
    let mut out: Vec<usize> = Vec::new();
    out.push(x);
    let mut i: usize = 0;
    while i < c.len()
        invariant
            i <= c@.len(),
            out@ =~= seq![x] + c@.take(i as int),
        decreases c@.len() - i,
    {
        out.push(c[i]);
        i = i + 1;
        assert(out@ =~= seq![x] + c@.take(i as int));
    }
    assert(c@.take(c@.len() as int) =~= c@);
    out
}

fn combine_from(input: &Vec<usize>, start: usize, k: usize) -> (r: Vec<Vec<usize>>)
    requires
        start <= input@.len(),
    ensures
        index_views(r@) == choose_from(input@.skip(start as int), k as nat),
    decreases input@.len() - start,
{
    if k == 0 {
        let r: Vec<Vec<usize>> = vec![Vec::new()];
        assert(index_views(r@) =~= seq![Seq::<usize>::empty()]);
        return r;
    }
    if start == input.len() {
        let r: Vec<Vec<usize>> = Vec::new();
        assert(input@.skip(start as int) =~= Seq::<usize>::empty());
        assert(index_views(r@) =~= Seq::<Seq<usize>>::empty());
        return r;
    }
    let ghost s = input@.skip(start as int);
    assert(s.drop_first() =~= input@.skip(start + 1));
    let with = combine_from(input, start + 1, k - 1);
    let mut without = combine_from(input, start + 1, k);
    let x = input[start];
    let mut out: Vec<Vec<usize>> = Vec::new();
    let mut i: usize = 0;
    while i < with.len()
        invariant
            i <= with@.len(),
            out@.len() == i,
            x == s[0],
            forall|j: int| 0 <= j < i ==> #[trigger] out@[j]@ == seq![x] + with@[j]@,
        decreases with@.len() - i,
    {
        out.push(prefixed(x, &with[i]));
        i = i + 1;
    }
    let ghost first = index_views(out@);
    assert(first =~= index_views(with@).map_values(|c: Seq<usize>| seq![s[0]] + c));
    out.append(&mut without);
    assert(index_views(out@) =~= first + choose_from(s.drop_first(), k as nat));
    out
}

/// All `k`-element combinations of the elements of `input_array`, in lexicographic
/// order of positions.
fn combine(input_array: &Vec<usize>, k: usize) -> (r: Vec<Vec<usize>>)
    ensures
        index_views(r@) == choose_from(input_array@, k as nat),
{
    assert(input_array@.skip(0) =~= input_array@);
    combine_from(input_array, 0, k)
}

/// All `k`-element subsets of `0..n`, each in increasing order, in lexicographic order.
fn compute_choose_configurations(n: usize, k: usize) -> (r: Vec<Vec<usize>>)
    ensures
        index_views(r@) == choose_from(range_seq(n as nat), k as nat),
{
    let mut input_array: Vec<usize> = Vec::new();
    let mut i: usize = 0;
    while i < n
        invariant
            i <= n,
            input_array@ =~= range_seq(i as nat),
        decreases n - i,
    {
        input_array.push(i);
        i = i + 1;
    }
    combine(&input_array, k)
}

fn contains_index(indices: &Vec<usize>, i: usize) -> (r: bool)
    ensures
        r == indices@.contains(i),
{
    let mut j: usize = 0;
    while j < indices.len()
        invariant
            j <= indices@.len(),
            forall|m: int| 0 <= m < j ==> indices@[m] != i,
        decreases indices@.len() - j,
    {
        if indices[j] == i {
            return true;
        }
        j = j + 1;
    }
    false
}

/// The roles at the given positions, in their order in `roles`.
fn extract_roles_from_indices(roles: &Vec<String>, indices: &Vec<usize>) -> (r: Vec<String>)
    ensures
        views(r@) == pick(views(roles@), indices@),
{
    let ghost all = views(roles@);
    let mut out: Vec<String> = Vec::new();
    let mut i: usize = 0;
    assert(all.take(0) =~= Seq::<Seq<char>>::empty());
    while i < roles.len()
        invariant
            i <= roles@.len(),
            all == views(roles@),
            views(out@) == pick(all.take(i as int), indices@),
        decreases roles@.len() - i,
    {
        let ghost before = views(out@);
        assert(all.take(i + 1).drop_last() =~= all.take(i as int));
        if contains_index(indices, i) {
            out.push(roles[i].clone());
            assert(views(out@) =~= before + seq![all[i as int]]);
        } else {
            assert(views(out@) =~= before + Seq::<Seq<char>>::empty());
        }
        i = i + 1;
    }
    assert(all.take(roles@.len() as int) =~= all);
    out
}

/// The search keys of a proposition: for each way of choosing one role, then
/// each way of choosing two, the proposition with those roles quantified.
pub fn compute_search_predicates(proposition: &Proposition) -> (r: Vec<Predicate>)
    ensures
        r@.len() == search_keys(proposition@).len(),
        forall|j: int| 0 <= j < r@.len() ==> #[trigger] r@[j]@ == search_keys(proposition@)[j],
{
    let num_roles = proposition.predicate.roles.len();
    let mut configurations = compute_choose_configurations(num_roles, 1);
    let mut configurations2 = compute_choose_configurations(num_roles, 2);
    let ghost c1 = index_views(configurations@);
    configurations.append(&mut configurations2);
    let ghost configs = index_views(configurations@);
    assert(configs =~= search_configurations(proposition@));
    let roles = proposition.predicate.role_names();
    assert(views(roles@) =~= role_names_of(proposition@));
    let mut result: Vec<Predicate> = Vec::new();
    let mut i: usize = 0;
    while i < configurations.len()
        invariant
            i <= configurations@.len(),
            configs == index_views(configurations@),
            configs == search_configurations(proposition@),
            views(roles@) == role_names_of(proposition@),
            result@.len() == i,
            forall|j: int| 0 <= j < i ==> #[trigger] result@[j]@ == search_keys(proposition@)[j],
        decreases configurations@.len() - i,
    {
        let quantified_roles = extract_roles_from_indices(&roles, &configurations[i]);
        let quantified = convert_to_quantified(proposition, &quantified_roles);
        result.push(quantified);
        i = i + 1;
    }
    result
}

/// Grounds one rule against a conclusion: each premise term is grounded with
/// the conclusion's arguments projected through the term's role map.
pub fn ground_implication(conclusion: &Proposition, implication: &ImplicationFactor) -> (r: Result<
    PropositionFactor,
    GroundingError,
>)
    ensures
        r matches Ok(f) ==> ground_rule(conclusion@, implication@) == Ok::<
            Seq<PredicateView>,
            GroundingError,
        >(f@.premise) && f@.conclusion == conclusion@ && f@.inference == implication@ && forall|t: int|
            0 <= t < f@.premise.len() ==> is_grounded(#[trigger] f@.premise[t]),
        r matches Err(e) ==> ground_rule(conclusion@, implication@) == Err::<
            Seq<PredicateView>,
            GroundingError,
        >(e),
{
    let terms = &implication.premise.terms;
    let maps = &implication.role_maps.role_maps;
    if terms.len() != maps.len() {
        return Err(GroundingError::RoleMapCountMismatch);
    }
    let ghost ts = implication@.premise;
    let ghost ms = implication@.maps;
    let ghost c = conclusion@.roles;
    let mut out: Vec<Proposition> = Vec::new();
    let mut i: usize = 0;
    assert(ts.skip(0) =~= ts);
    assert(ms.skip(0) =~= ms);
    while i < terms.len()
        invariant
            i <= terms@.len(),
            terms@.len() == maps@.len(),
            terms@ == implication.premise.terms@,
            maps@ == implication.role_maps.role_maps@,
            ts == implication@.premise,
            ms == implication@.maps,
            ts.len() == terms@.len(),
            ms.len() == maps@.len(),
            c == conclusion@.roles,
            forall|k: int| 0 <= k < out@.len() ==> is_grounded(#[trigger] out@[k]@),
            ground_terms(c, ts, ms) == match ground_terms(c, ts.skip(i as int), ms.skip(i as int)) {
                Ok(rest) => Ok(PropositionGroup { terms: out }@ + rest),
                Err(e) => Err(e),
            },
        decreases terms@.len() - i,
    {
        assert(ts.skip(i as int).drop_first() =~= ts.skip(i + 1));
        assert(ms.skip(i as int).drop_first() =~= ms.skip(i + 1));
        assert(ts[i as int] == terms@[i as int]@);
        assert(ms[i as int] == maps@[i as int]@);
        assert(ts.skip(i as int)[0] == ts[i as int]);
        assert(ms.skip(i as int)[0] == ms[i as int]);
        let bindings = match extract_premise_role_map(conclusion, &maps[i]) {
            Ok(b) => b,
            Err(e) => {
                return Err(e);
            },
        };
        let term = match convert_to_proposition(&terms[i], &bindings) {
            Ok(t) => t,
            Err(e) => {
                return Err(e);
            },
        };
        let ghost before = PropositionGroup { terms: out }@;
        let ghost old_out = out@;
        out.push(term);
        assert forall|k: int| 0 <= k < out@.len() implies is_grounded(#[trigger] out@[k]@) by {
            if k < old_out.len() {
                assert(out@[k] == old_out[k]);
            }
        }
        proof {
            let now = PropositionGroup { terms: out }@;
            assert(now =~= before + seq![now.last()]);
            match ground_terms(c, ts.skip(i + 1), ms.skip(i + 1)) {
                Ok(rest) => {
                    assert(now + rest =~= before + (seq![now.last()] + rest));
                },
                Err(_) => {},
            }
        }
        i = i + 1;
    }
    let premise = PropositionGroup { terms: out };
    assert(ts.skip(ts.len() as int) =~= Seq::<PredicateView>::empty());
    assert(premise@ + Seq::<PredicateView>::empty() =~= premise@);
    Ok(PropositionFactor {
        premise,
        conclusion: conclusion.duplicate(),
        inference: implication.duplicate(),
    })
}

/// The factors that could conclude `conclusion`: for each search key, each rule
/// indexed under it, grounded against the conclusion. A rule that fails to
/// ground is skipped.
pub fn extract_backimplications_from_proposition(index: &RuleIndex, conclusion: &Proposition) -> (r:
    Vec<PropositionFactor>)
    ensures
        r@.map_values(|f: PropositionFactor| f@) == back_factors(
            conclusion@,
            search_keys(conclusion@),
            implication_views(index.implications@),
        ),
{
    let search_keys = compute_search_predicates(conclusion);
    let ghost keys = search_keys@.map_values(|p: Predicate| p@);
    let ghost rules = implication_views(index.implications@);
    assert(keys =~= crate::grounding::search_keys(conclusion@));
    let mut out: Vec<PropositionFactor> = Vec::new();
    let mut i: usize = 0;
    assert(keys.skip(0) =~= keys);
    while i < search_keys.len()
        invariant
            i <= search_keys@.len(),
            keys == search_keys@.map_values(|p: Predicate| p@),
            rules == implication_views(index.implications@),
            back_factors(conclusion@, keys, rules) == out@.map_values(|f: PropositionFactor| f@)
                + back_factors(conclusion@, keys.skip(i as int), rules),
        decreases search_keys@.len() - i,
    {
        assert(keys.skip(i as int).drop_first() =~= keys.skip(i + 1));
        let links = index.predicate_backward_links(&search_keys[i]);
        let ghost ls = implication_views(links@);
        let mut j: usize = 0;
        let ghost base = out@.map_values(|f: PropositionFactor| f@);
        assert(ls.skip(0) =~= ls);
        assert(base + ground_all(conclusion@, ls) =~= base + ground_all(conclusion@, ls.skip(0)));
        while j < links.len()
            invariant
                j <= links@.len(),
                ls == implication_views(links@),
                base + ground_all(conclusion@, ls) == out@.map_values(|f: PropositionFactor| f@)
                    + ground_all(conclusion@, ls.skip(j as int)),
            decreases links@.len() - j,
        {
            assert(ls.skip(j as int).drop_first() =~= ls.skip(j + 1));
            assert(ls.skip(j as int)[0] == links@[j as int]@);
            let ghost before = out@.map_values(|f: PropositionFactor| f@);
            match ground_implication(conclusion, &links[j]) {
                Ok(f) => {
                    out.push(f);
                    assert(out@.map_values(|f: PropositionFactor| f@) =~= before + seq![
                        out@.last()@,
                    ]);
                },
                Err(_) => {},
            }
            proof {
                let now = out@.map_values(|f: PropositionFactor| f@);
                let rest = ground_all(conclusion@, ls.skip(j + 1));
                match ground_rule(conclusion@, links@[j as int]@) {
                    Ok(_) => {
                        assert(now + rest =~= before + (seq![now.last()] + rest));
                    },
                    Err(_) => {
                        assert(now =~= before);
                        assert(Seq::<FactorView>::empty() + rest =~= rest);
                    },
                }
            }
            j = j + 1;
        }
        proof {
            assert(ls.skip(ls.len() as int) =~= Seq::<ImplicationView>::empty());
            let now = out@.map_values(|f: PropositionFactor| f@);
            assert(now + Seq::<FactorView>::empty() =~= now);
            let tail = back_factors(conclusion@, keys.skip(i + 1), rules);
            assert(base + (ground_all(conclusion@, ls) + tail) =~= (base + ground_all(
                conclusion@,
                ls,
            )) + tail);
        }
        i = i + 1;
    }
    proof {
        assert(keys.skip(keys.len() as int) =~= Seq::<PredicateView>::empty());
        let now = out@.map_values(|f: PropositionFactor| f@);
        assert(now + Seq::<FactorView>::empty() =~= now);
    }
    out
}

/// The rule `exist(roles quantified) => conclusion` with each role mapped to itself.
pub fn extract_existence_factor_for_predicate(conclusion: &Predicate) -> (r: ImplicationFactor)
    ensures
        r@.premise.len() == 1,
        r@.premise[0].relation.name == existence_name(),
        r@.premise[0].relation.types == r@.premise[0].roles.map_values(
            |l: LabeledView| domain_of(l.arg),
        ),
        r@.premise[0].roles.len() == conclusion@.roles.len(),
        forall|i: int|
            0 <= i < conclusion@.roles.len() ==> #[trigger] r@.premise[0].roles[i] == quantified(
                conclusion@.roles[i],
            ),
        r@.conclusion == conclusion@,
        r@.maps.len() == 1,
        r@.maps[0].len() == conclusion@.roles.len(),
        forall|i: int|
            0 <= i < conclusion@.roles.len() ==> #[trigger] r@.maps[0][i] == (
                conclusion@.roles[i].role,
                conclusion@.roles[i].role,
            ),
{
    let (premise, role_map) = existence_premise(&conclusion.roles);
    let premise_group = PredicateGroup::new(vec![premise]);
    let mapping_group = GroupRoleMap::new(vec![role_map]);
    let r = ImplicationFactor {
        premise: premise_group,
        role_maps: mapping_group,
        conclusion: conclusion.duplicate(),
    };
    assert(r@.premise[0] == premise@);
    assert(r@.maps[0] == role_map@);
    r
}

/// The rule `exist(roles quantified) => basis(roles quantified)`.
pub fn extract_existence_factor_for_proposition(basis: &Proposition) -> (r: ImplicationFactor)
    ensures
        r@.premise.len() == 1,
        r@.premise[0].relation.name == existence_name(),
        r@.premise[0].relation.types == r@.premise[0].roles.map_values(
            |l: LabeledView| domain_of(l.arg),
        ),
        r@.premise[0].roles == r@.conclusion.roles,
        r@.conclusion.relation == basis@.relation,
        r@.conclusion.roles.len() == basis@.roles.len(),
        forall|i: int|
            0 <= i < basis@.roles.len() ==> #[trigger] r@.conclusion.roles[i] == quantified(
                basis@.roles[i],
            ),
        r@.maps.len() == 1,
        r@.maps[0].len() == basis@.roles.len(),
        forall|i: int|
            0 <= i < basis@.roles.len() ==> #[trigger] r@.maps[0][i] == (
                basis@.roles[i].role,
                basis@.roles[i].role,
            ),
{
    let (premise, role_map) = existence_premise(&basis.predicate.roles);
    let conclusion = Predicate::new_from_relation(
        basis.predicate.relation.duplicate(),
        crate::objects::duplicate_roles(&premise.roles),
    );
    let premise_group = PredicateGroup::new(vec![premise]);
    let mapping_group = GroupRoleMap::new(vec![role_map]);
    let r = ImplicationFactor { premise: premise_group, role_maps: mapping_group, conclusion };
    assert(r@.premise[0] == premise@);
    assert(r@.maps[0] == role_map@);
    r
}

/// The existence premise over quantified copies of `roles`, and the identity role map.
fn existence_premise(roles: &Vec<LabeledArgument>) -> (r: (Predicate, RoleMap))
    ensures
        r.0@.relation.name == existence_name(),
        r.0@.relation.types == r.0@.roles.map_values(|l: LabeledView| domain_of(l.arg)),
        r.0@.roles.len() == roles@.len(),
        forall|i: int|
            0 <= i < roles@.len() ==> #[trigger] r.0@.roles[i] == quantified(roles@[i]@),
        r.1@.len() == roles@.len(),
        forall|i: int|
            0 <= i < roles@.len() ==> #[trigger] r.1@[i] == (roles@[i]@.role, roles@[i]@.role),
{
    let mut new_roles: Vec<LabeledArgument> = Vec::new();
    let mut mapping: Vec<(String, String)> = Vec::new();
    let mut i: usize = 0;
    while i < roles.len()
        invariant
            i <= roles@.len(),
            new_roles@.len() == i,
            mapping@.len() == i,
            forall|k: int| 0 <= k < i ==> #[trigger] new_roles@[k]@ == quantified(roles@[k]@),
            forall|k: int|
                0 <= k < i ==> #[trigger] mapping@[k].0@ == roles@[k]@.role && mapping@[k].1@
                    == roles@[k]@.role,
        decreases roles@.len() - i,
    {
        new_roles.push(roles[i].convert_to_quantified());
        mapping.push((roles[i].role_name.clone(), roles[i].role_name.clone()));
        i = i + 1;
    }
    let premise = Predicate::new_from_just_name(existence_predicate_name(), new_roles);
    (premise, RoleMap::new(mapping))
}

} // verus!

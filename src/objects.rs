//! The logical schema: relations, arguments, predicates, propositions,
//! their conjunctions, role maps and implication rules, each with a
//! mathematical view and a canonical text key.
use crate::text::{
    join_strings, join_text, lemma_map_values_multiset, lemma_text_order_total, sort_strings,
    text_order, views,
};
use vstd::seq_lib::lemma_sorted_unique;
use vstd::prelude::*;

verus! {

/// View of an argument: a constant `(domain, entity)` or a variable of a domain.
pub enum ArgumentView {
    Constant(Seq<char>, Seq<char>),
    Variable(Seq<char>),
}

/// View of a role-labeled argument.
pub struct LabeledView {
    pub role: Seq<char>,
    pub arg: ArgumentView,
}

/// View of a relation: its name and the domains of its slots.
pub struct RelationView {
    pub name: Seq<char>,
    pub types: Seq<Seq<char>>,
}

/// View of a predicate: its relation and its labeled arguments in stored order.
pub struct PredicateView {
    pub relation: RelationView,
    pub roles: Seq<LabeledView>,
}

#[derive(Clone, Debug)]
pub struct ConstantArgument {
    pub domain: String,
    pub entity_id: String,
}

#[derive(Clone, Debug)]
pub struct VariableArgument {
    pub domain: String,
}

#[derive(Clone, Debug)]
pub enum Argument {
    Constant(ConstantArgument),
    Variable(VariableArgument),
}

#[derive(Clone, Debug)]
pub struct LabeledArgument {
    pub role_name: String,
    pub argument: Argument,
}

#[derive(Clone, Debug)]
pub struct Relation {
    pub relation_name: String,
    pub types: Vec<VariableArgument>,
}

#[derive(Clone, Debug)]
pub struct Predicate {
    pub relation: Relation,
    pub roles: Vec<LabeledArgument>,
}

/// A fully grounded predicate.
#[derive(Clone, Debug)]
pub struct Proposition {
    pub predicate: Predicate,
}

/// A conjunction of predicates: the premise of a rule.
#[derive(Clone, Debug)]
pub struct PredicateGroup {
    pub terms: Vec<Predicate>,
}

/// A conjunction of propositions: a grounded premise.
#[derive(Clone, Debug)]
pub struct PropositionGroup {
    pub terms: Vec<Proposition>,
}

/// Pairs `(premise role, conclusion role)`.
#[derive(Clone, Debug)]
pub struct RoleMap {
    pub role_map: Vec<(String, String)>,
}

/// One role map per premise term.
#[derive(Clone, Debug)]
pub struct GroupRoleMap {
    pub role_maps: Vec<RoleMap>,
}

/// A rule: the premise conjunction implies the conclusion.
#[derive(Clone, Debug)]
pub struct ImplicationFactor {
    pub premise: PredicateGroup,
    pub conclusion: Predicate,
    pub role_maps: GroupRoleMap,
}

/// View of a rule: premise terms, conclusion and one role map per term.
pub struct ImplicationView {
    pub premise: Seq<PredicateView>,
    pub conclusion: PredicateView,
    pub maps: Seq<Seq<(Seq<char>, Seq<char>)>>,
}

impl View for ImplicationFactor {
    type V = ImplicationView;

    open spec fn view(&self) -> ImplicationView {
        ImplicationView {
            premise: self.premise@,
            conclusion: self.conclusion@,
            maps: role_map_views(self.role_maps.role_maps@),
        }
    }
}

impl View for Argument {
    type V = ArgumentView;

    open spec fn view(&self) -> ArgumentView {
        match self {
            Argument::Constant(c) => ArgumentView::Constant(c.domain@, c.entity_id@),
            Argument::Variable(v) => ArgumentView::Variable(v.domain@),
        }
    }
}

impl View for LabeledArgument {
    type V = LabeledView;

    open spec fn view(&self) -> LabeledView {
        LabeledView { role: self.role_name@, arg: self.argument@ }
    }
}

impl View for Relation {
    type V = RelationView;

    open spec fn view(&self) -> RelationView {
        RelationView { name: self.relation_name@, types: domains_of(self.types@) }
    }
}

impl View for Predicate {
    type V = PredicateView;

    open spec fn view(&self) -> PredicateView {
        PredicateView { relation: self.relation@, roles: labeled_views(self.roles@) }
    }
}

impl View for Proposition {
    type V = PredicateView;

    open spec fn view(&self) -> PredicateView {
        self.predicate@
    }
}

impl View for PredicateGroup {
    type V = Seq<PredicateView>;

    open spec fn view(&self) -> Seq<PredicateView> {
        predicate_views(self.terms@)
    }
}

impl View for PropositionGroup {
    type V = Seq<PredicateView>;

    open spec fn view(&self) -> Seq<PredicateView> {
        proposition_views(self.terms@)
    }
}

impl View for RoleMap {
    type V = Seq<(Seq<char>, Seq<char>)>;

    open spec fn view(&self) -> Seq<(Seq<char>, Seq<char>)> {
        pair_views(self.role_map@)
    }
}

pub open spec fn domains_of(v: Seq<VariableArgument>) -> Seq<Seq<char>> {
    v.map_values(|a: VariableArgument| a.domain@)
}

pub open spec fn labeled_views(v: Seq<LabeledArgument>) -> Seq<LabeledView> {
    v.map_values(|a: LabeledArgument| a@)
}

pub open spec fn predicate_views(v: Seq<Predicate>) -> Seq<PredicateView> {
    v.map_values(|a: Predicate| a@)
}

pub open spec fn proposition_views(v: Seq<Proposition>) -> Seq<PredicateView> {
    v.map_values(|a: Proposition| a@)
}

pub open spec fn pair_views(v: Seq<(String, String)>) -> Seq<(Seq<char>, Seq<char>)> {
    v.map_values(|a: (String, String)| (a.0@, a.1@))
}

pub open spec fn implication_views(v: Seq<ImplicationFactor>) -> Seq<ImplicationView> {
    v.map_values(|a: ImplicationFactor| a@)
}

pub open spec fn role_map_views(v: Seq<RoleMap>) -> Seq<Seq<(Seq<char>, Seq<char>)>> {
    v.map_values(|a: RoleMap| a@)
}

/// The domain of an argument, constant or variable.
pub open spec fn domain_of(a: ArgumentView) -> Seq<char> {
    match a {
        ArgumentView::Constant(d, _) => d,
        ArgumentView::Variable(d) => d,
    }
}

/// A role with its argument replaced by a variable of the argument's domain.
pub open spec fn quantified(l: LabeledView) -> LabeledView {
    LabeledView { role: l.role, arg: ArgumentView::Variable(domain_of(l.arg)) }
}

/// Whether an argument is a constant.
pub open spec fn is_constant(a: ArgumentView) -> bool {
    a is Constant
}

/// A predicate all of whose arguments are constants.
pub open spec fn is_grounded(p: PredicateView) -> bool {
    forall|i: int| 0 <= i < p.roles.len() ==> is_constant(#[trigger] p.roles[i].arg)
}

/// Text of an argument: a constant's entity id, or `?` and a variable's domain.
pub open spec fn argument_text(a: ArgumentView) -> Seq<char> {
    match a {
        ArgumentView::Constant(_, e) => e,
        ArgumentView::Variable(d) => "?"@ + d,
    }
}

/// Text of a labeled argument: `role=argument`.
pub open spec fn labeled_text(l: LabeledView) -> Seq<char> {
    l.role + "="@ + argument_text(l.arg)
}

pub open spec fn role_texts(roles: Seq<LabeledView>) -> Seq<Seq<char>> {
    roles.map_values(|l: LabeledView| labeled_text(l))
}

/// Canonical key of a predicate: `name[r1,...,rn]` with the role texts in
/// lexicographic order, so that the order in which roles are stored does not matter.
pub open spec fn predicate_text(p: PredicateView) -> Seq<char> {
    p.relation.name + "["@ + join_text(role_texts(p.roles).sort_by(text_order()), ","@) + "]"@
}

/// Key of a conjunction: the terms' keys joined by `&`.
pub open spec fn group_text(g: Seq<PredicateView>) -> Seq<char> {
    join_text(g.map_values(|p: PredicateView| predicate_text(p)), "&"@)
}

/// Text of a role map: `premise=conclusion` pairs joined by `,`.
pub open spec fn role_map_text(m: Seq<(Seq<char>, Seq<char>)>) -> Seq<char> {
    join_text(m.map_values(|p: (Seq<char>, Seq<char>)| p.0 + "="@ + p.1), ","@)
}

/// Structural key of a rule: `premise->conclusion|maps`, the maps joined by `;`.
pub open spec fn implication_text(
    premise: Seq<PredicateView>,
    conclusion: PredicateView,
    maps: Seq<Seq<(Seq<char>, Seq<char>)>>,
) -> Seq<char> {
    group_text(premise) + "->"@ + predicate_text(conclusion) + "|"@ + join_text(
        maps.map_values(|m: Seq<(Seq<char>, Seq<char>)>| role_map_text(m)),
        ";"@,
    )
}

impl VariableArgument {
    pub fn duplicate(&self) -> (r: Self)
        ensures
            r.domain@ == self.domain@,
    {
        VariableArgument { domain: self.domain.clone() }
    }
}

impl ConstantArgument {
    pub fn duplicate(&self) -> (r: Self)
        ensures
            r.domain@ == self.domain@,
            r.entity_id@ == self.entity_id@,
    {
        ConstantArgument { domain: self.domain.clone(), entity_id: self.entity_id.clone() }
    }
}

impl Argument {
    pub fn duplicate(&self) -> (r: Self)
        ensures
            r@ == self@,
    {
        match self {
            Argument::Constant(c) => Argument::Constant(c.duplicate()),
            Argument::Variable(v) => Argument::Variable(v.duplicate()),
        }
    }

    pub fn is_constant(&self) -> (r: bool)
        ensures
            r == is_constant(self@),
    {
        match self {
            Argument::Constant(_) => true,
            Argument::Variable(_) => false,
        }
    }

    /// The domain of the argument, constant or variable.
    pub fn domain(&self) -> (r: String)
        ensures
            r@ == domain_of(self@),
    {
        match self {
            Argument::Constant(c) => c.domain.clone(),
            Argument::Variable(v) => v.domain.clone(),
        }
    }

    pub fn hash_string(&self) -> (r: String)
        ensures
            r@ == argument_text(self@),
    {
        match self {
            Argument::Constant(c) => c.entity_id.clone(),
            Argument::Variable(v) => String::from_str("?").concat(v.domain.as_str()),
        }
    }
}

impl LabeledArgument {
    pub fn duplicate(&self) -> (r: Self)
        ensures
            r@ == self@,
    {
        LabeledArgument { role_name: self.role_name.clone(), argument: self.argument.duplicate() }
    }

    pub fn hash_string(&self) -> (r: String)
        ensures
            r@ == labeled_text(self@),
    {
        let a = self.argument.hash_string();
        self.role_name.clone().concat("=").concat(a.as_str())
    }

    /// The same role with its argument replaced by a variable of the argument's domain.
    pub fn convert_to_quantified(&self) -> (r: Self)
        ensures
            r@ == quantified(self@),
    {
        LabeledArgument {
            role_name: self.role_name.clone(),
            argument: Argument::Variable(VariableArgument { domain: self.argument.domain() }),
        }
    }
}

/// Copies a vector of labeled arguments.
pub fn duplicate_roles(v: &Vec<LabeledArgument>) -> (r: Vec<LabeledArgument>)
    ensures
        labeled_views(r@) == labeled_views(v@),
{
    let mut out: Vec<LabeledArgument> = Vec::new();
    let mut i: usize = 0;
    while i < v.len()
        invariant
            i <= v@.len(),
            out@.len() == i,
            forall|k: int| 0 <= k < i ==> #[trigger] out@[k]@ == v@[k]@,
        decreases v@.len() - i,
    {
        out.push(v[i].duplicate());
        i = i + 1;
    }
    assert(labeled_views(out@) =~= labeled_views(v@));
    out
}

impl Relation {
    pub fn new(relation_name: String, types: Vec<VariableArgument>) -> (r: Self)
        ensures
            r.relation_name == relation_name,
            r.types == types,
    {
        Relation { relation_name, types }
    }

    pub fn duplicate(&self) -> (r: Self)
        ensures
            r@ == self@,
    {
        let mut types: Vec<VariableArgument> = Vec::new();
        let mut i: usize = 0;
        while i < self.types.len()
            invariant
                i <= self.types@.len(),
                types@.len() == i,
                forall|k: int| 0 <= k < i ==> #[trigger] types@[k].domain@ == self.types@[k].domain@,
            decreases self.types@.len() - i,
        {
            types.push(self.types[i].duplicate());
            i = i + 1;
        }
        assert(domains_of(types@) =~= domains_of(self.types@));
        Relation { relation_name: self.relation_name.clone(), types }
    }
}

/// Role texts of a vector of labeled arguments, in stored order.
fn role_strings(roles: &Vec<LabeledArgument>) -> (r: Vec<String>)
    ensures
        views(r@) == role_texts(labeled_views(roles@)),
{
    let mut out: Vec<String> = Vec::new();
    let mut i: usize = 0;
    while i < roles.len()
        invariant
            i <= roles@.len(),
            out@.len() == i,
            forall|k: int| 0 <= k < i ==> #[trigger] out@[k]@ == labeled_text(roles@[k]@),
        decreases roles@.len() - i,
    {
        out.push(roles[i].hash_string());
        i = i + 1;
    }
    assert(views(out@) =~= role_texts(labeled_views(roles@)));
    out
}

impl Predicate {
    pub fn new_from_relation(relation: Relation, roles: Vec<LabeledArgument>) -> (r: Self)
        ensures
            r.relation == relation,
            r.roles == roles,
    {
        Predicate { relation, roles }
    }

    /// A predicate over a relation that has only a name: its slot domains are
    /// those of the given arguments.
    pub fn new_from_just_name(relation_name: String, roles: Vec<LabeledArgument>) -> (r: Self)
        ensures
            r@.relation.name == relation_name@,
            r@.relation.types == labeled_views(roles@).map_values(|l: LabeledView| domain_of(l.arg)),
            r@.roles == labeled_views(roles@),
    {
        let mut types: Vec<VariableArgument> = Vec::new();
        let mut i: usize = 0;
        while i < roles.len()
            invariant
                i <= roles@.len(),
                types@.len() == i,
                forall|k: int| 0 <= k < i ==> #[trigger] types@[k].domain@ == domain_of(roles@[k]@.arg),
            decreases roles@.len() - i,
        {
            types.push(VariableArgument { domain: roles[i].argument.domain() });
            i = i + 1;
        }
        let r = Predicate { relation: Relation { relation_name, types }, roles };
        assert(r@.relation.types =~= labeled_views(roles@).map_values(|l: LabeledView| domain_of(l.arg)));
        r
    }

    pub fn duplicate(&self) -> (r: Self)
        ensures
            r@ == self@,
    {
        Predicate { relation: self.relation.duplicate(), roles: duplicate_roles(&self.roles) }
    }

    pub fn roles(&self) -> (r: Vec<LabeledArgument>)
        ensures
            labeled_views(r@) == labeled_views(self.roles@),
    {
        duplicate_roles(&self.roles)
    }

    pub fn role_names(&self) -> (r: Vec<String>)
        ensures
            views(r@) == labeled_views(self.roles@).map_values(|l: LabeledView| l.role),
    {
        let mut out: Vec<String> = Vec::new();
        let mut i: usize = 0;
        while i < self.roles.len()
            invariant
                i <= self.roles@.len(),
                out@.len() == i,
                forall|k: int| 0 <= k < i ==> #[trigger] out@[k]@ == self.roles@[k].role_name@,
            decreases self.roles@.len() - i,
        {
            out.push(self.roles[i].role_name.clone());
            i = i + 1;
        }
        assert(views(out@) =~= labeled_views(self.roles@).map_values(|l: LabeledView| l.role));
        out
    }

    /// The canonical key of the predicate, independent of the order of its roles.
    pub fn hash_string(&self) -> (r: String)
        ensures
            r@ == predicate_text(self@),
    {
        let parts = sort_strings(role_strings(&self.roles));
        let joined = join_strings(&parts, ",");
        self.relation.relation_name.clone().concat("[").concat(joined.as_str()).concat("]")
    }
}

impl Proposition {
    pub fn from(predicate: Predicate) -> (r: Self)
        ensures
            r.predicate == predicate,
    {
        Proposition { predicate }
    }

    pub fn duplicate(&self) -> (r: Self)
        ensures
            r@ == self@,
    {
        Proposition { predicate: self.predicate.duplicate() }
    }

    pub fn hash_string(&self) -> (r: String)
        ensures
            r@ == predicate_text(self@),
    {
        self.predicate.hash_string()
    }
}

/// Keys of a sequence of predicates.
pub open spec fn predicate_texts(g: Seq<PredicateView>) -> Seq<Seq<char>> {
    g.map_values(|p: PredicateView| predicate_text(p))
}

impl PredicateGroup {
    pub fn new(terms: Vec<Predicate>) -> (r: Self)
        ensures
            r.terms == terms,
    {
        PredicateGroup { terms }
    }

    pub fn duplicate(&self) -> (r: Self)
        ensures
            r@ == self@,
    {
        let mut terms: Vec<Predicate> = Vec::new();
        let mut i: usize = 0;
        while i < self.terms.len()
            invariant
                i <= self.terms@.len(),
                terms@.len() == i,
                forall|k: int| 0 <= k < i ==> #[trigger] terms@[k]@ == self.terms@[k]@,
            decreases self.terms@.len() - i,
        {
            terms.push(self.terms[i].duplicate());
            i = i + 1;
        }
        assert(predicate_views(terms@) =~= predicate_views(self.terms@));
        PredicateGroup { terms }
    }

    pub fn hash_string(&self) -> (r: String)
        ensures
            r@ == group_text(self@),
    {
        let mut parts: Vec<String> = Vec::new();
        let mut i: usize = 0;
        while i < self.terms.len()
            invariant
                i <= self.terms@.len(),
                parts@.len() == i,
                forall|k: int| 0 <= k < i ==> #[trigger] parts@[k]@ == predicate_text(self.terms@[k]@),
            decreases self.terms@.len() - i,
        {
            parts.push(self.terms[i].hash_string());
            i = i + 1;
        }
        assert(views(parts@) =~= predicate_texts(self@));
        join_strings(&parts, "&")
    }
}

impl PropositionGroup {
    pub fn new(terms: Vec<Proposition>) -> (r: Self)
        ensures
            r.terms == terms,
    {
        PropositionGroup { terms }
    }

    pub fn duplicate(&self) -> (r: Self)
        ensures
            r@ == self@,
    {
        let mut terms: Vec<Proposition> = Vec::new();
        let mut i: usize = 0;
        while i < self.terms.len()
            invariant
                i <= self.terms@.len(),
                terms@.len() == i,
                forall|k: int| 0 <= k < i ==> #[trigger] terms@[k]@ == self.terms@[k]@,
            decreases self.terms@.len() - i,
        {
            terms.push(self.terms[i].duplicate());
            i = i + 1;
        }
        assert(proposition_views(terms@) =~= proposition_views(self.terms@));
        PropositionGroup { terms }
    }

    pub fn hash_string(&self) -> (r: String)
        ensures
            r@ == group_text(self@),
    {
        let mut parts: Vec<String> = Vec::new();
        let mut i: usize = 0;
        while i < self.terms.len()
            invariant
                i <= self.terms@.len(),
                parts@.len() == i,
                forall|k: int| 0 <= k < i ==> #[trigger] parts@[k]@ == predicate_text(self.terms@[k]@),
            decreases self.terms@.len() - i,
        {
            parts.push(self.terms[i].hash_string());
            i = i + 1;
        }
        assert(views(parts@) =~= predicate_texts(self@));
        join_strings(&parts, "&")
    }
}

impl RoleMap {
    pub fn new(role_map: Vec<(String, String)>) -> (r: Self)
        ensures
            r.role_map == role_map,
    {
        RoleMap { role_map }
    }

    pub fn duplicate(&self) -> (r: Self)
        ensures
            r@ == self@,
    {
        let mut out: Vec<(String, String)> = Vec::new();
        let mut i: usize = 0;
        while i < self.role_map.len()
            invariant
                i <= self.role_map@.len(),
                out@.len() == i,
                forall|k: int| 0 <= k < i ==> #[trigger] out@[k].0@ == self.role_map@[k].0@ && out@[k].1@ == self.role_map@[k].1@,
            decreases self.role_map@.len() - i,
        {
            let pair = &self.role_map[i];
            out.push((pair.0.clone(), pair.1.clone()));
            i = i + 1;
        }
        assert(pair_views(out@) =~= pair_views(self.role_map@));
        RoleMap { role_map: out }
    }

    pub fn hash_string(&self) -> (r: String)
        ensures
            r@ == role_map_text(self@),
    {
        let ghost texts = self@.map_values(|p: (Seq<char>, Seq<char>)| p.0 + "="@ + p.1);
        let mut parts: Vec<String> = Vec::new();
        let mut i: usize = 0;
        while i < self.role_map.len()
            invariant
                i <= self.role_map@.len(),
                texts == self@.map_values(|p: (Seq<char>, Seq<char>)| p.0 + "="@ + p.1),
                parts@.len() == i,
                forall|k: int| 0 <= k < i ==> #[trigger] parts@[k]@ == texts[k],
            decreases self.role_map@.len() - i,
        {
            let pair = &self.role_map[i];
            parts.push(pair.0.clone().concat("=").concat(pair.1.as_str()));
            i = i + 1;
        }
        assert(views(parts@) =~= texts);
        join_strings(&parts, ",")
    }
}

impl GroupRoleMap {
    pub fn new(role_maps: Vec<RoleMap>) -> (r: Self)
        ensures
            r.role_maps == role_maps,
    {
        GroupRoleMap { role_maps }
    }

    pub fn duplicate(&self) -> (r: Self)
        ensures
            role_map_views(r.role_maps@) == role_map_views(self.role_maps@),
    {
        let mut out: Vec<RoleMap> = Vec::new();
        let mut i: usize = 0;
        while i < self.role_maps.len()
            invariant
                i <= self.role_maps@.len(),
                out@.len() == i,
                forall|k: int| 0 <= k < i ==> #[trigger] out@[k]@ == self.role_maps@[k]@,
            decreases self.role_maps@.len() - i,
        {
            out.push(self.role_maps[i].duplicate());
            i = i + 1;
        }
        assert(role_map_views(out@) =~= role_map_views(self.role_maps@));
        GroupRoleMap { role_maps: out }
    }
}

impl ImplicationFactor {
    pub fn duplicate(&self) -> (r: Self)
        ensures
            r@ == self@,
    {
        ImplicationFactor {
            premise: self.premise.duplicate(),
            conclusion: self.conclusion.duplicate(),
            role_maps: self.role_maps.duplicate(),
        }
    }

    /// Structural key of the rule, used as the namespace of its features.
    pub fn unique_key(&self) -> (r: String)
        ensures
            r@ == implication_text(self@.premise, self@.conclusion, self@.maps),
    {
        let ghost maps = role_map_views(self.role_maps.role_maps@);
        let ghost texts = maps.map_values(|m: Seq<(Seq<char>, Seq<char>)>| role_map_text(m));
        let mut parts: Vec<String> = Vec::new();
        let mut i: usize = 0;
        while i < self.role_maps.role_maps.len()
            invariant
                i <= self.role_maps.role_maps@.len(),
                maps == role_map_views(self.role_maps.role_maps@),
                texts == maps.map_values(|m: Seq<(Seq<char>, Seq<char>)>| role_map_text(m)),
                parts@.len() == i,
                forall|k: int| 0 <= k < i ==> #[trigger] parts@[k]@ == texts[k],
            decreases self.role_maps.role_maps@.len() - i,
        {
            parts.push(self.role_maps.role_maps[i].hash_string());
            i = i + 1;
        }
        assert(views(parts@) =~= texts);
        let maps_text = join_strings(&parts, ";");
        self.premise.hash_string().concat("->").concat(self.conclusion.hash_string().as_str()).concat(
            "|",
        ).concat(maps_text.as_str())
    }
}

/// Name of the reserved relation whose propositions always hold.
pub fn existence_predicate_name() -> (r: String)
    ensures
        r@ == existence_name(),
{
    String::from_str("exist")
}

pub open spec fn existence_name() -> Seq<char> {
    "exist"@
}

/// Reordering the roles of a predicate leaves its canonical key unchanged.
pub proof fn lemma_hash_independent_of_role_order(p: PredicateView, q: PredicateView)
    requires
        p.relation.name == q.relation.name,
        p.roles.to_multiset() == q.roles.to_multiset(),
    ensures
        predicate_text(p) == predicate_text(q),
{
    let f = |l: LabeledView| labeled_text(l);
    lemma_map_values_multiset(p.roles, q.roles, f);
    assert(role_texts(p.roles) == p.roles.map_values(f));
    assert(role_texts(q.roles) == q.roles.map_values(f));
    lemma_text_order_total();
    role_texts(p.roles).lemma_sort_by_ensures(text_order());
    role_texts(q.roles).lemma_sort_by_ensures(text_order());
    lemma_sorted_unique(
        role_texts(p.roles).sort_by(text_order()),
        role_texts(q.roles).sort_by(text_order()),
        text_order(),
    );
}

} // verus!

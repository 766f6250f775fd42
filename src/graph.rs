//! The proposition graph: grounded rule instances around a target
//! proposition, with forward and backward links and a traversal order.
use crate::grounding::{back_factors, extract_backimplications_from_proposition, search_keys};
use crate::index::RuleIndex;
use crate::objects::{
    group_text, implication_views, predicate_text, ImplicationFactor, ImplicationView,
    PredicateView, Proposition, PropositionGroup,
};
use vstd::prelude::*;

verus! {

/// View of a grounded rule instance.
pub struct FactorView {
    pub premise: Seq<PredicateView>,
    pub conclusion: PredicateView,
    pub inference: ImplicationView,
}

/// One grounded application of a rule: specific premises, specific conclusion.
#[derive(Clone, Debug)]
pub struct PropositionFactor {
    pub premise: PropositionGroup,
    pub conclusion: Proposition,
    pub inference: ImplicationFactor,
}

impl View for PropositionFactor {
    type V = FactorView;

    open spec fn view(&self) -> FactorView {
        FactorView {
            premise: self.premise@,
            conclusion: self.conclusion@,
            inference: self.inference@,
        }
    }
}

/// View of a graph vertex.
pub enum NodeView {
    Single(PredicateView),
    Group(Seq<PredicateView>),
}

/// What a graph vertex stands for: one proposition or a conjunction of them.
#[derive(Clone, Debug)]
pub enum GenericNodeType {
    Single(Proposition),
    Group(PropositionGroup),
}

impl View for GenericNodeType {
    type V = NodeView;

    open spec fn view(&self) -> NodeView {
        match self {
            GenericNodeType::Single(p) => NodeView::Single(p@),
            GenericNodeType::Group(g) => NodeView::Group(g@),
        }
    }
}

/// Key of a conjunction vertex: its key in parentheses.
pub open spec fn group_node_text(g: Seq<PredicateView>) -> Seq<char> {
    "("@ + group_text(g) + ")"@
}

/// Key of a vertex, derived from its content alone.
pub open spec fn node_text(v: NodeView) -> Seq<char> {
    match v {
        NodeView::Single(p) => predicate_text(p),
        NodeView::Group(g) => group_node_text(g),
    }
}

/// A graph vertex with its content key.
#[derive(Clone, Debug)]
pub struct PropositionNode {
    pub node: GenericNodeType,
    pub underlying_hash: String,
}

impl PropositionNode {
    pub open spec fn well_formed(&self) -> bool {
        self.underlying_hash@ == node_text(self.node@)
    }

    pub fn from_single(proposition: &Proposition) -> (r: Self)
        ensures
            r.well_formed(),
            r.node@ == NodeView::Single(proposition@),
    {
        PropositionNode {
            node: GenericNodeType::Single(proposition.duplicate()),
            underlying_hash: proposition.hash_string(),
        }
    }

    pub fn from_group(group: &PropositionGroup) -> (r: Self)
        ensures
            r.well_formed(),
            r.node@ == NodeView::Group(group@),
    {
        PropositionNode {
            node: GenericNodeType::Group(group.duplicate()),
            underlying_hash: String::from_str("(").concat(group.hash_string().as_str()).concat(")"),
        }
    }

    pub fn duplicate(&self) -> (r: Self)
        ensures
            r.node@ == self.node@,
            r.underlying_hash@ == self.underlying_hash@,
    {
        let node = match &self.node {
            GenericNodeType::Single(p) => GenericNodeType::Single(p.duplicate()),
            GenericNodeType::Group(g) => GenericNodeType::Group(g.duplicate()),
        };
        PropositionNode { node, underlying_hash: self.underlying_hash.clone() }
    }

    pub fn debug_string(&self) -> (r: String)
        ensures
            r@ == self.underlying_hash@,
    {
        self.underlying_hash.clone()
    }

    pub fn is_single(&self) -> (r: bool)
        ensures
            r == (self.node@ is Single),
    {
        match &self.node {
            GenericNodeType::Single(_) => true,
            GenericNodeType::Group(_) => false,
        }
    }

    pub fn is_group(&self) -> (r: bool)
        ensures
            r == (self.node@ is Group),
    {
        match &self.node {
            GenericNodeType::Single(_) => false,
            GenericNodeType::Group(_) => true,
        }
    }

    pub fn extract_single(&self) -> (r: Proposition)
        requires
            self.node@ is Single,
        ensures
            self.node@ == NodeView::Single(r@),
    {
        match &self.node {
            GenericNodeType::Single(p) => p.duplicate(),
            GenericNodeType::Group(_) => vstd::pervasive::unreached(),
        }
    }

    pub fn extract_group(&self) -> (r: PropositionGroup)
        requires
            self.node@ is Group,
        ensures
            self.node@ == NodeView::Group(r@),
    {
        match &self.node {
            GenericNodeType::Group(g) => g.duplicate(),
            GenericNodeType::Single(_) => vstd::pervasive::unreached(),
        }
    }
}

/// A single and a group vertex never share a key: a single's key ends in `]`,
/// a group's in `)`.
pub proof fn lemma_kinds_have_distinct_keys(p: PredicateView, g: Seq<PredicateView>)
    ensures
        node_text(NodeView::Single(p)) != node_text(NodeView::Group(g)),
{
    let a = node_text(NodeView::Single(p));
    let b = node_text(NodeView::Group(g));
    reveal_strlit("]");
    reveal_strlit(")");
    assert(a.last() == ']');
    assert(b.last() == ')');
}

/// The grounded factors that can conclude `p`, for the rules of the index.
pub open spec fn factors_of(p: PredicateView, rules: Seq<ImplicationView>) -> Seq<FactorView> {
    back_factors(p, search_keys(p), rules)
}

/// The grounded, target-rooted graph. Vertex `i` is `nodes[i]`; an edge
/// `(a, b)` links `a` to `b` in the forward direction (premise to conclusion).
pub struct PropositionGraph {
    pub nodes: Vec<PropositionNode>,
    pub edges: Vec<(usize, usize)>,
    pub inferences: Vec<(usize, usize, ImplicationFactor)>,
    pub target: usize,
}

impl PropositionGraph {
    pub open spec fn key(&self, i: int) -> Seq<char> {
        self.nodes@[i].underlying_hash@
    }

    pub open spec fn content(&self, i: int) -> NodeView {
        self.nodes@[i].node@
    }

    pub open spec fn has_single(&self, k: Seq<char>) -> bool {
        exists|i: int| 0 <= i < self.nodes@.len() && self.key(i) == k && self.content(i) is Single
    }

    pub open spec fn has_group(&self, k: Seq<char>) -> bool {
        exists|i: int| 0 <= i < self.nodes@.len() && self.key(i) == k && self.content(i) is Group
    }

    pub open spec fn has_edge(&self, a: Seq<char>, b: Seq<char>) -> bool {
        exists|e: int|
            0 <= e < self.edges@.len() && self.key(self.edges@[e].0 as int) == a && self.key(
                self.edges@[e].1 as int,
            ) == b
    }

    /// Vertex keys are their contents' keys and are pairwise distinct; edges
    /// join existing vertices; the target is a single vertex.
    pub open spec fn well_formed(&self) -> bool {
        &&& self.target < self.nodes@.len()
        &&& self.content(self.target as int) is Single
        &&& forall|i: int| 0 <= i < self.nodes@.len() ==> #[trigger] self.nodes@[i].well_formed()
        &&& forall|i: int, j: int|
            0 <= i < self.nodes@.len() && 0 <= j < self.nodes@.len() && i != j ==> self.key(i)
                != self.key(j)
        &&& forall|e: int|
            0 <= e < self.edges@.len() ==> #[trigger] self.edges@[e].0 < self.nodes@.len()
                && self.edges@[e].1 < self.nodes@.len()
    }

    /// The factor's premise is a group vertex linked to its conclusion, and each
    /// premise term is a single vertex linked to the group.
    pub open spec fn records(&self, f: FactorView) -> bool {
        &&& self.has_group(group_node_text(f.premise))
        &&& self.has_edge(group_node_text(f.premise), predicate_text(f.conclusion))
        &&& forall|t: int|
            0 <= t < f.premise.len() ==> self.has_single(predicate_text(#[trigger] f.premise[t]))
                && self.has_edge(predicate_text(f.premise[t]), group_node_text(f.premise))
    }

    /// Every single vertex below `m` has each factor that concludes it recorded.
    pub open spec fn closed_below(&self, m: int, rules: Seq<ImplicationView>) -> bool {
        forall|i: int, k: int|
            #![trigger self.content(i), factors_of(self.content(i)->Single_0, rules)[k]]
            0 <= i < m && self.content(i) is Single && 0 <= k < factors_of(
                self.content(i)->Single_0,
                rules,
            ).len() ==> self.records(factors_of(self.content(i)->Single_0, rules)[k])
    }

    /// `k` is a key that grounding gives some single vertex: the key of the
    /// premise group, or of a premise term, of one of its factors.
    pub open spec fn justified_key(&self, k: Seq<char>, rules: Seq<ImplicationView>) -> bool {
        exists|j: int, m: int|
            0 <= j < self.nodes@.len() && self.content(j) is Single && 0 <= m < factors_of(
                self.content(j)->Single_0,
                rules,
            ).len() && key_of_factor(#[trigger] factors_of(self.content(j)->Single_0, rules)[m], k)
    }

    /// `a -> b` is a link of one of the factors of some single vertex.
    pub open spec fn justified_edge(&self, a: Seq<char>, b: Seq<char>, rules: Seq<ImplicationView>) -> bool {
        exists|j: int, m: int|
            0 <= j < self.nodes@.len() && self.content(j) is Single && 0 <= m < factors_of(
                self.content(j)->Single_0,
                rules,
            ).len() && edge_of_factor(#[trigger] factors_of(self.content(j)->Single_0, rules)[m], a, b)
    }

    /// Every vertex but the target, and every edge, comes from grounding.
    pub open spec fn sound(&self, rules: Seq<ImplicationView>) -> bool {
        &&& forall|i: int|
            0 <= i < self.nodes@.len() && i != self.target ==> self.justified_key(
                #[trigger] self.key(i),
                rules,
            )
        &&& forall|e: int|
            0 <= e < self.edges@.len() ==> self.justified_edge(
                self.key(#[trigger] self.edges@[e].0 as int),
                self.key(self.edges@[e].1 as int),
                rules,
            )
    }

    /// `other` holds this graph's vertices and edges, at the same places.
    pub open spec fn grown_into(&self, other: PropositionGraph) -> bool {
        &&& self.nodes@.len() <= other.nodes@.len()
        &&& forall|i: int|
            0 <= i < self.nodes@.len() ==> #[trigger] other.nodes@[i] == self.nodes@[i]
        &&& self.edges@.len() <= other.edges@.len()
        &&& forall|e: int| 0 <= e < self.edges@.len() ==> #[trigger] other.edges@[e] == self.edges@[e]
        &&& other.target == self.target
    }

    pub proof fn lemma_grown_trans(a: Self, b: Self, c: Self)
        requires
            a.grown_into(b),
            b.grown_into(c),
        ensures
            a.grown_into(c),
    {
        assert forall|i: int| 0 <= i < a.nodes@.len() implies #[trigger] c.nodes@[i] == a.nodes@[i] by {
            assert(b.nodes@[i] == a.nodes@[i]);
        }
        assert forall|e: int| 0 <= e < a.edges@.len() implies #[trigger] c.edges@[e] == a.edges@[e] by {
            assert(b.edges@[e] == a.edges@[e]);
        }
    }

    /// The graph is fully built: every single vertex has all the factors that
    /// conclude it recorded.
    pub open spec fn complete(&self, rules: Seq<ImplicationView>) -> bool {
        self.closed_below(self.nodes@.len() as int, rules)
    }

    /// The index of the vertex with key `key`, if any.
    pub fn find_node(&self, key: &String) -> (r: Option<usize>)
        ensures
            r matches Some(i) ==> i < self.nodes@.len() && self.key(i as int) == key@,
            r is None ==> forall|i: int| 0 <= i < self.nodes@.len() ==> self.key(i) != key@,
    {
        let mut i: usize = 0;
        while i < self.nodes.len()
            invariant
                i <= self.nodes@.len(),
                forall|j: int| 0 <= j < i ==> self.key(j) != key@,
            decreases self.nodes@.len() - i,
        {
            if self.nodes[i].underlying_hash == *key {
                return Some(i);
            }
            i = i + 1;
        }
        None
    }

    /// Adds a vertex unless one with its key exists; returns the vertex's index.
    fn add_node(&mut self, node: PropositionNode) -> (r: usize)
        requires
            old(self).well_formed(),
            node.well_formed(),
        ensures
            final(self).well_formed(),
            old(self).grown_into(*final(self)),
            final(self).edges@ == old(self).edges@,
            r < final(self).nodes@.len(),
            final(self).key(r as int) == node.underlying_hash@,
            (final(self).content(r as int) is Single) == (node.node@ is Single),
            final(self).nodes@ == old(self).nodes@ || final(self).nodes@ == old(self).nodes@.push(node),
            final(self).inferences@ == old(self).inferences@,
    {
        match self.find_node(&node.underlying_hash) {
            Some(i) => {
                proof {
                    let c = self.content(i as int);
                    assert(self.nodes@[i as int].well_formed());
                    match (c, node.node@) {
                        (NodeView::Single(p), NodeView::Group(g)) => {
                            lemma_kinds_have_distinct_keys(p, g);
                        },
                        (NodeView::Group(g), NodeView::Single(p)) => {
                            lemma_kinds_have_distinct_keys(p, g);
                        },
                        _ => {},
                    }
                }
                i
            },
            None => {
                let ghost before = *self;
                let ghost k = node.underlying_hash@;
                self.nodes.push(node);
                proof {
                    assert forall|i: int| 0 <= i < before.nodes@.len() implies #[trigger] self.nodes@[i]
                        == before.nodes@[i] by {}
                    assert forall|i: int, j: int|
                        0 <= i < self.nodes@.len() && 0 <= j < self.nodes@.len() && i != j implies self.key(i)
                        != self.key(j) by {
                        if i < before.nodes@.len() && j < before.nodes@.len() {
                            assert(before.key(i) != before.key(j));
                        } else if i < before.nodes@.len() {
                            assert(before.key(i) != k);
                        } else {
                            assert(before.key(j) != k);
                        }
                    }
                    assert forall|i: int|
                        0 <= i < self.nodes@.len() implies #[trigger] self.nodes@[i].well_formed() by {
                        if i < before.nodes@.len() {
                            assert(before.nodes@[i].well_formed());
                        }
                    }
                    assert forall|e: int| 0 <= e < self.edges@.len() implies #[trigger] self.edges@[
                        e
                    ].0 < self.nodes@.len() && self.edges@[e].1 < self.nodes@.len() by {
                        assert(before.edges@[e].0 < before.nodes@.len());
                    }
                }
                self.nodes.len() - 1
            },
        }
    }

    /// Adds the edge `a -> b` unless it is there.
    fn add_edge(&mut self, a: usize, b: usize)
        requires
            old(self).well_formed(),
            a < old(self).nodes@.len(),
            b < old(self).nodes@.len(),
        ensures
            final(self).well_formed(),
            old(self).grown_into(*final(self)),
            final(self).nodes@ == old(self).nodes@,
            final(self).has_edge(final(self).key(a as int), final(self).key(b as int)),
            final(self).edges@ == old(self).edges@ || final(self).edges@ == old(self).edges@.push((a, b)),
            final(self).inferences@ == old(self).inferences@,
    {
        let mut e: usize = 0;
        while e < self.edges.len()
            invariant
                e <= self.edges@.len(),
                self.well_formed(),
                a < self.nodes@.len(),
                b < self.nodes@.len(),
            decreases self.edges@.len() - e,
        {
            if self.edges[e].0 == a && self.edges[e].1 == b {
                assert(self.has_edge(self.key(a as int), self.key(b as int))) by {
                    assert(self.key(self.edges@[e as int].0 as int) == self.key(a as int));
                }
                return;
            }
            e = e + 1;
        }
        let ghost before = *self;
        self.edges.push((a, b));
        assert(self.nodes@ == before.nodes@);
        let ghost last = self.edges@.len() - 1;
        assert(self.edges@[last] == (a, b));
        assert forall|e: int| 0 <= e < self.edges@.len() implies #[trigger] self.edges@[e].0
            < self.nodes@.len() && self.edges@[e].1 < self.nodes@.len() by {
            if e < last {
                assert(self.edges@[e] == before.edges@[e]);
                assert(before.edges@[e].0 < before.nodes@.len());
            }
        }
        assert forall|i: int, j: int|
            0 <= i < self.nodes@.len() && 0 <= j < self.nodes@.len() && i != j implies self.key(i)
            != self.key(j) by {
            assert(before.key(i) != before.key(j));
        }
        assert forall|i: int| 0 <= i < self.nodes@.len() implies #[trigger] self.nodes@[i].well_formed() by {
            assert(before.nodes@[i].well_formed());
        }
        assert(before.grown_into(*self)) by {
            assert forall|e: int| 0 <= e < before.edges@.len() implies #[trigger] self.edges@[e]
                == before.edges@[e] by {}
        }
    }

    /// Records `gid -> cid` and the rule that produced it, with the premise
    /// terms as single vertices linked to the group.
    fn add_factor(&mut self, cid: usize, f: &PropositionFactor)
        requires
            old(self).well_formed(),
            cid < old(self).nodes@.len(),
            old(self).key(cid as int) == predicate_text(f@.conclusion),
        ensures
            final(self).well_formed(),
            old(self).grown_into(*final(self)),
            final(self).records(f@),
            forall|i: int|
                old(self).nodes@.len() <= i < final(self).nodes@.len() ==> key_of_factor(
                    f@,
                    #[trigger] final(self).key(i),
                ),
            forall|e: int|
                old(self).edges@.len() <= e < final(self).edges@.len() ==> edge_of_factor(
                    f@,
                    final(self).key(#[trigger] final(self).edges@[e].0 as int),
                    final(self).key(final(self).edges@[e].1 as int),
                ),
    {
        let ghost g_in = *old(self);
        let gnode = PropositionNode::from_group(&f.premise);
        let ghost gn = gnode;
        let gid = self.add_node(gnode);
        let ghost g1 = *self;
        self.add_edge(gid, cid);
        let ghost g2 = *self;
        self.inferences.push((gid, cid, f.inference.duplicate()));
        let ghost start = *self;
        let ghost gk = group_node_text(f@.premise);
        proof {
            assert(start.nodes@ == g2.nodes@);
            assert(start.edges@ == g2.edges@);
            assert forall|i: int, j: int|
                0 <= i < start.nodes@.len() && 0 <= j < start.nodes@.len() && i != j implies start.key(i)
                != start.key(j) by {
                assert(g2.key(i) != g2.key(j));
            }
            assert forall|i: int| 0 <= i < start.nodes@.len() implies #[trigger] start.nodes@[i].well_formed() by {
                assert(g2.nodes@[i].well_formed());
            }
            assert forall|e: int| 0 <= e < start.edges@.len() implies #[trigger] start.edges@[e].0
                < start.nodes@.len() && start.edges@[e].1 < start.nodes@.len() by {
                assert(g2.edges@[e].0 < g2.nodes@.len());
            }
            assert(start.well_formed());
            PropositionGraph::lemma_grown_trans(g_in, g1, g2);
            assert(g2.grown_into(start));
            PropositionGraph::lemma_grown_trans(g_in, g2, start);
            assert(self.key(gid as int) == gk && self.content(gid as int) is Group);
            assert(self.has_group(gk));
            assert(g_in.nodes@[cid as int] == self.nodes@[cid as int]);
            assert(self.key(cid as int) == predicate_text(f@.conclusion));
            assert(g2.has_edge(g2.key(gid as int), g2.key(cid as int)));
            lemma_grown_keeps(g2, start);
            assert(self.has_edge(gk, predicate_text(f@.conclusion)));
            assert forall|i: int| g_in.nodes@.len() <= i < start.nodes@.len() implies key_of_factor(
                f@,
                #[trigger] start.key(i),
            ) by {
                assert(start.nodes@ == g1.nodes@);
                assert(g1.nodes@ == g_in.nodes@.push(gn));
                assert(start.nodes@[i] == gn);
            }
            assert forall|e: int| g_in.edges@.len() <= e < start.edges@.len() implies edge_of_factor(
                f@,
                start.key(#[trigger] start.edges@[e].0 as int),
                start.key(start.edges@[e].1 as int),
            ) by {
                assert(start.edges@[e] == (gid, cid));
                assert(g_in.nodes@[cid as int] == start.nodes@[cid as int]);
            }
        }
        let terms = &f.premise.terms;
        let mut t: usize = 0;
        while t < terms.len()
            invariant
                t <= terms@.len(),
                terms@ == f.premise.terms@,
                self.well_formed(),
                start.grown_into(*self),
                gid < self.nodes@.len(),
                gk == group_node_text(f@.premise),
                self.key(gid as int) == gk,
                self.has_group(gk),
                self.has_edge(gk, predicate_text(f@.conclusion)),
                forall|j: int|
                    0 <= j < t ==> self.has_single(predicate_text(#[trigger] f@.premise[j]))
                        && self.has_edge(predicate_text(f@.premise[j]), gk),
                g_in.grown_into(*self),
                g_in.nodes@.len() <= start.nodes@.len(),
                forall|i: int|
                    g_in.nodes@.len() <= i < self.nodes@.len() ==> key_of_factor(
                        f@,
                        #[trigger] self.key(i),
                    ),
                forall|e: int|
                    g_in.edges@.len() <= e < self.edges@.len() ==> edge_of_factor(
                        f@,
                        self.key(#[trigger] self.edges@[e].0 as int),
                        self.key(self.edges@[e].1 as int),
                    ),
            decreases terms@.len() - t,
        {
            let ghost g0 = *self;
            let tnode = PropositionNode::from_single(&terms[t]);
            let ghost tn = tnode;
            let tid = self.add_node(tnode);
            let ghost g1 = *self;
            self.add_edge(tid, gid);
            proof {
                assert(f@.premise[t as int] == terms@[t as int]@);
                assert(key_of_factor(f@, tn.underlying_hash@)) by {
                    assert(tn.underlying_hash@ == predicate_text(f@.premise[t as int]));
                }
                PropositionGraph::lemma_grown_trans(g_in, g0, *self);
                assert forall|i: int| g_in.nodes@.len() <= i < self.nodes@.len() implies key_of_factor(
                    f@,
                    #[trigger] self.key(i),
                ) by {
                    if i < g0.nodes@.len() {
                        assert(self.nodes@[i] == g0.nodes@[i]);
                        assert(key_of_factor(f@, g0.key(i)));
                    } else {
                        assert(g1.nodes@ == g0.nodes@.push(tn));
                        assert(self.nodes@[i] == tn);
                    }
                }
                assert forall|e: int| g_in.edges@.len() <= e < self.edges@.len() implies edge_of_factor(
                    f@,
                    self.key(#[trigger] self.edges@[e].0 as int),
                    self.key(self.edges@[e].1 as int),
                ) by {
                    if e < g0.edges@.len() {
                        assert(self.edges@[e] == g0.edges@[e]);
                        assert(g0.edges@[e].0 < g0.nodes@.len());
                        assert(self.nodes@[g0.edges@[e].0 as int] == g0.nodes@[g0.edges@[e].0 as int]);
                        assert(self.nodes@[g0.edges@[e].1 as int] == g0.nodes@[g0.edges@[e].1 as int]);
                        assert(edge_of_factor(
                            f@,
                            g0.key(g0.edges@[e].0 as int),
                            g0.key(g0.edges@[e].1 as int),
                        ));
                    } else {
                        assert(self.edges@ == g1.edges@.push((tid, gid)));
                        assert(self.edges@[e] == (tid, gid));
                        assert(f@.premise.len() == terms@.len());
                        assert(self.key(tid as int) == predicate_text(f@.premise[t as int]));
                        assert(g0.nodes@[gid as int] == self.nodes@[gid as int]);
                        assert(self.key(gid as int) == group_node_text(f@.premise));
                    }
                }
                PropositionGraph::lemma_grown_trans(g0, g1, *self);
                PropositionGraph::lemma_grown_trans(start, g0, *self);
                assert(g0.nodes@[gid as int] == self.nodes@[gid as int]);
                lemma_grown_keeps(g0, *self);
                assert(self.has_single(predicate_text(f@.premise[t as int]))) by {
                    assert(self.key(tid as int) == predicate_text(terms@[t as int]@));
                }
                assert(f@.premise[t as int] == terms@[t as int]@);
                assert forall|j: int|
                    0 <= j < t + 1 implies self.has_single(predicate_text(#[trigger] f@.premise[j]))
                    && self.has_edge(predicate_text(f@.premise[j]), gk) by {
                    if j < t {
                        assert(g0.has_single(predicate_text(f@.premise[j])));
                        assert(g0.has_edge(predicate_text(f@.premise[j]), gk));
                    }
                }
            }
            t = t + 1;
        }
    }

    /// Builds the graph of `target` by backward grounding: each single vertex,
    /// in order of discovery, gets the factors that could conclude it, whose
    /// premises become new vertices in turn, until no new vertex appears.
    pub fn new(index: &RuleIndex, target: &Proposition) -> (r: Self)
        ensures
            r.well_formed(),
            r.target == 0,
            r.content(0) == NodeView::Single(target@),
            r.complete(implication_views(index.implications@)),
            r.sound(implication_views(index.implications@)),
    {
        let ghost rules = implication_views(index.implications@);
        let mut graph = PropositionGraph {
            nodes: vec![PropositionNode::from_single(target)],
            edges: Vec::new(),
            inferences: Vec::new(),
            target: 0,
        };
        let mut next: usize = 0;
        while next < graph.nodes.len()
            invariant
                graph.well_formed(),
                graph.target == 0,
                graph.content(0) == NodeView::Single(target@),
                rules == implication_views(index.implications@),
                next <= graph.nodes@.len(),
                graph.closed_below(next as int, rules),
                graph.sound(rules),
            decreases usize::MAX - graph.nodes@.len(), graph.nodes@.len() - next,
        {
            let ghost g_start = graph;
            if graph.nodes[next].is_single() {
                let conclusion = graph.nodes[next].extract_single();
                let factors = extract_backimplications_from_proposition(index, &conclusion);
                let ghost fs = factors_of(conclusion@, rules);
                assert(graph.nodes@[next as int].well_formed());
                assert(factors@.map_values(|f: PropositionFactor| f@) == fs);
                let mut k: usize = 0;
                while k < factors.len()
                    invariant
                        k <= factors@.len(),
                        factors@.map_values(|f: PropositionFactor| f@) == fs,
                        fs == factors_of(conclusion@, rules),
                        graph.well_formed(),
                        g_start.grown_into(graph),
                        next < g_start.nodes@.len(),
                        graph.content(next as int) == NodeView::Single(conclusion@),
                        graph.key(next as int) == predicate_text(conclusion@),
                        forall|j: int| 0 <= j < k ==> graph.records(#[trigger] fs[j]),
                        graph.sound(rules),
                    decreases factors@.len() - k,
                {
                    let ghost g0 = graph;
                    assert(factors@[k as int]@ == fs[k as int]);
                    assert(fs[k as int].conclusion == conclusion@) by {
                        lemma_back_factors_conclude(conclusion@, search_keys(conclusion@), rules);
                    }
                    graph.add_factor(next, &factors[k]);
                    proof {
                        lemma_grown_sound(g0, graph, rules, next as int, k as int);
                        PropositionGraph::lemma_grown_trans(g_start, g0, graph);
                        assert(g0.nodes@[next as int] == graph.nodes@[next as int]);
                        assert(g0.nodes@[0] == graph.nodes@[0]);
                        assert forall|j: int| 0 <= j < k + 1 implies graph.records(
                            #[trigger] fs[j],
                        ) by {
                            if j < k {
                                lemma_grown_records(g0, graph, fs[j]);
                            }
                        }
                    }
                    k = k + 1;
                }
                proof {
                    assert(g_start.nodes@[0] == graph.nodes@[0]);
                    lemma_grown_closed(g_start, graph, next as int, rules);
                    assert(graph.closed_below(next + 1, rules)) by {
                        assert forall|i: int, k: int|
                            0 <= i < next + 1 && graph.content(i) is Single && 0 <= k
                                < factors_of(graph.content(i)->Single_0, rules).len() implies graph.records(
                            factors_of(graph.content(i)->Single_0, rules)[k],
                        ) by {
                            if i == next {
                                assert(fs == factors_of(graph.content(i)->Single_0, rules));
                                assert(graph.records(fs[k]));
                            }
                        }
                    }
                }
            } else {
                proof {
                    assert(graph.closed_below(next + 1, rules));
                }
            }
            let len_now = graph.nodes.len();
            assert(len_now >= g_start.nodes@.len());
            next = next + 1;
        }
        graph
    }

    /// Indices of the vertices with an edge into `node`, in edge order.
    pub fn get_all_backward(&self, node: usize) -> (r: Vec<usize>)
        ensures
            r@ == parents_of(self.edges@, node),
    {
        let mut out: Vec<usize> = Vec::new();
        let mut e: usize = 0;
        assert(self.edges@.take(0) =~= Seq::<(usize, usize)>::empty());
        while e < self.edges.len()
            invariant
                e <= self.edges@.len(),
                out@ == parents_of(self.edges@.take(e as int), node),
            decreases self.edges@.len() - e,
        {
            assert(self.edges@.take(e + 1).drop_last() =~= self.edges@.take(e as int));
            if self.edges[e].1 == node {
                out.push(self.edges[e].0);
            }
            e = e + 1;
        }
        assert(self.edges@.take(self.edges@.len() as int) =~= self.edges@);
        out
    }

    /// Indices of the vertices that `node` has an edge into, in edge order.
    pub fn get_all_forward(&self, node: usize) -> (r: Vec<usize>)
        ensures
            r@ == children_of(self.edges@, node),
    {
        let mut out: Vec<usize> = Vec::new();
        let mut e: usize = 0;
        assert(self.edges@.take(0) =~= Seq::<(usize, usize)>::empty());
        while e < self.edges.len()
            invariant
                e <= self.edges@.len(),
                out@ == children_of(self.edges@.take(e as int), node),
            decreases self.edges@.len() - e,
        {
            assert(self.edges@.take(e + 1).drop_last() =~= self.edges@.take(e as int));
            if self.edges[e].0 == node {
                out.push(self.edges[e].1);
            }
            e = e + 1;
        }
        assert(self.edges@.take(self.edges@.len() as int) =~= self.edges@);
        out
    }

    /// A root is a single vertex with no edge into it.
    pub fn is_root(&self, node: usize) -> (r: bool)
        requires
            node < self.nodes@.len(),
        ensures
            r == (self.content(node as int) is Single && parents_of(self.edges@, node).len() == 0),
    {
        self.nodes[node].is_single() && self.get_all_backward(node).len() == 0
    }

    /// A leaf is a single vertex with no edge out of it.
    pub fn is_leaf(&self, node: usize) -> (r: bool)
        requires
            node < self.nodes@.len(),
        ensures
            r == (self.content(node as int) is Single && children_of(self.edges@, node).len() == 0),
    {
        self.nodes[node].is_single() && self.get_all_forward(node).len() == 0
    }

    /// The factors that feed a single vertex: for each parent group in edge
    /// order, the group as premise, the vertex as conclusion and the rule
    /// recorded for them. `None` when the vertex is not single, or a parent is
    /// not a group or has no recorded rule.
    pub fn factors_for_parents(&self, node: usize) -> (r: Option<Vec<PropositionFactor>>)
        requires
            self.well_formed(),
            node < self.nodes@.len(),
        ensures
            r matches Some(fs) ==> {
                &&& self.content(node as int) is Single
                &&& fs@.len() == parents_of(self.edges@, node).len()
                &&& forall|j: int|
                    0 <= j < fs@.len() ==> {
                        let parent = parents_of(self.edges@, node)[j] as int;
                        &&& self.content(parent) == NodeView::Group((#[trigger] fs@[j])@.premise)
                        &&& NodeView::Single(fs@[j]@.conclusion) == self.content(node as int)
                        &&& exists|m: int|
                            0 <= m < self.inferences@.len() && self.inferences@[m].0 == parent
                                && self.inferences@[m].1 == node && (#[trigger] self.inferences@[m]).2@
                                == fs@[j]@.inference
                    }
            },
            r is None ==> !(self.content(node as int) is Single) || exists|j: int|
                0 <= j < parents_of(self.edges@, node).len() && {
                    let parent = #[trigger] parents_of(self.edges@, node)[j] as int;
                    ||| !(self.content(parent) is Group)
                    ||| forall|m: int|
                        0 <= m < self.inferences@.len() ==> !(#[trigger] self.inferences@[m].0 == parent
                            && self.inferences@[m].1 == node)
                },
    {
        if !self.nodes[node].is_single() {
            return None;
        }
        let conclusion = self.nodes[node].extract_single();
        let parents = self.get_all_backward(node);
        let mut out: Vec<PropositionFactor> = Vec::new();
        let mut j: usize = 0;
        while j < parents.len()
            invariant
                j <= parents@.len(),
                self.well_formed(),
                node < self.nodes@.len(),
                parents@ == parents_of(self.edges@, node),
                self.content(node as int) == NodeView::Single(conclusion@),
                out@.len() == j,
                forall|k: int|
                    0 <= k < j ==> {
                        let parent = parents@[k] as int;
                        &&& self.content(parent) == NodeView::Group((#[trigger] out@[k])@.premise)
                        &&& out@[k]@.conclusion == conclusion@
                        &&& exists|m: int|
                            0 <= m < self.inferences@.len() && self.inferences@[m].0 == parent
                                && self.inferences@[m].1 == node && (#[trigger] self.inferences@[m]).2@
                                == out@[k]@.inference
                    },
            decreases parents@.len() - j,
        {
            let parent = parents[j];
            if parent >= self.nodes.len() || !self.nodes[parent].is_group() {
                proof {
                    if parent < self.nodes@.len() {
                        assert(!(self.content(parent as int) is Group));
                    } else {
                        assert(false) by {
                            lemma_parents_in_range(self.edges@, node, self.nodes@.len());
                        }
                    }
                }
                return None;
            }
            let premise = self.nodes[parent].extract_group();
            match self.get_inference_used(parent, node) {
                Some(inference) => {
                    let ghost before = out@;
                    out.push(PropositionFactor { premise, conclusion: conclusion.duplicate(), inference });
                    proof {
                        assert forall|k: int|
                            0 <= k < j + 1 implies {
                            let parent = parents@[k] as int;
                            &&& self.content(parent) == NodeView::Group((#[trigger] out@[k])@.premise)
                            &&& out@[k]@.conclusion == conclusion@
                            &&& exists|m: int|
                                0 <= m < self.inferences@.len() && self.inferences@[m].0 == parent
                                    && self.inferences@[m].1 == node && (
                                #[trigger] self.inferences@[m]).2@ == out@[k]@.inference
                        } by {
                            if k < j {
                                assert(out@[k] == before[k]);
                            }
                        }
                    }
                },
                None => {
                    return None;
                },
            }
            j = j + 1;
        }
        Some(out)
    }

    /// The rule recorded for the factor from `group` to `conclusion`, if any.
    pub fn get_inference_used(&self, group: usize, conclusion: usize) -> (r: Option<
        ImplicationFactor,
    >)
        ensures
            r matches Some(f) ==> exists|j: int|
                0 <= j < self.inferences@.len() && self.inferences@[j].0 == group
                    && self.inferences@[j].1 == conclusion && (#[trigger] self.inferences@[j]).2@
                    == f@,
            r is None ==> forall|j: int|
                0 <= j < self.inferences@.len() ==> !(#[trigger] self.inferences@[j].0 == group
                    && self.inferences@[j].1 == conclusion),
    {
        let mut j: usize = 0;
        while j < self.inferences.len()
            invariant
                j <= self.inferences@.len(),
                forall|m: int|
                    0 <= m < j ==> !(#[trigger] self.inferences@[m].0 == group
                        && self.inferences@[m].1 == conclusion),
            decreases self.inferences@.len() - j,
        {
            if self.inferences[j].0 == group && self.inferences[j].1 == conclusion {
                return Some(self.inferences[j].2.duplicate());
            }
            j = j + 1;
        }
        None
    }
}

/// Sources of the edges into `node`, in edge order.
pub open spec fn parents_of(edges: Seq<(usize, usize)>, node: usize) -> Seq<usize>
    decreases edges.len(),
{
    if edges.len() == 0 {
        Seq::empty()
    } else {
        parents_of(edges.drop_last(), node) + if edges.last().1 == node {
            seq![edges.last().0]
        } else {
            Seq::empty()
        }
    }
}

/// Targets of the edges out of `node`, in edge order.
pub open spec fn children_of(edges: Seq<(usize, usize)>, node: usize) -> Seq<usize>
    decreases edges.len(),
{
    if edges.len() == 0 {
        Seq::empty()
    } else {
        children_of(edges.drop_last(), node) + if edges.last().0 == node {
            seq![edges.last().1]
        } else {
            Seq::empty()
        }
    }
}

/// `k` is the key of the factor's premise group or of one of its premise terms.
pub open spec fn key_of_factor(f: FactorView, k: Seq<char>) -> bool {
    ||| k == group_node_text(f.premise)
    ||| exists|t: int| 0 <= t < f.premise.len() && k == predicate_text(#[trigger] f.premise[t])
}

/// `a -> b` is the factor's group-to-conclusion link or a term-to-group link.
pub open spec fn edge_of_factor(f: FactorView, a: Seq<char>, b: Seq<char>) -> bool {
    ||| a == group_node_text(f.premise) && b == predicate_text(f.conclusion)
    ||| b == group_node_text(f.premise) && exists|t: int|
        0 <= t < f.premise.len() && a == predicate_text(#[trigger] f.premise[t])
}

/// Growing a sound graph by the links and vertices of factor `m` of single
/// vertex `j` keeps it sound.
proof fn lemma_grown_sound(
    a: PropositionGraph,
    b: PropositionGraph,
    rules: Seq<ImplicationView>,
    j: int,
    m: int,
)
    requires
        a.well_formed(),
        a.grown_into(b),
        a.sound(rules),
        0 <= j < a.nodes@.len(),
        a.content(j) is Single,
        0 <= m < factors_of(a.content(j)->Single_0, rules).len(),
        forall|i: int|
            a.nodes@.len() <= i < b.nodes@.len() ==> key_of_factor(
                factors_of(a.content(j)->Single_0, rules)[m],
                #[trigger] b.key(i),
            ),
        forall|e: int|
            a.edges@.len() <= e < b.edges@.len() ==> edge_of_factor(
                factors_of(a.content(j)->Single_0, rules)[m],
                b.key(#[trigger] b.edges@[e].0 as int),
                b.key(b.edges@[e].1 as int),
            ),
    ensures
        b.sound(rules),
{
    assert(b.nodes@[j] == a.nodes@[j]);
    let f = factors_of(a.content(j)->Single_0, rules)[m];
    assert forall|k: Seq<char>| a.justified_key(k, rules) implies b.justified_key(k, rules) by {
        let (jj, mm) = choose|jj: int, mm: int|
            0 <= jj < a.nodes@.len() && a.content(jj) is Single && 0 <= mm < factors_of(
                a.content(jj)->Single_0,
                rules,
            ).len() && key_of_factor(#[trigger] factors_of(a.content(jj)->Single_0, rules)[mm], k);
        assert(b.nodes@[jj] == a.nodes@[jj]);
        assert(b.content(jj) == a.content(jj));
        assert(key_of_factor(factors_of(b.content(jj)->Single_0, rules)[mm], k));
    }
    assert forall|x: Seq<char>, y: Seq<char>| a.justified_edge(x, y, rules) implies b.justified_edge(
        x,
        y,
        rules,
    ) by {
        let (jj, mm) = choose|jj: int, mm: int|
            0 <= jj < a.nodes@.len() && a.content(jj) is Single && 0 <= mm < factors_of(
                a.content(jj)->Single_0,
                rules,
            ).len() && edge_of_factor(#[trigger] factors_of(a.content(jj)->Single_0, rules)[mm], x, y);
        assert(b.nodes@[jj] == a.nodes@[jj]);
        assert(b.content(jj) == a.content(jj));
        assert(edge_of_factor(factors_of(b.content(jj)->Single_0, rules)[mm], x, y));
    }
    assert forall|i: int| 0 <= i < b.nodes@.len() && i != b.target implies b.justified_key(
        #[trigger] b.key(i),
        rules,
    ) by {
        if i < a.nodes@.len() {
            assert(b.nodes@[i] == a.nodes@[i]);
            assert(a.justified_key(a.key(i), rules));
        } else {
            assert(key_of_factor(f, b.key(i)));
            assert(b.content(j) == a.content(j));
        }
    }
    assert forall|e: int| 0 <= e < b.edges@.len() implies b.justified_edge(
        b.key(#[trigger] b.edges@[e].0 as int),
        b.key(b.edges@[e].1 as int),
        rules,
    ) by {
        if e < a.edges@.len() {
            assert(b.edges@[e] == a.edges@[e]);
            assert(a.edges@[e].0 < a.nodes@.len());
            assert(b.nodes@[a.edges@[e].0 as int] == a.nodes@[a.edges@[e].0 as int]);
            assert(b.nodes@[a.edges@[e].1 as int] == a.nodes@[a.edges@[e].1 as int]);
            assert(a.justified_edge(a.key(a.edges@[e].0 as int), a.key(a.edges@[e].1 as int), rules));
        } else {
            assert(edge_of_factor(f, b.key(b.edges@[e].0 as int), b.key(b.edges@[e].1 as int)));
            assert(b.content(j) == a.content(j));
        }
    }
}

proof fn lemma_parents_in_range(edges: Seq<(usize, usize)>, node: usize, n: nat)
    requires
        forall|e: int| 0 <= e < edges.len() ==> #[trigger] edges[e].0 < n && edges[e].1 < n,
    ensures
        forall|j: int| 0 <= j < parents_of(edges, node).len() ==> #[trigger] parents_of(edges, node)[j] < n,
    decreases edges.len(),
{
    if edges.len() > 0 {
        let p = edges.drop_last();
        assert forall|e: int| 0 <= e < p.len() implies #[trigger] p[e].0 < n && p[e].1 < n by {
            assert(p[e] == edges[e]);
        }
        lemma_parents_in_range(p, node, n);
        let a = parents_of(p, node);
        assert forall|j: int| 0 <= j < parents_of(edges, node).len() implies #[trigger] parents_of(edges, node)[j] < n by {
            if j < a.len() {
                assert(parents_of(edges, node)[j] == a[j]);
            } else {
                assert(parents_of(edges, node)[j] == edges.last().0);
            }
        }
    }
}

proof fn lemma_grown_keeps(a: PropositionGraph, b: PropositionGraph)
    requires
        a.grown_into(b),
        a.well_formed(),
    ensures
        forall|k: Seq<char>| a.has_single(k) ==> #[trigger] b.has_single(k),
        forall|k: Seq<char>| a.has_group(k) ==> #[trigger] b.has_group(k),
        forall|x: Seq<char>, y: Seq<char>| a.has_edge(x, y) ==> #[trigger] b.has_edge(x, y),
{
    assert forall|k: Seq<char>| a.has_single(k) implies #[trigger] b.has_single(k) by {
        let i = choose|i: int| 0 <= i < a.nodes@.len() && a.key(i) == k && a.content(i) is Single;
        assert(b.nodes@[i] == a.nodes@[i]);
        assert(b.key(i) == k && b.content(i) is Single);
    }
    assert forall|k: Seq<char>| a.has_group(k) implies #[trigger] b.has_group(k) by {
        let i = choose|i: int| 0 <= i < a.nodes@.len() && a.key(i) == k && a.content(i) is Group;
        assert(b.nodes@[i] == a.nodes@[i]);
        assert(b.key(i) == k && b.content(i) is Group);
    }
    assert forall|x: Seq<char>, y: Seq<char>| a.has_edge(x, y) implies #[trigger] b.has_edge(
        x,
        y,
    ) by {
        let e = choose|e: int|
            0 <= e < a.edges@.len() && a.key(a.edges@[e].0 as int) == x && a.key(
                a.edges@[e].1 as int,
            ) == y;
        assert(b.edges@[e] == a.edges@[e]);
        assert(a.edges@[e].0 < a.nodes@.len());
        assert(b.nodes@[a.edges@[e].0 as int] == a.nodes@[a.edges@[e].0 as int]);
        assert(b.nodes@[a.edges@[e].1 as int] == a.nodes@[a.edges@[e].1 as int]);
    }
}

proof fn lemma_grown_records(a: PropositionGraph, b: PropositionGraph, f: FactorView)
    requires
        a.grown_into(b),
        a.well_formed(),
        a.records(f),
    ensures
        b.records(f),
{
    lemma_grown_keeps(a, b);
    assert forall|t: int| 0 <= t < f.premise.len() implies b.has_single(
        predicate_text(#[trigger] f.premise[t]),
    ) && b.has_edge(predicate_text(f.premise[t]), group_node_text(f.premise)) by {
        assert(a.has_single(predicate_text(f.premise[t])));
        assert(a.has_edge(predicate_text(f.premise[t]), group_node_text(f.premise)));
    }
}

proof fn lemma_grown_closed(
    a: PropositionGraph,
    b: PropositionGraph,
    m: int,
    rules: Seq<ImplicationView>,
)
    requires
        a.grown_into(b),
        a.well_formed(),
        a.closed_below(m, rules),
        m <= a.nodes@.len(),
    ensures
        b.closed_below(m, rules),
{
    assert forall|i: int, k: int|
        0 <= i < m && b.content(i) is Single && 0 <= k < factors_of(
            b.content(i)->Single_0,
            rules,
        ).len() implies b.records(factors_of(b.content(i)->Single_0, rules)[k]) by {
        assert(b.nodes@[i] == a.nodes@[i]);
        assert(b.content(i) == a.content(i));
        lemma_grown_records(a, b, factors_of(a.content(i)->Single_0, rules)[k]);
    }
}

proof fn lemma_back_factors_conclude(
    c: PredicateView,
    keys: Seq<PredicateView>,
    rules: Seq<ImplicationView>,
)
    ensures
        forall|j: int|
            0 <= j < back_factors(c, keys, rules).len() ==> (#[trigger] back_factors(
                c,
                keys,
                rules,
            )[j]).conclusion == c,
    decreases keys.len(),
{
    if keys.len() > 0 {
        lemma_back_factors_conclude(c, keys.drop_first(), rules);
        lemma_ground_all_conclude(c, crate::index::links_for(predicate_text(keys[0]), rules));
        let a = crate::grounding::ground_all(
            c,
            crate::index::links_for(predicate_text(keys[0]), rules),
        );
        let b = back_factors(c, keys.drop_first(), rules);
        assert forall|j: int| 0 <= j < (a + b).len() implies (#[trigger] (a + b)[j]).conclusion
            == c by {
            if j < a.len() {
                assert((a + b)[j] == a[j]);
            } else {
                assert((a + b)[j] == b[j - a.len()]);
            }
        }
    }
}

proof fn lemma_ground_all_conclude(c: PredicateView, rules: Seq<ImplicationView>)
    ensures
        forall|j: int|
            0 <= j < crate::grounding::ground_all(c, rules).len() ==> (
            #[trigger] crate::grounding::ground_all(c, rules)[j]).conclusion == c,
    decreases rules.len(),
{
    if rules.len() > 0 {
        lemma_ground_all_conclude(c, rules.drop_first());
        let all = crate::grounding::ground_all(c, rules);
        let b = crate::grounding::ground_all(c, rules.drop_first());
        let a = all.take(all.len() - b.len());
        assert forall|j: int| 0 <= j < all.len() implies (#[trigger] all[j]).conclusion == c by {
            match crate::grounding::ground_rule(c, rules[0]) {
                Ok(terms) => {
                    if j > 0 {
                        assert(all[j] == b[j - 1]);
                    }
                },
                Err(_) => {
                    assert(all[j] == b[j]);
                },
            }
        }
    }
}

} // verus!

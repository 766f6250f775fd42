use bayes_star::belief::{BeliefLookup, EmptyBeliefTable, RedisBeliefTable};
use bayes_star::creators::{conjunction, constant, implication, obj, predicate, proposition, relation, sub, variable};
use bayes_star::graph::PropositionGraph;
use bayes_star::grounding::{
    compute_search_predicates, extract_backimplications_from_proposition,
    extract_existence_factor_for_predicate, extract_existence_factor_for_proposition, ground_implication,
};
use bayes_star::index::RuleIndex;
use bayes_star::objects::{ImplicationFactor, Proposition, RoleMap};
use bayes_star::ops::GroundingError;
use bayes_star::traversal::{compute_each_combination, fan_out_order};

fn map(pairs: &[(&str, &str)]) -> RoleMap {
    RoleMap::new(pairs.iter().map(|(a, b)| (a.to_string(), b.to_string())).collect())
}

fn man() -> String {
    "man".to_string()
}

fn woman() -> String {
    "woman".to_string()
}

fn dating_rules() -> Vec<ImplicationFactor> {
    let xjack = variable(man());
    let xjill = variable(woman());
    let like_mw = || predicate(relation("like".to_string(), vec![]), vec![sub(xjack.clone()), obj(xjill.clone())]);
    vec![
        implication(
            conjunction(vec![predicate(relation("lonely".to_string(), vec![]), vec![sub(xjack.clone())])]),
            like_mw(),
            vec![map(&[("sub", "sub")])],
        ),
        implication(
            conjunction(vec![predicate(relation("exciting".to_string(), vec![]), vec![sub(xjill.clone())])]),
            like_mw(),
            vec![map(&[("sub", "obj")])],
        ),
        implication(
            conjunction(vec![
                predicate(relation("like".to_string(), vec![]), vec![sub(xjill.clone()), obj(xjack.clone())]),
                like_mw(),
            ]),
            predicate(relation("date".to_string(), vec![]), vec![sub(xjack.clone()), obj(xjill.clone())]),
            vec![map(&[("sub", "obj"), ("obj", "sub")]), map(&[("sub", "sub"), ("obj", "obj")])],
        ),
    ]
}

fn dating_index() -> RuleIndex {
    let mut index = RuleIndex::new();
    for rule in dating_rules() {
        index.store_implication(rule);
    }
    index
}

fn date(m: &str, w: &str) -> Proposition {
    proposition(
        relation("date".to_string(), vec![]),
        vec![sub(constant(man(), m.to_string())), obj(constant(woman(), w.to_string()))],
    )
}

#[test]
fn search_predicates_quantify_one_then_two_roles() {
    let keys: Vec<String> = compute_search_predicates(&date("jack", "jill")).iter().map(|p| p.hash_string()).collect();
    assert_eq!(
        keys,
        vec![
            "date[obj=jill,sub=?man]".to_string(),
            "date[obj=?woman,sub=jack]".to_string(),
            "date[obj=?woman,sub=?man]".to_string(),
        ]
    );
}

#[test]
fn search_predicates_of_three_roles() {
    let p = proposition(
        relation("gives".to_string(), vec![]),
        vec![
            bayes_star::creators::role("a".to_string(), constant("d".to_string(), "x".to_string())),
            bayes_star::creators::role("b".to_string(), constant("d".to_string(), "y".to_string())),
            bayes_star::creators::role("c".to_string(), constant("d".to_string(), "z".to_string())),
        ],
    );
    assert_eq!(compute_search_predicates(&p).len(), 6);
}

#[test]
fn backimplications_of_date() {
    let index = dating_index();
    let factors = extract_backimplications_from_proposition(&index, &date("jack", "jill"));
    assert_eq!(factors.len(), 1);
    assert_eq!(factors[0].premise.hash_string(), "like[obj=jack,sub=jill]&like[obj=jill,sub=jack]");
    assert_eq!(factors[0].conclusion.hash_string(), "date[obj=jill,sub=jack]");
}

#[test]
fn backimplications_of_like_come_in_rule_order() {
    let index = dating_index();
    let like = proposition(
        relation("like".to_string(), vec![]),
        vec![sub(constant(man(), "jack".to_string())), obj(constant(woman(), "jill".to_string()))],
    );
    let factors = extract_backimplications_from_proposition(&index, &like);
    let premises: Vec<String> = factors.iter().map(|f| f.premise.hash_string()).collect();
    assert_eq!(premises, vec!["lonely[sub=jack]".to_string(), "exciting[sub=jill]".to_string()]);
}

#[test]
fn grounding_fails_on_missing_conclusion_role() {
    let rule = implication(
        conjunction(vec![predicate(relation("lonely".to_string(), vec![]), vec![sub(variable(man()))])]),
        predicate(relation("date".to_string(), vec![]), vec![sub(variable(man())), obj(variable(woman()))]),
        vec![map(&[("sub", "speaker")])],
    );
    assert_eq!(ground_implication(&date("jack", "jill"), &rule).err(), Some(GroundingError::RoleNotInConclusion));
}

#[test]
fn grounding_fails_on_unbound_variable() {
    let rule = implication(
        conjunction(vec![predicate(
            relation("knows".to_string(), vec![]),
            vec![sub(variable(man())), obj(variable(woman()))],
        )]),
        predicate(relation("date".to_string(), vec![]), vec![sub(variable(man())), obj(variable(woman()))]),
        vec![map(&[("sub", "sub")])],
    );
    assert_eq!(ground_implication(&date("jack", "jill"), &rule).err(), Some(GroundingError::UnboundRole));
}

#[test]
fn grounding_fails_on_role_map_count() {
    let rule = implication(
        conjunction(vec![predicate(relation("lonely".to_string(), vec![]), vec![sub(variable(man()))])]),
        predicate(relation("date".to_string(), vec![]), vec![sub(variable(man())), obj(variable(woman()))]),
        vec![],
    );
    assert_eq!(ground_implication(&date("jack", "jill"), &rule).err(), Some(GroundingError::RoleMapCountMismatch));
}

#[test]
fn rule_index_matches_by_canonical_key() {
    let index = dating_index();
    let key = predicate(relation("like".to_string(), vec![]), vec![obj(variable(woman())), sub(variable(man()))]);
    assert_eq!(index.predicate_backward_links(&key).len(), 2);
    let other = predicate(relation("like".to_string(), vec![]), vec![sub(variable(woman())), obj(variable(man()))]);
    assert_eq!(index.predicate_backward_links(&other).len(), 0);
}

fn keys_of(graph: &PropositionGraph, ids: &[usize]) -> Vec<String> {
    ids.iter().map(|&i| graph.nodes[i].underlying_hash.clone()).collect()
}

#[test]
fn dating_graph_structure() {
    let graph = PropositionGraph::new(&dating_index(), &date("jack", "jill"));
    assert_eq!(graph.nodes.len(), 8);
    assert_eq!(graph.edges.len(), 7);
    assert_eq!(graph.nodes[0].debug_string(), "date[obj=jill,sub=jack]");
    let roots: Vec<usize> = (0..graph.nodes.len()).filter(|&i| graph.is_root(i)).collect();
    assert_eq!(
        keys_of(&graph, &roots),
        vec!["like[obj=jack,sub=jill]".to_string(), "lonely[sub=jack]".to_string(), "exciting[sub=jill]".to_string()]
    );
    assert!(graph.is_leaf(0));
    assert!(!graph.is_root(0));
    let parents = graph.get_all_backward(0);
    assert_eq!(keys_of(&graph, &parents), vec!["(like[obj=jack,sub=jill]&like[obj=jill,sub=jack])".to_string()]);
    let like_id = graph.find_node(&"like[obj=jill,sub=jack]".to_string()).unwrap();
    assert_eq!(graph.get_all_backward(like_id).len(), 2);
    assert_eq!(graph.get_all_forward(like_id).len(), 1);
    let group = graph.get_all_backward(0)[0];
    let rule = graph.get_inference_used(group, 0).unwrap();
    assert_eq!(rule.conclusion.hash_string(), "date[obj=?woman,sub=?man]");
}

#[test]
fn dating_graph_bfs_order() {
    let graph = PropositionGraph::new(&dating_index(), &date("jack", "jill"));
    let order = graph.get_bfs_order();
    assert_eq!(order.len(), 8);
    assert_eq!(
        keys_of(&graph, &order[..3]),
        vec!["like[obj=jack,sub=jill]".to_string(), "lonely[sub=jack]".to_string(), "exciting[sub=jill]".to_string()]
    );
    let mut sorted = order.clone();
    sorted.sort();
    assert_eq!(sorted, (0..8).collect::<Vec<usize>>());
}

#[test]
fn graph_of_unknown_target_is_a_single_root() {
    let graph = PropositionGraph::new(&RuleIndex::new(), &date("jack", "jill"));
    assert_eq!(graph.nodes.len(), 1);
    assert!(graph.is_root(0));
    assert_eq!(graph.get_bfs_order(), vec![0]);
}

#[test]
fn fan_out_visits_reverse_order_from_node() {
    assert_eq!(fan_out_order(&vec![2, 5, 7, 1, 4, 6, 0, 3], 4), vec![4, 1, 7, 5, 2]);
    assert_eq!(fan_out_order(&vec![2, 5, 7], 2), vec![2]);
    assert_eq!(fan_out_order(&vec![2, 5, 7], 9), Vec::<usize>::new());
}

#[test]
fn combinations_cover_every_assignment_once() {
    assert_eq!(compute_each_combination(0), vec![Vec::<bool>::new()]);
    assert_eq!(
        compute_each_combination(2),
        vec![vec![false, false], vec![true, false], vec![false, true], vec![true, true]]
    );
    let rows = compute_each_combination(3);
    assert_eq!(rows.len(), 8);
    for (i, row) in rows.iter().enumerate() {
        for (j, value) in row.iter().enumerate() {
            assert_eq!(*value, i & (1 << j) != 0);
        }
    }
}

#[test]
fn existence_factor_for_predicate() {
    let conclusion = predicate(relation("date".to_string(), vec![]), vec![sub(variable(man())), obj(variable(woman()))]);
    let rule = extract_existence_factor_for_predicate(&conclusion);
    assert_eq!(rule.premise.hash_string(), "exist[obj=?woman,sub=?man]");
    assert_eq!(rule.conclusion.hash_string(), "date[obj=?woman,sub=?man]");
    assert_eq!(rule.role_maps.role_maps[0].role_map, vec![("sub".to_string(), "sub".to_string()), ("obj".to_string(), "obj".to_string())]);
}

#[test]
fn existence_factor_for_proposition() {
    let rule = extract_existence_factor_for_proposition(&date("jack", "jill"));
    assert_eq!(rule.premise.hash_string(), "exist[obj=?woman,sub=?man]");
    let slots: Vec<String> = rule.premise.terms[0].relation.types.iter().map(|t| t.domain.clone()).collect();
    assert_eq!(slots, vec![man(), woman()]);
    let same = extract_existence_factor_for_predicate(&rule.conclusion);
    assert_eq!(same.unique_key(), rule.unique_key());
    assert_eq!(rule.conclusion.hash_string(), "date[obj=?woman,sub=?man]");
    assert_eq!(rule.unique_key(), "exist[obj=?woman,sub=?man]->date[obj=?woman,sub=?man]|sub=sub,obj=obj");
}

#[test]
fn belief_lookups() {
    let table = RedisBeliefTable::new("dating".to_string());
    let exist = proposition(relation("exist".to_string(), vec![]), vec![sub(constant(man(), "jack".to_string()))]);
    assert!(matches!(table.lookup(&exist), BeliefLookup::Certain));
    match table.lookup(&date("jack", "jill")) {
        BeliefLookup::Field(k) => assert_eq!(k, "date[obj=jill,sub=jack]"),
        _ => panic!("expected a stored field"),
    }
    let empty = EmptyBeliefTable::new();
    assert!(matches!(empty.lookup(&exist), BeliefLookup::Certain));
    assert!(matches!(empty.lookup(&date("jack", "jill")), BeliefLookup::Unobserved));
}

#[test]
fn factors_feeding_a_vertex() {
    let graph = PropositionGraph::new(&dating_index(), &date("jack", "jill"));
    let like_id = graph.find_node(&"like[obj=jill,sub=jack]".to_string()).unwrap();
    let factors = graph.factors_for_parents(like_id).unwrap();
    let premises: Vec<String> = factors.iter().map(|f| f.premise.hash_string()).collect();
    assert_eq!(premises, vec!["lonely[sub=jack]".to_string(), "exciting[sub=jill]".to_string()]);
    assert_eq!(factors[0].conclusion.hash_string(), "like[obj=jill,sub=jack]");
    let group = graph.get_all_backward(0)[0];
    assert!(graph.factors_for_parents(group).is_none());
    let names = bayes_star::weights::factor_feature_names(&factors, 1);
    assert_eq!(names.len(), 2);
    assert_eq!(names[0].0, format!("+>+ {}", factors[0].inference.unique_key()));
    assert_eq!(names[1].1, format!("->+ {}", factors[1].inference.unique_key()));
    assert_eq!(factors[0].inference.unique_key(), "lonely[sub=?man]->like[obj=?woman,sub=?man]|sub=sub");
}

use bayes_star::text::{join_strings, sort_strings, text_le};
use bayes_star::objects::Predicate;
use bayes_star::ops::convert_to_quantified;
use bayes_star::objects::RoleMap;
use bayes_star::ops::{contains_string, convert_to_proposition, extract_premise_role_map, find_role, GroundingError};
use bayes_star::creators::{constant, obj, predicate, proposition, relation, role, sub, variable, variable_argument};
use bayes_star::objects::{existence_predicate_name, Proposition};
use bayes_star::schema::{namespace_qualified_key, qualified_key, EdgeLabel, FactorType, NodeLabel, PropProperty};

fn likes(subject: &str, object: &str) -> Proposition {
    let rel = relation(
        "likes".to_string(),
        vec![variable_argument("person".to_string()), variable_argument("food".to_string())],
    );
    proposition(
        rel,
        vec![
            sub(constant("person".to_string(), subject.to_string())),
            obj(constant("food".to_string(), object.to_string())),
        ],
    )
}

#[test]
fn canonical_hash_has_sorted_roles() {
    let p = likes("alice", "pizza");
    assert_eq!(p.hash_string(), "likes[obj=pizza,sub=alice]");
}

#[test]
fn canonical_hash_ignores_role_order() {
    let rel = relation("likes".to_string(), vec![]);
    let a = proposition(
        rel.clone(),
        vec![
            sub(constant("person".to_string(), "alice".to_string())),
            obj(constant("food".to_string(), "pizza".to_string())),
        ],
    );
    let b = proposition(
        rel,
        vec![
            obj(constant("food".to_string(), "pizza".to_string())),
            sub(constant("person".to_string(), "alice".to_string())),
        ],
    );
    assert_eq!(a.hash_string(), b.hash_string());
}

#[test]
fn canonical_hash_ignores_order_of_three_roles() {
    let rel = relation("gives".to_string(), vec![]);
    let x = role("giver".to_string(), constant("p".to_string(), "ann".to_string()));
    let y = role("gift".to_string(), constant("t".to_string(), "book".to_string()));
    let z = role("taker".to_string(), constant("p".to_string(), "bob".to_string()));
    let a = proposition(rel.clone(), vec![x.clone(), y.clone(), z.clone()]);
    let b = proposition(rel.clone(), vec![z.clone(), x.clone(), y.clone()]);
    let c = proposition(rel, vec![y, z, x]);
    assert_eq!(a.hash_string(), "gives[gift=book,giver=ann,taker=bob]");
    assert_eq!(a.hash_string(), b.hash_string());
    assert_eq!(b.hash_string(), c.hash_string());
}

#[test]
fn distinct_groundings_have_distinct_hashes() {
    let keys = vec![
        likes("alice", "pizza").hash_string(),
        likes("pizza", "alice").hash_string(),
        likes("bob", "pizza").hash_string(),
        likes("alice", "soup").hash_string(),
    ];
    for i in 0..keys.len() {
        for j in 0..keys.len() {
            if i != j {
                assert_ne!(keys[i], keys[j]);
            }
        }
    }
}

#[test]
fn variables_hash_by_domain() {
    let rel = relation("likes".to_string(), vec![]);
    let p = predicate(rel, vec![sub(variable("person".to_string())), obj(constant("food".to_string(), "pizza".to_string()))]);
    assert_eq!(p.hash_string(), "likes[obj=pizza,sub=?person]");
}

#[test]
fn existence_relation_name() {
    assert_eq!(existence_predicate_name(), "exist");
}

#[test]
fn qualified_keys() {
    assert_eq!(qualified_key("ns", "weights"), "bayes-star:ns:weights");
    assert_eq!(namespace_qualified_key("dating", "probabilities"), "bayes-star:dating:probabilities");
}

#[test]
fn label_names() {
    assert_eq!(NodeLabel::SetContainer.as_str(), "Set");
    assert_eq!(NodeLabel::ListItem.as_str(), "ListItem");
    assert_eq!(EdgeLabel::BelongsToDomain.as_str(), "BELONGS_TO_DOMAIN");
    assert_eq!(EdgeLabel::ImpliedBy.as_str(), "IMPLIED_BY");
    assert_eq!(FactorType::WeightedSum.as_str(), "WEIGHTED_SUM");
    assert_eq!(PropProperty::PredicateHash.as_str(), "predicate_hash");
}

#[test]
fn text_order_and_sorting() {
    assert!(text_le("abc", "abd"));
    assert!(text_le("ab", "abc"));
    assert!(!text_le("b", "abc"));
    assert!(text_le("", ""));
    let sorted = sort_strings(vec!["sub=x".to_string(), "obj=y".to_string(), "agent=z".to_string()]);
    assert_eq!(sorted, vec!["agent=z".to_string(), "obj=y".to_string(), "sub=x".to_string()]);
    assert_eq!(join_strings(&sorted, ","), "agent=z,obj=y,sub=x");
    assert_eq!(join_strings(&vec![], ","), "");
}

#[test]
fn predicate_from_just_name_takes_domains_from_arguments() {
    let p = Predicate::new_from_just_name(
        "exist".to_string(),
        vec![sub(variable("man".to_string())), obj(constant("woman".to_string(), "jill".to_string()))],
    );
    let domains: Vec<String> = p.relation.types.iter().map(|t| t.domain.clone()).collect();
    assert_eq!(domains, vec!["man".to_string(), "woman".to_string()]);
    assert_eq!(p.role_names(), vec!["sub".to_string(), "obj".to_string()]);
    assert_eq!(p.roles().len(), 2);
}

#[test]
fn quantifying_roles() {
    let p = likes("alice", "pizza");
    let q = convert_to_quantified(&p, &vec!["obj".to_string()]);
    assert_eq!(q.hash_string(), "likes[obj=?food,sub=alice]");
    let both = convert_to_quantified(&p, &vec!["obj".to_string(), "sub".to_string()]);
    assert_eq!(both.hash_string(), "likes[obj=?food,sub=?person]");
    let none = convert_to_quantified(&p, &vec![]);
    assert_eq!(none.hash_string(), p.hash_string());
}

#[test]
fn projecting_and_grounding() {
    let p = likes("alice", "pizza");
    let bindings = extract_premise_role_map(&p, &RoleMap::new(vec![("eater".to_string(), "sub".to_string())])).unwrap();
    assert_eq!(bindings.len(), 1);
    assert_eq!(bindings[0].hash_string(), "eater=alice");
    let missing = extract_premise_role_map(&p, &RoleMap::new(vec![("eater".to_string(), "cook".to_string())]));
    assert_eq!(missing.err(), Some(GroundingError::RoleNotInConclusion));
    let hungry = predicate(relation("hungry".to_string(), vec![]), vec![role("eater".to_string(), variable("person".to_string()))]);
    assert_eq!(convert_to_proposition(&hungry, &bindings).unwrap().hash_string(), "hungry[eater=alice]");
    assert_eq!(convert_to_proposition(&hungry, &vec![]).err(), Some(GroundingError::UnboundRole));
    assert_eq!(find_role(&p.predicate.roles, &"obj".to_string()).unwrap().hash_string(), "pizza");
    assert!(find_role(&p.predicate.roles, &"cook".to_string()).is_none());
    assert!(contains_string(&vec!["a".to_string(), "b".to_string()], &"b".to_string()));
    assert!(!contains_string(&vec!["a".to_string()], &"c".to_string()));
}

use bayes_star::batch::BatchTrainer;
use bayes_star::creators::{conjunction, implication, predicate, relation, sub, variable};
use bayes_star::objects::RoleMap;
use bayes_star::weights::{
    check_weight_file, negative_feature, positive_feature, ConsolidationResult, ConsolidationTrigger,
    DeltaLedger, ExponentialWeights, FormatError,
};

#[test]
fn feature_names() {
    assert_eq!(positive_feature("k", 1), "+>+ k");
    assert_eq!(positive_feature("k", 0), "+>- k");
    assert_eq!(negative_feature("k", 1), "->+ k");
    assert_eq!(negative_feature("k", 0), "->- k");
}

#[test]
fn initialize_weights_names_four_features() {
    let rule = implication(
        conjunction(vec![predicate(relation("a".to_string(), vec![]), vec![sub(variable("d".to_string()))])]),
        predicate(relation("b".to_string(), vec![]), vec![sub(variable("d".to_string()))]),
        vec![RoleMap::new(vec![("sub".to_string(), "sub".to_string())])],
    );
    let mut weights = ExponentialWeights::new("test".to_string());
    let names = weights.initialize_weights(&rule);
    let key = "a[sub=?d]->b[sub=?d]|sub=sub";
    assert_eq!(
        names,
        vec![format!("+>- {}", key), format!("->- {}", key), format!("+>+ {}", key), format!("->+ {}", key)]
    );
    assert_eq!(weights.known_features.len(), 4);
    weights.initialize_weights(&rule);
    assert_eq!(weights.known_features.len(), 4);
}

#[test]
fn ledger_counts_updates() {
    let mut ledger = DeltaLedger::new();
    assert_eq!(ledger.size(), 0);
    ledger.record_update(&"feature1".to_string(), 100);
    ledger.record_update(&"feature2".to_string(), 100);
    ledger.record_update(&"feature1".to_string(), 100);
    assert_eq!(ledger.size(), 2);
    assert_eq!(ledger.update_count(&"feature1".to_string()), Some(2));
    assert_eq!(ledger.update_count(&"feature2".to_string()), Some(1));
    assert_eq!(ledger.update_count(&"feature3".to_string()), None);
}

#[test]
fn ledger_hot_features() {
    let mut ledger = DeltaLedger::new();
    for _ in 0..5 {
        ledger.record_update(&"hot_feature".to_string(), 100);
    }
    ledger.record_update(&"cold_feature".to_string(), 100);
    let hot = ledger.get_hot_features(3);
    assert_eq!(hot, vec!["hot_feature".to_string()]);
    assert_eq!(ledger.get_hot_features(0).len(), 2);
}

#[test]
fn ledger_clear_features() {
    let mut ledger = DeltaLedger::new();
    for f in ["feature1", "feature2", "feature3"] {
        ledger.record_update(&f.to_string(), 100);
    }
    assert_eq!(ledger.size(), 3);
    ledger.clear_features(&vec!["feature1".to_string(), "feature3".to_string()]);
    assert_eq!(ledger.size(), 1);
    assert_eq!(ledger.update_count(&"feature2".to_string()), Some(1));
    assert_eq!(ledger.update_count(&"feature1".to_string()), None);
}

#[test]
fn consolidation_merges_cold_and_keeps_hot() {
    let mut ledger = DeltaLedger::new();
    for _ in 0..3 {
        ledger.record_update(&"hot_feature".to_string(), 100);
    }
    ledger.record_update(&"cold_feature".to_string(), 100);
    assert_eq!(ledger.size(), 2);
    let plan = ledger.consolidate(2);
    assert_eq!(plan.merge, vec!["cold_feature".to_string()]);
    assert_eq!(plan.keep, vec!["hot_feature".to_string()]);
    let result = ConsolidationResult::new(ConsolidationTrigger::Manual, &plan, 7);
    assert_eq!(result.features_consolidated, 1);
    assert_eq!(result.hot_features_kept, 1);
    assert_eq!(result.duration_ms, 7);
    assert_eq!(ledger.size(), 1);
    assert_eq!(ledger.update_count(&"cold_feature".to_string()), None);
    assert_eq!(ledger.update_count(&"hot_feature".to_string()), Some(3));
}

#[test]
fn consolidation_due() {
    let mut ledger = DeltaLedger::new();
    ledger.record_update(&"a".to_string(), 100);
    ledger.record_update(&"b".to_string(), 150);
    assert!(ledger.should_consolidate(1, 200, 1000));
    assert!(!ledger.should_consolidate(2, 200, 1000));
    assert!(!ledger.should_consolidate(2, 1100, 1000));
    assert!(ledger.should_consolidate(2, 1101, 1000));
    assert_eq!(ledger.get_old_features(1101, 1000), vec!["a".to_string()]);
    assert_eq!(ledger.get_old_features(1200, 1000), vec!["a".to_string(), "b".to_string()]);
    assert_eq!(ledger.get_old_features(i64::MAX, i64::MAX), Vec::<String>::new());
}

#[test]
fn update_times_follow_the_latest_update() {
    let mut ledger = DeltaLedger::new();
    ledger.record_update(&"a".to_string(), 100);
    ledger.record_update(&"a".to_string(), 500);
    assert_eq!(ledger.entries[0].last_updated, 500);
    assert_eq!(ledger.entries[0].update_count, 2);
    ledger.record_update(&"a".to_string(), 300);
    assert_eq!(ledger.update_count(&"a".to_string()), Some(3));
    assert_eq!(ledger.entries[0].last_updated, 300);
    ledger.record_update(&"b".to_string(), 700);
    assert_eq!(ledger.entries[1].update_count, 1);
    assert_eq!(ledger.entries[1].last_updated, 700);
}

#[test]
fn weight_file_checks() {
    let ns = "test".to_string();
    assert_eq!(check_weight_file(1, &ns, &ns), Ok(()));
    assert_eq!(check_weight_file(0, &ns, &ns), Ok(()));
    assert_eq!(check_weight_file(2, &ns, &ns), Err(FormatError::VersionMismatch));
    assert_eq!(check_weight_file(2, &"other".to_string(), &ns), Err(FormatError::VersionMismatch));
    assert_eq!(check_weight_file(1, &"other".to_string(), &ns), Err(FormatError::NamespaceMismatch));
}

#[test]
fn batches_of_two() {
    let trainer = BatchTrainer::new(2);
    assert_eq!(trainer.make_batches(vec![1, 2, 3, 4, 5]), vec![vec![1, 2], vec![3, 4], vec![5]]);
    assert_eq!(trainer.make_batches(vec![1, 2, 3, 4]), vec![vec![1, 2], vec![3, 4]]);
    assert_eq!(trainer.make_batches(Vec::<i32>::new()), Vec::<Vec<i32>>::new());
}

#[test]
fn batches_of_size_zero_hold_one_item() {
    let trainer = BatchTrainer::new(0);
    assert_eq!(trainer.make_batches(vec!['a', 'b']), vec![vec!['a'], vec!['b']]);
}

use rating_indexer::ident::SnapshotId;
use rating_indexer::indexer::{build_snapshot, QueryOption, RatingIndexer};
use rating_indexer::round::{collect_round, group_triples, resolve_triples, LensReply};
use rating_indexer::task::{
    CalculationStragety, FetchOption, Task, TaskArgs, TaskOptions, DEFAULT_WEIGHT,
};
use rating_indexer::Error;

fn task(name: &str, options: Vec<FetchOption>) -> Task {
    Task {
        id: name.to_string(),
        lens: "lens-service".to_string(),
        args: TaskArgs {
            id: name.to_string(),
            ids: vec![],
        },
        source: "source-service".to_string(),
        strategy: CalculationStragety { weight: DEFAULT_WEIGHT },
        options: TaskOptions { options },
    }
}

fn option(fetch: &str, bucket: &str, weight: f64) -> FetchOption {
    FetchOption {
        id_to_fetch: fetch.to_string(),
        aggregation_key: bucket.to_string(),
        strategy: CalculationStragety {
            weight: weight.to_bits(),
        },
    }
}

#[test]
fn collect_keeps_a_round_only_when_every_source_answered() {
    let ok: Vec<Option<LensReply>> = vec![Some(vec![]), Some(vec![("a".to_string(), Some(1))])];
    let collected = collect_round(ok).unwrap();
    assert_eq!(collected.len(), 2);
    assert_eq!(collected[1][0].0, "a");

    let failed: Vec<Option<LensReply>> = vec![Some(vec![]), None, Some(vec![])];
    assert_eq!(collect_round(failed), Err(Error::TransportError));
}

#[test]
fn triples_resolve_weights_and_buckets() {
    let tasks = vec![
        task("t1", vec![option("usdc", "stable", 2.0)]),
        task("t2", vec![]),
    ];
    let replies: Vec<LensReply> = vec![
        vec![
            ("usdc".to_string(), Some(5.0f64.to_bits())),
            ("doge".to_string(), None),
        ],
        vec![("usdc".to_string(), Some(3.0f64.to_bits()))],
    ];
    let triples = resolve_triples(&tasks, &replies);
    assert_eq!(triples.len(), 3);

    assert_eq!(triples[0].key, "stable");
    assert_eq!(triples[0].task_id, "t1");
    assert_eq!(triples[0].value, 5.0f64.to_bits());
    assert_eq!(triples[0].weight, 2.0f64.to_bits());

    // no option named the identifier: global bucket, default weight,
    // and a missing value reads as zero
    assert_eq!(triples[1].key, "");
    assert_eq!(triples[1].value, 0);
    assert_eq!(triples[1].weight, DEFAULT_WEIGHT);
    assert_eq!(f64::from_bits(DEFAULT_WEIGHT), 1.0);

    assert_eq!(triples[2].key, "");
    assert_eq!(triples[2].task_id, "t2");

    let groups = group_triples(&triples);
    assert_eq!(groups.len(), 2);
    assert_eq!(groups[0].key, "stable");
    assert_eq!(groups[0].entries.len(), 1);
    assert_eq!(groups[1].key, "");
    assert_eq!(groups[1].entries.len(), 2);
    assert_eq!(groups[1].entries[0].task_id, "t1");
    assert_eq!(groups[1].entries[1].task_id, "t2");
}

#[test]
fn mutation_is_refused_without_the_controller_check() {
    let mut ix = RatingIndexer::new();
    assert_eq!(
        ix.add_task(false, task("t1", vec![])),
        Err(Error::Unauthorized)
    );
    assert_eq!(ix.remove_task(false, "t1"), Err(Error::Unauthorized));
    assert_eq!(ix.update_max_count(false, 5), Err(Error::Unauthorized));
    assert_eq!(
        ix.update_duration_seconds(false, 5),
        Err(Error::Unauthorized)
    );
    assert_eq!(ix.tasks().len(), 0);
    assert_eq!(ix.max_count(), 1000);
    assert_eq!(ix.duration_seconds(), 86400);
}

#[test]
fn registry_is_mutated_by_a_controller() {
    let mut ix = RatingIndexer::new();
    ix.add_task(true, task("t1", vec![])).unwrap();
    ix.add_task(true, task("t2", vec![])).unwrap();
    assert_eq!(ix.tasks().len(), 2);
    ix.remove_task(true, "t1").unwrap();
    let left = ix.tasks();
    assert_eq!(left.len(), 1);
    assert_eq!(left[0].id, "t2");
    ix.update_max_count(true, 3).unwrap();
    assert_eq!(ix.max_count(), 3);
}

#[test]
fn a_round_needs_the_proxy_check_and_runs_alone() {
    let mut ix = RatingIndexer::new();
    assert!(matches!(ix.begin_round(false), Err(Error::Unauthorized)));
    let plan = ix.begin_round(true).unwrap();
    assert_eq!(plan.duration_seconds, 86400);
    assert!(matches!(ix.begin_round(true), Err(Error::RoundInProgress)));
    ix.abort_round();
    assert!(ix.begin_round(true).is_ok());
}

#[test]
fn a_failed_source_leaves_the_store_untouched() {
    let mut ix = RatingIndexer::new();
    for name in ["t1", "t2", "t3"] {
        ix.add_task(true, task(name, vec![])).unwrap();
    }
    // an earlier round committed one snapshot
    let prior = build_snapshot(SnapshotId::from_parts(1000, 0), &vec![], &vec![]);
    ix.commit_round(prior);
    assert_eq!(ix.snapshots_len(), 1);

    let plan = ix.begin_round(true).unwrap();
    assert_eq!(plan.tasks.len(), 3);
    let outcomes: Vec<Option<LensReply>> = vec![
        Some(vec![("usdc".to_string(), Some(5.0f64.to_bits()))]),
        None,
        Some(vec![("usdc".to_string(), Some(4.0f64.to_bits()))]),
    ];
    let collected = collect_round(outcomes);
    assert_eq!(collected, Err(Error::TransportError));
    ix.abort_round();

    assert_eq!(ix.snapshots_len(), 1);
    let latest = ix.get_last_snapshot().unwrap();
    assert_eq!(latest.id, SnapshotId::from_parts(1000, 0));
}

#[test]
fn a_full_round_commits_one_snapshot() {
    let mut ix = RatingIndexer::new();
    ix.add_task(true, task("t1", vec![option("usdc", "stable", 1.0)]))
        .unwrap();
    ix.add_task(true, task("t2", vec![option("usdc", "stable", 1.0)]))
        .unwrap();

    let plan = ix.begin_round(true).unwrap();
    let outcomes: Vec<Option<LensReply>> = vec![
        Some(vec![("usdc".to_string(), Some(4.0f64.to_bits()))]),
        Some(vec![("usdc".to_string(), Some(9.0f64.to_bits()))]),
    ];
    let replies = collect_round(outcomes).unwrap();
    let triples = resolve_triples(&plan.tasks, &replies);
    let groups = group_triples(&triples);
    assert_eq!(groups.len(), 1);

    // the boundary combines each bucket's values; here a plain
    // geometric mean of 4 and 9
    let score = (4.0f64.powf(0.5) * 9.0f64.powf(0.5)).to_bits();
    let snapshot = build_snapshot(SnapshotId::from_parts(2000, 7), &groups, &vec![score]);
    assert_eq!(snapshot.scores.len(), 2);
    ix.commit_round(snapshot);

    assert_eq!(ix.snapshots_len(), 1);
    let value = ix.get_last_snapshot_value().unwrap();
    assert_eq!(value.len(), 1);
    assert_eq!(value[0].0, "stable");
    assert_eq!(f64::from_bits(value[0].1), 6.0);

    let found = ix.query_between(QueryOption {
        from_timestamp: Some(2_000_000_000),
        to_timestamp: Some(2_000_000_000),
    });
    assert_eq!(found.len(), 1);
    assert_eq!(found[0].id, SnapshotId::from_parts(2000, 7));
}

#[test]
fn an_empty_store_answers_no_data() {
    let ix = RatingIndexer::new();
    assert_eq!(ix.get_last_snapshot(), Err(Error::NoData));
    assert!(matches!(ix.get_last_snapshot_value(), Err(Error::NoData)));
    assert_eq!(ix.snapshots_len(), 0);
}

#[test]
fn missing_query_bounds_read_as_zero() {
    let mut ix = RatingIndexer::new();
    let s = build_snapshot(SnapshotId::from_parts(1000, 0), &vec![], &vec![]);
    ix.commit_round(s);
    let none = ix.query_between(QueryOption {
        from_timestamp: None,
        to_timestamp: None,
    });
    assert!(none.is_empty());
    let found = ix.query_between(QueryOption {
        from_timestamp: None,
        to_timestamp: Some(1_000_000_000),
    });
    assert_eq!(found.len(), 1);
}

#[test]
fn retention_bound_of_one_keeps_only_the_newest() {
    let mut ix = RatingIndexer::new();
    ix.update_max_count(true, 1).unwrap();
    let s1 = build_snapshot(SnapshotId::from_parts(1000, 1), &vec![], &vec![]);
    let s2 = build_snapshot(SnapshotId::from_parts(1000, 2), &vec![], &vec![]);
    let id1 = s1.id.clone();
    let id2 = s2.id.clone();
    ix.commit_round(s1);
    ix.commit_round(s2);
    assert_eq!(ix.snapshots_len(), 1);
    assert_eq!(ix.get_last_snapshot().unwrap().id, id2);
    assert!(ix.snapshots.get_snapshot(&id1).is_none());
    assert!(ix.snapshots.get_snapshot(&id2).is_some());
}

use rating_indexer::ident::SnapshotId;
use rating_indexer::store::{Snapshot, SnapshotStore};

fn snap(id_text: &str) -> Snapshot {
    Snapshot {
        id: SnapshotId {
            id: id_text.to_string(),
        },
        value: Vec::new(),
        scores: Vec::new(),
    }
}

fn snap_at(ts: u64, rand: u128) -> Snapshot {
    Snapshot {
        id: SnapshotId::from_parts(ts, rand),
        value: Vec::new(),
        scores: Vec::new(),
    }
}

#[test]
fn test_add_snapshot() {
    let snapshot = snap("01HX8MP06M000000000000004F");
    let mut store = SnapshotStore::new();
    store.add_snapshot(snapshot.clone(), 1000);
    let result = store.get_snapshot(&snapshot.id);
    assert_eq!(result.unwrap().id, snapshot.id);
    assert_eq!(store.snapshots_len(), 1);
}

#[test]
fn test_delete_snapshot() {
    let snapshot = snap("01HX8MP06M000000000000004F");
    let mut store = SnapshotStore::new();
    store.add_snapshot(snapshot.clone(), 0);
    let result = store.get_snapshot(&snapshot.id);
    assert!(result.is_none());
    let new_snapshot_1 = snap_at(1715055275000, 1);
    let new_snapshot_2 = snap_at(1715055275000, 2);
    store.add_snapshot(new_snapshot_1.clone(), 1);
    store.add_snapshot(new_snapshot_2.clone(), 1);
    let result_1 = store.get_snapshot(&new_snapshot_1.id);
    assert_eq!(result_1, None);
    let result_2 = store.get_snapshot(&new_snapshot_2.id);
    assert_eq!(result_2.unwrap().id, new_snapshot_2.id);
    assert_eq!(store.snapshots_len(), 1);
}

#[test]
fn eviction_keeps_the_most_recent() {
    let mut store = SnapshotStore::new();
    for i in 0..5u64 {
        store.add_snapshot(snap_at(1000 + i, 0), 3);
        assert!(store.snapshots_len() <= 3);
    }
    assert_eq!(store.snapshots_len(), 3);
    assert!(store.get_snapshot(&SnapshotId::from_parts(1000, 0)).is_none());
    assert!(store.get_snapshot(&SnapshotId::from_parts(1001, 0)).is_none());
    for i in 2..5u64 {
        assert!(store.get_snapshot(&SnapshotId::from_parts(1000 + i, 0)).is_some());
    }
    assert_eq!(
        store.get_last_snapshot().unwrap().id,
        SnapshotId::from_parts(1004, 0)
    );
}

#[test]
fn latest_of_empty_store_is_nothing() {
    let store = SnapshotStore::new();
    assert!(store.get_last_snapshot().is_none());
    assert!(store.get_last_snapshot_value().is_none());
    assert_eq!(store.snapshots_len(), 0);
}

#[test]
fn range_query_returns_exactly_the_window() {
    let mut store = SnapshotStore::new();
    for ts in [100u64, 200, 300, 400, 500] {
        store.add_snapshot(snap_at(ts, 0), 1000);
    }
    let mid = store.snapshots_between(200, 400);
    let got: Vec<u64> = mid.iter().map(|s| s.id.timestamp_ms()).collect();
    assert_eq!(got, vec![400, 300, 200]);

    let all = store.snapshots_between(0, 10_000);
    assert_eq!(all.len(), 5);
    assert_eq!(all[0].id.timestamp_ms(), 500);
    assert_eq!(all[4].id.timestamp_ms(), 100);

    let none = store.snapshots_between(201, 299);
    assert!(none.is_empty());

    let empty_window = store.snapshots_between(400, 200);
    assert!(empty_window.is_empty());

    let edge = store.snapshots_between(500, 500);
    assert_eq!(edge.len(), 1);
    assert_eq!(edge[0].id.timestamp_ms(), 500);
}

#[test]
fn range_query_breaks_ties_within_one_millisecond()
{
    let mut store = SnapshotStore::new();
    store.add_snapshot(snap_at(300, 1), 1000);
    store.add_snapshot(snap_at(300, 2), 1000);
    store.add_snapshot(snap_at(301, 0), 1000);
    let r = store.snapshots_between(300, 300);
    assert_eq!(r.len(), 2);
    assert_eq!(r[0].id, SnapshotId::from_parts(300, 2));
    assert_eq!(r[1].id, SnapshotId::from_parts(300, 1));
}

#[test]
fn top_snapshots_come_newest_first() {
    let mut store = SnapshotStore::new();
    for ts in [10u64, 20, 30] {
        store.add_snapshot(snap_at(ts, 0), 1000);
    }
    let top = store.get_top_snapshots(2);
    assert_eq!(top.len(), 2);
    assert_eq!(top[0].id.timestamp_ms(), 30);
    assert_eq!(top[1].id.timestamp_ms(), 20);
    let all = store.get_top_snapshots(99);
    assert_eq!(all.len(), 3);
    let values = store.get_top_snapshot_values(2);
    assert_eq!(values.len(), 2);
    assert!(values[0].is_empty());
}

#[test]
fn latest_value_map_is_the_committed_one() {
    let mut store = SnapshotStore::new();
    let mut s = snap_at(700, 0);
    s.value.push(("pool".to_string(), 42u64));
    store.add_snapshot(s, 1000);
    let v = store.get_last_snapshot_value().unwrap();
    assert_eq!(v, vec![("pool".to_string(), 42u64)]);
}

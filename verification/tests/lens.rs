use rating_indexer::lens::{complement_datasets, Date, Snapshot, SnapshotId, SnapshotValue};

const SECONDS_IN_DAY: i64 = 86_400;
const NANOSECONDS_IN_DAY: u64 = SECONDS_IN_DAY as u64 * 1_000_000_000;

#[test]
fn test_date_eq() {
    let date1 = Date::new(0);
    let date2 = Date::new(1);
    assert_eq!(date1, date2);
    let date3 = Date::new(NANOSECONDS_IN_DAY as i64);
    assert!(!date1.eq(&date3));
    let date4 = Date::new(NANOSECONDS_IN_DAY as i64 - 1);
    assert_eq!(date1, date4);
}

#[test]
fn next_moves_one_day_on() {
    let day = Date::new(0);
    assert_eq!(day.next(), Date::new(NANOSECONDS_IN_DAY as i64));
    assert_eq!(day.next().next(), Date::new(2 * NANOSECONDS_IN_DAY as i64));
}

#[test]
fn test_complement_datasets() {
    let v = SnapshotValue { raw: vec![] };
    let ts_first = 0 * NANOSECONDS_IN_DAY;
    let ts_last = 4 * NANOSECONDS_IN_DAY;
    let datasets = vec![
        Snapshot {
            id: SnapshotId {
                id: "1".to_string(),
            },
            value: v.clone(),
            timestamp: 1 * NANOSECONDS_IN_DAY,
        },
        Snapshot {
            id: SnapshotId {
                id: "2".to_string(),
            },
            value: v.clone(),
            timestamp: 3 * NANOSECONDS_IN_DAY,
        },
    ];
    let result = complement_datasets(datasets, ts_first, ts_last);
    assert_eq!(result.len(), 5);
}

#[test]
fn complement_fills_missing_days_with_empty_entries() {
    let datasets = vec![Snapshot {
        id: SnapshotId {
            id: "only".to_string(),
        },
        value: SnapshotValue { raw: vec![7] },
        timestamp: NANOSECONDS_IN_DAY,
    }];
    let result = complement_datasets(datasets, 0, 2 * NANOSECONDS_IN_DAY);
    assert_eq!(result.len(), 3);
    assert_eq!(result[0].id.id, "");
    assert_eq!(result[0].value.raw, Vec::<u8>::new());
    assert_eq!(result[1].id.id, "only");
    assert_eq!(result[1].value.raw, vec![7]);
    assert_eq!(result[2].id.id, "");
}

#[test]
fn a_later_read_of_one_day_replaces_the_earlier() {
    let datasets = vec![
        Snapshot {
            id: SnapshotId {
                id: "morning".to_string(),
            },
            value: SnapshotValue { raw: vec![1] },
            timestamp: 0,
        },
        Snapshot {
            id: SnapshotId {
                id: "evening".to_string(),
            },
            value: SnapshotValue { raw: vec![2] },
            timestamp: NANOSECONDS_IN_DAY / 2,
        },
    ];
    let result = complement_datasets(datasets, 0, NANOSECONDS_IN_DAY - 1);
    assert_eq!(result.len(), 1);
    assert_eq!(result[0].id.id, "evening");
}

use rating_indexer::config::{parse_u64, u64_to_string, ConfigStore, Key, Value};

#[test]
fn defaults_apply_when_nothing_is_stored() {
    let cfg = ConfigStore::new();
    assert_eq!(cfg.max_count(), 1000);
    assert_eq!(cfg.duration_seconds(), 86400);
}

#[test]
fn updates_are_read_back() {
    let mut cfg = ConfigStore::new();
    cfg.update_max_count(7);
    assert_eq!(cfg.max_count(), 7);
    assert_eq!(cfg.duration_seconds(), 86400);
    cfg.update_duration_seconds(3600);
    assert_eq!(cfg.duration_seconds(), 3600);
    assert_eq!(cfg.max_count(), 7);
    cfg.update_max_count(0);
    assert_eq!(cfg.max_count(), 0);
}

#[test]
fn unreadable_text_falls_back_to_the_default() {
    let mut cfg = ConfigStore::new();
    cfg.entries.push((
        Key {
            id: "max_count".to_string(),
        },
        Value {
            value: "plenty".to_string(),
        },
    ));
    assert_eq!(cfg.max_count(), 1000);
    cfg.entries.clear();
    cfg.entries.push((
        Key {
            id: "duration_seconds".to_string(),
        },
        Value {
            value: "".to_string(),
        },
    ));
    assert_eq!(cfg.duration_seconds(), 86400);
}

#[test]
fn stored_text_is_parsed_on_read() {
    let mut cfg = ConfigStore::new();
    cfg.entries.push((
        Key {
            id: "max_count".to_string(),
        },
        Value {
            value: "+42".to_string(),
        },
    ));
    assert_eq!(cfg.max_count(), 42);
}

#[test]
fn numbers_round_trip_through_text() {
    for n in [0u64, 7, 10, 999, 1000, 86400, u64::MAX] {
        let text = u64_to_string(n);
        assert_eq!(parse_u64(&text), Some(n));
    }
    assert_eq!(u64_to_string(0), "0");
    assert_eq!(u64_to_string(1000), "1000");
    assert_eq!(u64_to_string(u64::MAX), "18446744073709551615");
}

#[test]
fn parse_rejects_what_is_no_number() {
    assert_eq!(parse_u64(""), None);
    assert_eq!(parse_u64("+"), None);
    assert_eq!(parse_u64("-1"), None);
    assert_eq!(parse_u64("12a"), None);
    assert_eq!(parse_u64(" 12"), None);
    assert_eq!(parse_u64("18446744073709551615"), Some(u64::MAX));
    assert_eq!(parse_u64("18446744073709551616"), None);
    assert_eq!(parse_u64("99999999999999999999999"), None);
    assert_eq!(parse_u64("0012"), Some(12));
}

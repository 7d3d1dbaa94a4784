use rating_indexer::ident::SnapshotId;
use rating_indexer::Error;

#[test]
fn test_ulid_from() {
    let now_nanosec = 1715055275000_i64 * 1_000_000;
    let rand = now_nanosec as u128;
    let id = SnapshotId::from_parts((now_nanosec / 1_000_000) as u64, rand);
    assert_eq!(id.timestamp_ms(), 1715055275000);
}

#[test]
fn from_parts_matches_ulid_crate() {
    let cases: [(u64, u128); 5] = [
        (0, 0),
        (1234567890, 0),
        (1715055275000, 77),
        (0xFFFF_FFFF_FFFF, 0xFFFF_FFFF_FFFF_FFFF_FFFF),
        (1715055275000, 0x1234_5678_9ABC_DEF0_1234),
    ];
    for (ts, rand) in cases {
        let ours = SnapshotId::from_parts(ts, rand);
        let theirs = ulid::Ulid::from_parts(ts, rand);
        assert_eq!(ours.to_string(), theirs.to_string());
        assert_eq!(ours.timestamp_ms(), theirs.timestamp_ms());
    }
}

#[test]
fn parse_round_trips() {
    let id = SnapshotId::from_parts(1715055275000, 424242);
    let text = id.to_string();
    let back = SnapshotId::parse(&text).unwrap();
    assert_eq!(back.timestamp_ms(), 1715055275000);
    assert_eq!(back.random(), 424242);
    assert_eq!(back, id);
}

#[test]
fn parse_accepts_lowercase_as_same_id() {
    let upper = SnapshotId::parse("01HX8MP06M000000000000004F").unwrap();
    let lower = SnapshotId::parse("01hx8mp06m000000000000004f").unwrap();
    assert_eq!(upper.timestamp_ms(), lower.timestamp_ms());
    assert_eq!(upper.random(), lower.random());
    assert_eq!(upper, lower);
    assert!(matches!(
        upper.compare(&lower),
        core::cmp::Ordering::Equal
    ));
    assert!(ulid::Ulid::from_string("01hx8mp06m000000000000004f").is_ok());
}

#[test]
fn parse_rejects_malformed_text() {
    assert_eq!(SnapshotId::parse(""), Err(Error::MalformedId));
    assert_eq!(SnapshotId::parse("01HX8MP06M"), Err(Error::MalformedId));
    // 27 characters
    assert_eq!(
        SnapshotId::parse("01HX8MP06M000000000000004F0"),
        Err(Error::MalformedId)
    );
    // U is not in the alphabet
    assert_eq!(
        SnapshotId::parse("U1HX8MP06M000000000000004F"),
        Err(Error::MalformedId)
    );
    assert!(ulid::Ulid::from_string("U1HX8MP06M000000000000004F").is_err());
    // a leading digit above 7 overflows 128 bits
    assert_eq!(
        SnapshotId::parse("81HX8MP06M000000000000004F"),
        Err(Error::MalformedId)
    );
}

#[test]
fn compare_orders_by_timestamp_then_randomness() {
    let early_small = SnapshotId::from_parts(1000, 5);
    let early_large = SnapshotId::from_parts(1000, 9);
    let late_small = SnapshotId::from_parts(2000, 1);
    assert!(matches!(
        early_small.compare(&early_large),
        core::cmp::Ordering::Less
    ));
    assert!(matches!(
        early_large.compare(&late_small),
        core::cmp::Ordering::Less
    ));
    assert!(matches!(
        late_small.compare(&early_small),
        core::cmp::Ordering::Greater
    ));
    assert!(matches!(
        early_small.compare(&early_small),
        core::cmp::Ordering::Equal
    ));
}

#[test]
fn compare_agrees_with_ulid_crate_order() {
    let pairs: [(u64, u128); 4] = [(5, 1), (5, 2), (6, 0), (7, 0xFFFF)];
    for a in pairs {
        for b in pairs {
            let ours = SnapshotId::from_parts(a.0, a.1).compare(&SnapshotId::from_parts(b.0, b.1));
            let theirs = ulid::Ulid::from_parts(a.0, a.1).cmp(&ulid::Ulid::from_parts(b.0, b.1));
            assert_eq!(ours, theirs);
        }
    }
}

#[test]
fn canonical_text_sorts_like_the_decoded_pairs() {
    let ids = [
        SnapshotId::from_parts(5, 90),
        SnapshotId::from_parts(90, 5),
        SnapshotId::from_parts(5, 5),
        SnapshotId::from_parts(1715055275000, 0),
        SnapshotId::from_parts(5, 6),
    ];
    let mut by_text: Vec<String> = ids.iter().map(|i| i.to_string()).collect();
    by_text.sort();
    let mut by_pair: Vec<SnapshotId> = ids.to_vec();
    by_pair.sort_by(|a, b| a.compare(b));
    let pair_texts: Vec<String> = by_pair.iter().map(|i| i.to_string()).collect();
    assert_eq!(by_text, pair_texts);
}

#[test]
fn timestamp_masks_to_48_bits() {
    let id = SnapshotId::from_parts(u64::MAX, 0);
    assert_eq!(id.timestamp_ms(), 0xFFFF_FFFF_FFFF);
    let id2 = SnapshotId::from_parts(7, u128::MAX);
    assert_eq!(id2.timestamp_ms(), 7);
    assert_eq!(id2.random(), 0xFFFF_FFFF_FFFF_FFFF_FFFF);
}

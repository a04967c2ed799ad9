//! The Bloom filters.
use karma::bloom::canonical_bytes;
use karma::{value_hash, Bloom, BloomEntry, BloomError, Value, ZoneBlooms, DEFAULT_BITS_PER_VALUE};

#[test]
fn xxh64_test_vector() {
    assert_eq!(value_hash(&Value::Bytes(vec![])), Some(0xEF46_DB37_51D8_E999));
}

#[test]
fn no_false_negatives() {
    let values: Vec<Value> = (0..500).map(|i| Value::str(&format!("uuid-{i:08}"))).collect();
    let b = Bloom::build(&values, DEFAULT_BITS_PER_VALUE);
    for v in &values {
        assert!(b.might_contain(v), "false negative for {v:?}");
    }
}

#[test]
fn false_positive_rate_is_bounded() {
    let inserted: Vec<Value> = (0..1000).map(|i| Value::str(&format!("k{i}"))).collect();
    let b = Bloom::build(&inserted, DEFAULT_BITS_PER_VALUE);
    let mut fp = 0;
    let probes = 5000;
    for i in 0..probes {
        if b.might_contain(&Value::str(&format!("absent-{i}"))) {
            fp += 1;
        }
    }
    assert!(fp * 100 < probes * 5, "FPR too high: {fp}/{probes}");
}

#[test]
fn bloom_encode_decode_roundtrip() {
    let mk = |ids: &[&str]| Bloom::build(&ids.iter().map(|s| Value::str(s)).collect::<Vec<_>>(), 16);
    let zb = ZoneBlooms::new(vec![
        BloomEntry { zone_id: 0, field_id: 1, bloom: mk(&["a", "b", "c"]) },
        BloomEntry { zone_id: 1, field_id: 1, bloom: mk(&["x", "y"]) },
    ]);
    assert_eq!(ZoneBlooms::decode(&zb.encode()).unwrap(), zb);
}

#[test]
fn membership_prunes_absent_zone() {
    let zb = ZoneBlooms::new(vec![BloomEntry {
        zone_id: 0,
        field_id: 1,
        bloom: Bloom::build(&[Value::str("present")], 16),
    }]);
    assert!(zb.might_contain(0, 1, &Value::str("present")));
    assert!(!zb.might_contain(0, 1, &Value::str("definitely-absent-value")));
    assert!(zb.might_contain(9, 1, &Value::str("anything")));
}

#[test]
fn canonical_bytes_of_each_kind() {
    assert_eq!(canonical_bytes(&Value::Null), None);
    assert_eq!(canonical_bytes(&Value::Bool(true)), Some(vec![1]));
    assert_eq!(canonical_bytes(&Value::I64(-2)), Some((-2i64).to_le_bytes().to_vec()));
    assert_eq!(canonical_bytes(&Value::F64(1.5f64.to_bits())), Some(1.5f64.to_le_bytes().to_vec()));
    assert_eq!(canonical_bytes(&Value::str("ab")), Some(vec![97, 98]));
    let mut decimal = (-3i128).to_le_bytes().to_vec();
    decimal.extend_from_slice(&2i32.to_le_bytes());
    assert_eq!(canonical_bytes(&Value::Decimal { unscaled: -3, scale: 2 }), Some(decimal));
    assert_eq!(canonical_bytes(&Value::Date(-1)), Some(vec![255; 4]));
    assert_eq!(canonical_bytes(&Value::Time(1)), Some(1i64.to_le_bytes().to_vec()));
    assert_eq!(canonical_bytes(&Value::Timestamp(1)), Some(1i64.to_le_bytes().to_vec()));
}

#[test]
fn hashing_is_xxh64_with_seed_zero() {
    assert_eq!(value_hash(&Value::Null), None);
    assert_eq!(value_hash(&Value::str("abc")), Some(twox_hash::XxHash64::oneshot(0, b"abc")));
    assert_ne!(value_hash(&Value::str("abc")), Some(0));
}

#[test]
fn sizing_rounds_up_to_blocks() {
    let values = |n: i64| (0..n).map(Value::I64).collect::<Vec<_>>();
    assert_eq!(Bloom::with_blocks(0).num_blocks(), 1);
    assert_eq!(Bloom::with_blocks(3).num_blocks(), 3);
    assert_eq!(Bloom::build(&[], 16).num_blocks(), 1);
    assert_eq!(Bloom::build(&values(16), 16).num_blocks(), 1);
    assert_eq!(Bloom::build(&values(17), 16).num_blocks(), 2);
    assert_eq!(Bloom::build(&values(32), 16).num_blocks(), 2);
    assert_eq!(Bloom::build(&[Value::Null, Value::I64(1)], 256).num_blocks(), 1);
    assert_eq!(Bloom::build(&[Value::I64(0), Value::I64(1)], 256).num_blocks(), 2);
}

#[test]
fn an_insert_only_adds() {
    let mut b = Bloom::with_blocks(4);
    assert!(!b.check_hash(7));
    b.insert_hash(7);
    assert!(b.check_hash(7));
    let before = b.clone();
    b.insert(&Value::Null);
    assert_eq!(b, before);
    b.insert(&Value::str("x"));
    assert!(b.might_contain(&Value::str("x")));
    assert!(b.check_hash(7));
}

#[test]
fn the_mask_of_a_hash() {
    // Hash zero sets bit 0 of each word of block 0; one in the upper half picks the block.
    let mut b = Bloom::with_blocks(2);
    b.insert_hash(0x8000_0000_0000_0000);
    let bytes = ZoneBlooms::new(vec![BloomEntry { zone_id: 5, field_id: -1, bloom: b }]).encode();
    let mut want = vec![1u8];
    want.extend_from_slice(&1u32.to_le_bytes());
    want.extend_from_slice(&5u32.to_le_bytes());
    want.extend_from_slice(&(-1i32).to_le_bytes());
    want.extend_from_slice(&2u32.to_le_bytes());
    want.extend_from_slice(&[0; 32]);
    for _ in 0..8 {
        want.extend_from_slice(&1u32.to_le_bytes());
    }
    assert_eq!(bytes, want);
}

#[test]
fn a_filter_without_blocks_answers_maybe() {
    let mut payload = vec![1u8];
    payload.extend_from_slice(&1u32.to_le_bytes());
    payload.extend_from_slice(&[0; 12]);
    let zb = ZoneBlooms::decode(&payload).unwrap();
    assert_eq!(zb.get(0, 0).unwrap().num_blocks(), 0);
    assert!(zb.might_contain(0, 0, &Value::I64(1)));
}

#[test]
fn bad_payloads() {
    let zb = ZoneBlooms::new(vec![BloomEntry { zone_id: 0, field_id: 1, bloom: Bloom::with_blocks(1) }]);
    let whole = zb.encode();
    for n in 0..whole.len() {
        assert_eq!(ZoneBlooms::decode(&whole[..n]), Err(BloomError::Truncated));
    }
    let mut other = whole.clone();
    other[0] = 2;
    assert_eq!(ZoneBlooms::decode(&other), Err(BloomError::BadVersion(2)));
    assert_eq!(BloomError::Truncated.message(), "truncated bloom payload");
    assert_eq!(BloomError::BadVersion(2).message(), "unsupported bloom version 2");
    assert_eq!(ZoneBlooms::default(), ZoneBlooms::new(vec![]));
}

#[test]
fn sizing_counts_distinct_values() {
    let many: Vec<Value> = (0..17).map(|_| Value::str("a")).collect();
    assert_eq!(Bloom::build(&many, 16).num_blocks(), 1);
    let mut mixed: Vec<Value> = (0..100).map(|i| Value::I64(i % 20)).collect();
    mixed.push(Value::Null);
    assert_eq!(Bloom::build(&mixed, 16).num_blocks(), 2);
    assert_eq!(Bloom::build(&mixed, 13).num_blocks(), 2);
    assert_eq!(Bloom::build(&mixed, 12).num_blocks(), 1);
    for v in &mixed {
        assert!(Bloom::build(&mixed, 16).might_contain(v));
    }
    // Equal bytes count once, whatever the kind of value.
    assert_eq!(Bloom::build(&[Value::I64(5), Value::Timestamp(5)], 256).num_blocks(), 1);
    assert_eq!(Bloom::build(&[Value::Null, Value::Null], 256).num_blocks(), 1);
}

#[test]
fn cut_filters_are_truncated() {
    let entry = |zone_id, v: &str| BloomEntry { zone_id, field_id: -2, bloom: Bloom::build(&[Value::str(v)], 16) };
    let bytes = ZoneBlooms::new(vec![entry(0, "x"), entry(1, "y")]).encode();
    for k in 0..bytes.len() {
        assert!(matches!(ZoneBlooms::decode(&bytes[..k]), Err(BloomError::Truncated)));
    }
}

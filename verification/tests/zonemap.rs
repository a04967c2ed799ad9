//! The zone-map codec.
use karma::zonemap::{decimal_from_min_be, decimal_min_be, single_value_bytes, value_from_single_value};
use karma::{ColumnStats, ColumnTypes, IcebergType, Value, ZoneMap, ZoneMapError, ZoneStats};

fn f64v(x: f64) -> Value {
    Value::F64(x.to_bits())
}

fn types() -> ColumnTypes {
    ColumnTypes::from([
        (1, IcebergType::Int),
        (2, IcebergType::String),
        (5, IcebergType::Double),
        (6, IcebergType::Long),
        (7, IcebergType::Boolean),
        (10, IcebergType::Decimal { scale: 2 }),
        (11, IcebergType::Decimal { scale: 9 }),
        (12, IcebergType::Date),
        (13, IcebergType::Time),
        (14, IcebergType::Timestamp),
    ])
}

fn sample() -> ZoneMap {
    ZoneMap::new(vec![
        ZoneStats {
            zone_id: 0,
            row_offset: 0,
            row_count: 100,
            columns: vec![
                ColumnStats { field_id: 1, min: Value::I64(0), max: Value::I64(10), null_count: 3, value_count: 97 },
                ColumnStats { field_id: 2, min: Value::str("alpha"), max: Value::str("mid"), null_count: 0, value_count: 100 },
            ],
        },
        ZoneStats {
            zone_id: 1,
            row_offset: 100,
            row_count: 50,
            columns: vec![ColumnStats {
                field_id: 1,
                min: Value::I64(20),
                max: Value::I64(30),
                null_count: 0,
                value_count: 50,
            }],
        },
    ])
}

#[test]
fn zonemap_encode_decode_roundtrip() {
    let zm = sample();
    let decoded = ZoneMap::decode(&zm.encode(&types()), &types()).unwrap();
    assert_eq!(zm, decoded);
}

#[test]
fn floats_and_nulls_roundtrip() {
    let zm = ZoneMap::new(vec![ZoneStats {
        zone_id: 9,
        row_offset: 0,
        row_count: 1,
        columns: vec![
            ColumnStats { field_id: 5, min: f64v(-1.5), max: f64v(3.25), null_count: 0, value_count: 1 },
            ColumnStats { field_id: 6, min: Value::Null, max: Value::Null, null_count: 1, value_count: 0 },
        ],
    }]);
    assert_eq!(zm, ZoneMap::decode(&zm.encode(&types()), &types()).unwrap());
}

#[test]
fn decimal_and_temporal_roundtrip() {
    let zm = ZoneMap::new(vec![ZoneStats {
        zone_id: 3,
        row_offset: 0,
        row_count: 4,
        columns: vec![
            ColumnStats { field_id: 10, min: Value::Decimal { unscaled: 10050, scale: 2 }, max: Value::Decimal { unscaled: 999_999, scale: 2 }, null_count: 0, value_count: 4 },
            ColumnStats { field_id: 11, min: Value::Decimal { unscaled: -170_141_183_460_469_231_731i128, scale: 9 }, max: Value::Decimal { unscaled: i128::MAX, scale: 9 }, null_count: 0, value_count: 4 },
            ColumnStats { field_id: 12, min: Value::Date(-1), max: Value::Date(19_723), null_count: 0, value_count: 4 },
            ColumnStats { field_id: 13, min: Value::Time(0), max: Value::Time(86_399_999_999), null_count: 0, value_count: 4 },
            ColumnStats { field_id: 14, min: Value::Timestamp(i64::MIN), max: Value::Timestamp(1_704_067_200_000_000), null_count: 0, value_count: 4 },
        ],
    }]);
    assert_eq!(zm, ZoneMap::decode(&zm.encode(&types()), &types()).unwrap());
}

#[test]
fn decimal_min_be_matches_biginteger() {
    assert_eq!(decimal_min_be(0), vec![0x00]);
    assert_eq!(decimal_min_be(1), vec![0x01]);
    assert_eq!(decimal_min_be(127), vec![0x7f]);
    assert_eq!(decimal_min_be(128), vec![0x00, 0x80]);
    assert_eq!(decimal_min_be(-1), vec![0xff]);
    assert_eq!(decimal_min_be(-128), vec![0x80]);
    assert_eq!(decimal_min_be(-129), vec![0xff, 0x7f]);
    assert_eq!(decimal_min_be(10050), vec![0x27, 0x42]);
    assert_eq!(decimal_min_be(-10050), vec![0xd8, 0xbe]);
    for v in [0i128, 1, -1, 255, -255, 256, i128::MIN, i128::MAX, -170_141_183_460_469_231_731] {
        assert_eq!(decimal_from_min_be(&decimal_min_be(v)), v, "roundtrip {v}");
    }
}

#[test]
fn rejects_bad_version() {
    let mut b = sample().encode(&types());
    b[0] = 99;
    assert!(matches!(ZoneMap::decode(&b, &types()), Err(ZoneMapError::BadVersion(99))));
}

#[test]
fn decode_without_type_errors_on_present_bound() {
    let zm = sample();
    let empty = ColumnTypes::new();
    assert!(matches!(ZoneMap::decode(&zm.encode(&types()), &empty), Err(ZoneMapError::MissingType(_))));
}

#[test]
fn every_prefix_is_truncated() {
    let whole = sample().encode(&types());
    for n in 0..whole.len() {
        assert_eq!(ZoneMap::decode(&whole[..n], &types()), Err(ZoneMapError::Truncated), "prefix {n}");
    }
    let mut longer = whole.clone();
    longer.extend_from_slice(b"trailing");
    assert_eq!(ZoneMap::decode(&longer, &types()).unwrap(), sample());
}

#[test]
fn layout_is_little_endian() {
    let zm = ZoneMap::new(vec![ZoneStats {
        zone_id: 2,
        row_offset: 3,
        row_count: 4,
        columns: vec![ColumnStats { field_id: -5, min: Value::I64(-2), max: Value::I64(258), null_count: 6, value_count: 7 }],
    }]);
    let types = ColumnTypes::from([(-5, IcebergType::Int)]);
    let mut want: Vec<u8> = vec![1];
    want.extend_from_slice(&1u32.to_le_bytes());
    want.extend_from_slice(&2u32.to_le_bytes());
    want.extend_from_slice(&3u64.to_le_bytes());
    want.extend_from_slice(&4u64.to_le_bytes());
    want.extend_from_slice(&1u32.to_le_bytes());
    want.extend_from_slice(&(-5i32).to_le_bytes());
    want.extend_from_slice(&6u64.to_le_bytes());
    want.extend_from_slice(&7u64.to_le_bytes());
    want.extend_from_slice(&4u32.to_le_bytes());
    want.extend_from_slice(&(-2i32).to_le_bytes());
    want.extend_from_slice(&4u32.to_le_bytes());
    want.extend_from_slice(&258i32.to_le_bytes());
    assert_eq!(zm.encode(&types), want);
}

#[test]
fn single_values_follow_their_type() {
    assert_eq!(single_value_bytes(&Value::Null, IcebergType::Long), Vec::<u8>::new());
    assert_eq!(single_value_bytes(&Value::Bool(true), IcebergType::Boolean), vec![1]);
    assert_eq!(single_value_bytes(&Value::I64(i64::MIN), IcebergType::Long), i64::MIN.to_le_bytes().to_vec());
    assert_eq!(single_value_bytes(&f64v(0.1), IcebergType::Float), 0.1f32.to_le_bytes().to_vec());
    assert_eq!(single_value_bytes(&f64v(0.1), IcebergType::Double), 0.1f64.to_le_bytes().to_vec());
    // A type that does not fit the value leaves it under its own type.
    assert_eq!(single_value_bytes(&Value::Date(7), IcebergType::Long), 7i32.to_le_bytes().to_vec());
    // An integer wider than its type keeps its low bytes.
    assert_eq!(single_value_bytes(&Value::I64(0x1_0000_0002), IcebergType::Int), 2i32.to_le_bytes().to_vec());
}

#[test]
fn fixed_width_types_reject_other_widths() {
    for ty in [IcebergType::Boolean, IcebergType::Int, IcebergType::Long, IcebergType::Float, IcebergType::Double, IcebergType::Date, IcebergType::Time, IcebergType::Timestamp] {
        assert_eq!(value_from_single_value(&[0; 3], ty), Err(ZoneMapError::Truncated));
    }
    assert_eq!(value_from_single_value(&[0; 17], IcebergType::Decimal { scale: 0 }), Err(ZoneMapError::Truncated));
    assert_eq!(value_from_single_value(&[0xff], IcebergType::Decimal { scale: 3 }), Ok(Value::Decimal { unscaled: -1, scale: 3 }));
    assert_eq!(value_from_single_value(&[9], IcebergType::Boolean), Ok(Value::Bool(true)));
}

#[test]
fn values_compare_as_numbers() {
    assert_eq!(f64v(0.0), f64v(-0.0));
    assert_ne!(f64v(f64::NAN), f64v(f64::NAN));
    assert_ne!(Value::I64(1), Value::Time(1));
    assert_eq!(Value::str("ab"), Value::Bytes(vec![97, 98]));
    assert_ne!(Value::str("ab"), Value::str("abc"));
    let mut zm = sample();
    zm.zones[0].columns[1].max = Value::str("mie");
    assert_ne!(zm, sample());
    assert_eq!(sample().clone(), sample());
    assert_eq!(ZoneMap::default().zones.len(), 0);
}

#[test]
fn an_empty_string_bound_reads_back_as_absent() {
    let zm = ZoneMap::new(vec![ZoneStats {
        zone_id: 0,
        row_offset: 0,
        row_count: 1,
        columns: vec![ColumnStats { field_id: 2, min: Value::str(""), max: Value::str("a"), null_count: 0, value_count: 1 }],
    }]);
    let back = ZoneMap::decode(&zm.encode(&types()), &types()).unwrap();
    assert_eq!(back.zones[0].columns[0].min, Value::Null);
    assert_eq!(back.zones[0].columns[0].max, Value::str("a"));
}

#[test]
fn a_column_is_the_first_of_its_field() {
    let zm = sample();
    assert_eq!(zm.zones[0].column(2).unwrap().max, Value::str("mid"));
    assert!(zm.zones[0].column(3).is_none());
}

#[test]
fn types_are_inferred_from_the_bound_present() {
    let c = ColumnStats { field_id: 1, min: Value::Null, max: Value::Date(3), null_count: 0, value_count: 1 };
    assert_eq!(c.resolve_type(&ColumnTypes::new()), IcebergType::Date);
    assert_eq!(c.resolve_type(&types()), IcebergType::Int);
    assert_eq!(Value::Null.inferred_type(), IcebergType::Long);
    assert_eq!(f64v(1.0).inferred_type(), IcebergType::Double);
}

#[test]
fn errors_in_words() {
    assert_eq!(ZoneMapError::Truncated.message(), "truncated zone-map payload");
    assert_eq!(ZoneMapError::BadVersion(99).message(), "unsupported zone-map version 99 (this build understands 1)");
    assert_eq!(ZoneMapError::MissingType(-7).message(), "no type in the schema for field id -7 (needed to decode its bound)");
}

#[test]
fn float_columns_lose_nothing() {
    // A float column is stored in four bytes; what was widened from four comes back whole.
    for x in [0.1f32, -0.0, f32::MAX, f32::MIN_POSITIVE, f32::INFINITY, 1.0e-45] {
        let v = f64v(x as f64);
        let bytes = single_value_bytes(&v, IcebergType::Float);
        assert_eq!(bytes, x.to_le_bytes().to_vec());
        let back = value_from_single_value(&bytes, IcebergType::Float).unwrap();
        assert!(matches!(back, Value::F64(b) if b == (x as f64).to_bits()));
    }
}

//! Conservative pruning.
use karma::prune::{can_skip, Order};
use karma::{compare, surviving_zones, surviving_zones_indexed, Bloom, BloomEntry, ColumnStats, Predicate, Value, ZoneBlooms, ZoneMap, ZoneStats};

fn f64v(x: f64) -> Value {
    Value::F64(x.to_bits())
}

fn zm() -> ZoneMap {
    ZoneMap::new(vec![
        ZoneStats {
            zone_id: 0,
            row_offset: 0,
            row_count: 100,
            columns: vec![
                ColumnStats { field_id: 1, min: Value::I64(0), max: Value::I64(10), null_count: 0, value_count: 100 },
                ColumnStats { field_id: 2, min: Value::str("alpha"), max: Value::str("mid"), null_count: 0, value_count: 100 },
            ],
        },
        ZoneStats {
            zone_id: 1,
            row_offset: 100,
            row_count: 50,
            columns: vec![ColumnStats { field_id: 1, min: Value::I64(20), max: Value::I64(30), null_count: 0, value_count: 50 }],
        },
    ])
}

#[test]
fn gt_prunes_low_zone() {
    assert_eq!(surviving_zones(&zm(), &Predicate::Gt(1, Value::I64(15))), vec![1]);
    assert_eq!(surviving_zones(&zm(), &Predicate::Gt(1, Value::I64(5))), vec![0, 1]);
}

#[test]
fn eq_hits_only_containing_zone() {
    assert_eq!(surviving_zones(&zm(), &Predicate::Eq(1, Value::I64(25))), vec![1]);
    assert_eq!(surviving_zones(&zm(), &Predicate::Eq(1, Value::I64(15))), Vec::<u32>::new());
    assert_eq!(surviving_zones(&zm(), &Predicate::Eq(1, Value::I64(0))), vec![0]);
}

#[test]
fn lt_and_lteq_boundaries() {
    assert_eq!(surviving_zones(&zm(), &Predicate::Lt(1, Value::I64(0))), Vec::<u32>::new());
    assert_eq!(surviving_zones(&zm(), &Predicate::Lt(1, Value::I64(5))), vec![0]);
    assert_eq!(surviving_zones(&zm(), &Predicate::LtEq(1, Value::I64(0))), vec![0]);
}

#[test]
fn string_bounds_prune() {
    assert_eq!(surviving_zones(&zm(), &Predicate::Eq(2, Value::str("zzz"))), vec![1]);
    assert_eq!(surviving_zones(&zm(), &Predicate::Eq(2, Value::str("beta"))), vec![0, 1]);
}

#[test]
fn missing_column_is_conservative() {
    let survivors = surviving_zones(&zm(), &Predicate::Eq(2, Value::str("zzz")));
    assert!(survivors.contains(&1));
}

#[test]
fn all_null_zone_is_skipped() {
    let zm = ZoneMap::new(vec![ZoneStats {
        zone_id: 7,
        row_offset: 0,
        row_count: 10,
        columns: vec![ColumnStats { field_id: 1, min: Value::Null, max: Value::Null, null_count: 10, value_count: 0 }],
    }]);
    assert_eq!(surviving_zones(&zm, &Predicate::Eq(1, Value::I64(1))), Vec::<u32>::new());
}

#[test]
fn gteq_boundaries() {
    assert_eq!(surviving_zones(&zm(), &Predicate::GtEq(1, Value::I64(30))), vec![1]);
    assert_eq!(surviving_zones(&zm(), &Predicate::GtEq(1, Value::I64(31))), Vec::<u32>::new());
    assert_eq!(surviving_zones(&zm(), &Predicate::Gt(1, Value::I64(30))), Vec::<u32>::new());
    assert_eq!(Predicate::GtEq(4, Value::Null).clone().field(), 4);
}

#[test]
fn the_order_of_each_kind() {
    assert_eq!(compare(&Value::Bool(false), &Value::Bool(true)), Some(Order::Less));
    assert_eq!(compare(&Value::I64(2), &Value::I64(-2)), Some(Order::Greater));
    assert_eq!(compare(&f64v(-0.0), &f64v(0.0)), Some(Order::Equal));
    assert_eq!(compare(&f64v(f64::NEG_INFINITY), &f64v(-1e300)), Some(Order::Less));
    assert_eq!(compare(&f64v(5e-324), &f64v(0.0)), Some(Order::Greater));
    assert_eq!(compare(&f64v(f64::NAN), &f64v(0.0)), None);
    assert_eq!(compare(&Value::str("ab"), &Value::str("abc")), Some(Order::Less));
    assert_eq!(compare(&Value::str("b"), &Value::str("abc")), Some(Order::Greater));
    let dec = |u: i128, s: i32| Value::Decimal { unscaled: u, scale: s };
    assert_eq!(compare(&dec(1, 2), &dec(2, 2)), Some(Order::Less));
    assert_eq!(compare(&dec(1, 2), &dec(1, 3)), None);
    assert_eq!(compare(&Value::Date(1), &Value::Date(1)), Some(Order::Equal));
    assert_eq!(compare(&Value::Time(1), &Value::Time(2)), Some(Order::Less));
    assert_eq!(compare(&Value::Timestamp(3), &Value::Timestamp(2)), Some(Order::Greater));
    assert_eq!(compare(&Value::I64(1), &Value::Date(1)), None);
    assert_eq!(compare(&Value::Null, &Value::Null), None);
}

#[test]
fn unsure_means_kept() {
    let zone = |min: Value, max: Value| ZoneStats {
        zone_id: 0,
        row_offset: 0,
        row_count: 1,
        columns: vec![ColumnStats { field_id: 1, min, max, null_count: 0, value_count: 1 }],
    };
    let nan = zone(f64v(f64::NAN), f64v(f64::NAN));
    assert!(!can_skip(&nan, &Predicate::Eq(1, f64v(9.0))));
    assert!(!can_skip(&nan, &Predicate::Gt(1, f64v(9.0))));
    assert!(!can_skip(&zone(Value::I64(0), Value::I64(1)), &Predicate::Eq(1, Value::Date(9))));
    assert!(!can_skip(&zone(Value::Null, Value::Null), &Predicate::Lt(1, Value::I64(0))));
    assert!(can_skip(&zone(f64v(0.0), f64v(1.0)), &Predicate::Eq(1, f64v(1.5))));
    assert!(!can_skip(&zone(f64v(0.0), f64v(1.0)), &Predicate::Eq(1, f64v(-0.0))));
}

#[test]
fn blooms_only_tighten() {
    let blooms = ZoneBlooms::new(vec![BloomEntry { zone_id: 0, field_id: 1, bloom: Bloom::build(&[Value::I64(3), Value::I64(10)], 16) }]);
    let eq = |v: i64| Predicate::Eq(1, Value::I64(v));
    assert_eq!(surviving_zones_indexed(&zm(), Some(&blooms), &eq(3)), vec![0]);
    assert_eq!(surviving_zones(&zm(), &eq(4)), vec![0]);
    assert_eq!(surviving_zones_indexed(&zm(), Some(&blooms), &eq(4)), Vec::<u32>::new());
    // A bloom never keeps what the stats rule out, and zone 1 has none.
    assert_eq!(surviving_zones_indexed(&zm(), Some(&blooms), &eq(25)), vec![1]);
    assert_eq!(surviving_zones_indexed(&zm(), Some(&blooms), &eq(15)), Vec::<u32>::new());
    // Only equality asks the bloom.
    assert_eq!(surviving_zones_indexed(&zm(), Some(&blooms), &Predicate::GtEq(1, Value::I64(4))), vec![0, 1]);
}

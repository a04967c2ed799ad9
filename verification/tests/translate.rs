//! Filters, and the tables that prune by them.
use karma::table::KarmaZoneTable;
use karma::translate::{filters_pushdown, flip_op, scalar_to_value, Expr, FieldIds, FilterPushDown, Operator, ScalarValue};
use karma::{Bloom, BloomEntry, ColumnStats, Value, ZoneBlooms, ZoneMap, ZoneStats, DEFAULT_BITS_PER_VALUE};

fn col(name: &str) -> Expr {
    Expr::Column(name.to_string())
}

fn lit(s: ScalarValue) -> Expr {
    Expr::Literal(s)
}

fn num(v: i64) -> Expr {
    lit(ScalarValue::Int64(Some(v)))
}

fn txt(v: &str) -> Expr {
    lit(ScalarValue::Utf8(Some(v.to_string())))
}

fn bin(left: Expr, op: Operator, right: Expr) -> Expr {
    Expr::BinaryExpr { left: Box::new(left), op, right: Box::new(right) }
}

fn ids(pairs: &[(&str, i32)]) -> FieldIds {
    let mut out = FieldIds::new();
    for (name, id) in pairs {
        out.insert(name.to_string(), *id);
    }
    out
}

fn fixture() -> KarmaZoneTable<(), Vec<i64>> {
    let col = |fid: i32, mn: Value, mx: Value, vc: u64| ColumnStats { field_id: fid, min: mn, max: mx, null_count: 0, value_count: vc };
    let zm = ZoneMap::new(vec![
        ZoneStats {
            zone_id: 0,
            row_offset: 0,
            row_count: 5,
            columns: vec![col(1, Value::I64(0), Value::I64(4), 5), col(2, Value::str("r0"), Value::str("r4"), 5)],
        },
        ZoneStats {
            zone_id: 1,
            row_offset: 5,
            row_count: 5,
            columns: vec![col(1, Value::I64(20), Value::I64(24), 5), col(2, Value::str("r20"), Value::str("r24"), 5)],
        },
    ]);
    KarmaZoneTable::new((), zm, vec![vec![0, 1, 2, 3, 4], vec![20, 21, 22, 23, 24]], ids(&[("id", 1), ("name", 2)]))
}

#[test]
fn prunes_zones_by_predicate() {
    let t = fixture();
    let gt10 = bin(col("id"), Operator::Gt, num(10));
    assert_eq!(t.surviving_zone_indices(&[gt10]), vec![1], "id>10 prunes zone 0");

    let eq100 = bin(col("id"), Operator::Eq, num(100));
    assert_eq!(t.surviving_zone_indices(&[eq100]), Vec::<usize>::new(), "id=100 prunes both");

    let lt3 = bin(col("id"), Operator::Lt, num(3));
    assert_eq!(t.surviving_zone_indices(&[lt3]), vec![0], "id<3 prunes zone 1");

    let both = bin(bin(col("id"), Operator::Gt, num(1)), Operator::And, bin(col("id"), Operator::Lt, num(24)));
    assert_eq!(t.surviving_zone_indices(&[both]), vec![0, 1]);

    let neq = bin(col("name"), Operator::NotEq, txt("r0"));
    assert_eq!(t.surviving_zone_indices(&[neq]), vec![0, 1], "NotEq can't prune");
}

fn bloom_fixture() -> (ZoneMap, ZoneBlooms) {
    let col = |fid: i32, mn: Value, mx: Value| ColumnStats { field_id: fid, min: mn, max: mx, null_count: 0, value_count: 3 };
    let zm = ZoneMap::new(vec![
        ZoneStats { zone_id: 0, row_offset: 0, row_count: 3, columns: vec![
            col(1, Value::I64(0), Value::I64(2)),
            col(3, Value::str("k-00"), Value::str("k-04")),
        ]},
        ZoneStats { zone_id: 1, row_offset: 3, row_count: 3, columns: vec![
            col(1, Value::I64(3), Value::I64(5)),
            col(3, Value::str("k-01"), Value::str("k-05")),
        ]},
    ]);
    let bloom = |vs: &[&str]| Bloom::build(&vs.iter().map(|s| Value::str(s)).collect::<Vec<_>>(), DEFAULT_BITS_PER_VALUE);
    let zb = ZoneBlooms::new(vec![
        BloomEntry { zone_id: 0, field_id: 3, bloom: bloom(&["k-00", "k-02", "k-04"]) },
        BloomEntry { zone_id: 1, field_id: 3, bloom: bloom(&["k-01", "k-03", "k-05"]) },
    ]);
    (zm, zb)
}

#[test]
fn bloom_prunes_where_zonemap_cannot() {
    let eq = || bin(col("code"), Operator::Eq, txt("k-03"));
    let (zm, zb) = bloom_fixture();
    let fids = || ids(&[("id", 1), ("code", 3)]);

    let t_no = KarmaZoneTable::new((), zm.clone(), vec![0, 1], fids());
    assert_eq!(t_no.surviving_zone_indices(&[eq()]), vec![0, 1]);

    let t = KarmaZoneTable::new((), zm, vec![0, 1], fids()).with_blooms(zb);
    assert_eq!(t.surviving_zone_indices(&[eq()]), vec![1]);
}

#[test]
fn decimal_and_temporal_prune() {
    let ts_2023: i64 = 1_672_531_200_000_000;
    let ts_2024: i64 = 1_704_067_200_000_000;
    let dec = |u: i128| Value::Decimal { unscaled: u, scale: 2 };
    let stats = |fid, mn, mx| ColumnStats { field_id: fid, min: mn, max: mx, null_count: 0, value_count: 3 };
    let zm = ZoneMap::new(vec![
        ZoneStats { zone_id: 0, row_offset: 0, row_count: 3, columns: vec![
            stats(1, dec(100), dec(5000)),
            stats(2, Value::Timestamp(ts_2023), Value::Timestamp(ts_2024 - 1)),
        ]},
        ZoneStats { zone_id: 1, row_offset: 3, row_count: 3, columns: vec![
            stats(1, dec(10050), dec(99999)),
            stats(2, Value::Timestamp(ts_2024), Value::Timestamp(ts_2024 + 2_000_000)),
        ]},
    ]);
    let t = KarmaZoneTable::new((), zm, vec![0, 1], ids(&[("amount", 1), ("ts", 2)]));

    let gt = bin(col("amount"), Operator::Gt, lit(ScalarValue::Decimal128(Some(10050), 10, 2)));
    assert_eq!(t.surviving_zone_indices(&[gt]), vec![1], "amount>100.50 prunes zone 0");

    let eq = bin(col("amount"), Operator::Eq, lit(ScalarValue::Decimal128(Some(2500), 10, 2)));
    assert_eq!(t.surviving_zone_indices(&[eq]), vec![0], "amount=25.00 prunes zone 1");

    let ge = bin(col("ts"), Operator::GtEq, lit(ScalarValue::TimestampMicrosecond(Some(ts_2024))));
    assert_eq!(t.surviving_zone_indices(&[ge]), vec![1], "ts>='2024-01-01' prunes zone 0");

    let ge_ms = bin(col("ts"), Operator::GtEq, lit(ScalarValue::TimestampMillisecond(Some(ts_2024 / 1_000))));
    assert_eq!(t.surviving_zone_indices(&[ge_ms]), vec![1], "ms literal normalizes to µs");
}

#[test]
fn scans_read_the_surviving_batches_in_order() {
    let t = fixture();
    assert_eq!(t.scan(&[bin(col("id"), Operator::Gt, num(10))]), vec![&vec![20, 21, 22, 23, 24]]);
    assert_eq!(t.scan(&[]).len(), 2);
    // The literal may stand on the left: `3 > id`.
    assert_eq!(t.scan(&[bin(num(3), Operator::Gt, col("id"))]), vec![&vec![0, 1, 2, 3, 4]]);
}

#[test]
fn filters_are_anded_and_lists_are_ored() {
    let t = fixture();
    let list = |vs: Vec<i64>, negated: bool| Expr::InList { expr: Box::new(col("id")), list: vs.into_iter().map(num).collect(), negated };
    assert_eq!(t.surviving_zone_indices(&[list(vec![2, 22], false)]), vec![0, 1]);
    assert_eq!(t.surviving_zone_indices(&[list(vec![10, 22], false)]), vec![1]);
    assert_eq!(t.surviving_zone_indices(&[list(vec![10], false)]), Vec::<usize>::new());
    assert_eq!(t.surviving_zone_indices(&[list(vec![10], true)]), vec![0, 1]);
    assert_eq!(t.surviving_zone_indices(&[list(vec![], false)]), vec![0, 1]);
    // One item that cannot be used leaves the whole list unused.
    let mixed = Expr::InList { expr: Box::new(col("id")), list: vec![num(10), col("name")], negated: false };
    assert_eq!(t.surviving_zone_indices(&[mixed]), vec![0, 1]);
    assert_eq!(t.surviving_zone_indices(&[list(vec![2, 22], false), bin(col("id"), Operator::Lt, num(10))]), vec![0]);
}

#[test]
fn pushdown_verdicts() {
    let fids = ids(&[("id", 1)]);
    let used = bin(col("id"), Operator::Gt, num(1));
    let half = bin(bin(col("id"), Operator::Gt, num(1)), Operator::And, Expr::Other);
    let unknown = bin(col("other"), Operator::Gt, num(1));
    let unequal = bin(col("id"), Operator::NotEq, num(1));
    let either = bin(bin(col("id"), Operator::Gt, num(1)), Operator::Other, bin(col("id"), Operator::Lt, num(0)));
    let null = bin(col("id"), Operator::Eq, lit(ScalarValue::Int64(None)));
    let verdicts = filters_pushdown(&fids, &[&used, &half, &unknown, &unequal, &either, &null, &col("id")]);
    assert_eq!(verdicts, vec![
        FilterPushDown::Inexact,
        FilterPushDown::Inexact,
        FilterPushDown::Unsupported,
        FilterPushDown::Unsupported,
        FilterPushDown::Unsupported,
        FilterPushDown::Unsupported,
        FilterPushDown::Unsupported,
    ]);
    assert_eq!(fixture().supports_filters_pushdown(&[&used]), vec![FilterPushDown::Inexact]);
}

#[test]
fn literals_as_values() {
    let v = |s: ScalarValue| scalar_to_value(&s);
    assert_eq!(v(ScalarValue::Int64(Some(-1))), Some(Value::I64(-1)));
    assert_eq!(v(ScalarValue::Int32(Some(-1))), Some(Value::I64(-1)));
    assert_eq!(v(ScalarValue::Float64(Some(1.5f64.to_bits()))), Some(Value::F64(1.5f64.to_bits())));
    assert_eq!(v(ScalarValue::Float32(Some(0.1f32.to_bits()))), Some(Value::F64((0.1f32 as f64).to_bits())));
    assert_eq!(v(ScalarValue::LargeUtf8(Some("é".into()))), Some(Value::Bytes("é".as_bytes().to_vec())));
    assert_eq!(v(ScalarValue::Boolean(Some(true))), Some(Value::Bool(true)));
    assert_eq!(v(ScalarValue::Decimal128(Some(7), 12, -2)), Some(Value::Decimal { unscaled: 7, scale: -2 }));
    assert_eq!(v(ScalarValue::Date32(Some(-3))), Some(Value::Date(-3)));
    assert_eq!(v(ScalarValue::Date64(Some(86_400_000 * 2 + 5))), Some(Value::Date(2)));
    assert_eq!(v(ScalarValue::Date64(Some(-86_400_001))), Some(Value::Date(-1)));
    for ms in [i64::MIN, i64::MAX, 185_542_587_187_200_000, -185_542_587_187_286_400] {
        assert_eq!(v(ScalarValue::Date64(Some(ms))), Some(Value::Date((ms / 86_400_000) as i32)));
    }
    assert_eq!(v(ScalarValue::TimestampSecond(Some(3))), Some(Value::Timestamp(3_000_000)));
    assert_eq!(v(ScalarValue::TimestampSecond(Some(i64::MAX))), None);
    assert_eq!(v(ScalarValue::TimestampMillisecond(Some(i64::MIN))), None);
    assert_eq!(v(ScalarValue::TimestampNanosecond(Some(-1))), Some(Value::Timestamp(-1)));
    assert_eq!(v(ScalarValue::TimestampNanosecond(Some(2_999))), Some(Value::Timestamp(2)));
    assert_eq!(v(ScalarValue::Time32Second(Some(5))), Some(Value::Time(5_000_000)));
    assert_eq!(v(ScalarValue::Time32Millisecond(Some(i32::MIN))), Some(Value::Time(i32::MIN as i64 * 1_000)));
    assert_eq!(v(ScalarValue::Time64Microsecond(Some(9))), Some(Value::Time(9)));
    assert_eq!(v(ScalarValue::Time64Nanosecond(Some(9_000))), Some(Value::Time(9)));
    assert_eq!(v(ScalarValue::Int64(None)), None);
    assert_eq!(v(ScalarValue::Other), None);
}

#[test]
fn operators_flip() {
    for (a, b) in [(Operator::Lt, Operator::Gt), (Operator::LtEq, Operator::GtEq), (Operator::Eq, Operator::Eq), (Operator::NotEq, Operator::NotEq)] {
        assert_eq!(flip_op(a), b);
        assert_eq!(flip_op(b), a);
    }
}

#[test]
fn the_last_field_id_of_a_name_counts() {
    let fids = ids(&[("a", 1), ("a", 2)]);
    assert_eq!(fids.get("a"), Some(2));
    assert_eq!(fids.get("b"), None);
}

#[test]
fn a_conjunction_prunes_as_its_two_sides() {
    let t = fixture();
    let low = || bin(col("id"), Operator::Gt, num(10));
    let high = || bin(col("name"), Operator::Lt, txt("r3"));
    let both = t.surviving_zone_indices(&[bin(low(), Operator::And, high())]);
    assert_eq!(both, t.surviving_zone_indices(&[low(), high()]));
    assert_eq!(both, vec![1]);
}

#[test]
fn more_filters_read_no_more() {
    let t = fixture();
    let low = || bin(col("id"), Operator::Lt, num(30));
    let one = t.surviving_zone_indices(&[low()]);
    let two = t.surviving_zone_indices(&[low(), bin(col("id"), Operator::Gt, num(4))]);
    assert_eq!((one, two), (vec![0, 1], vec![1]));
}

#[test]
fn a_list_prunes_as_its_equalities_together() {
    let t = fixture();
    let list = Expr::InList { expr: Box::new(col("id")), list: vec![num(3), num(10), num(100)], negated: false };
    let kept = t.surviving_zone_indices(&[list]);
    let mut apart: Vec<usize> =
        [3, 10, 100].iter().flat_map(|v| t.surviving_zone_indices(&[bin(col("id"), Operator::Eq, num(*v))])).collect();
    apart.sort();
    assert_eq!(kept, apart);
    assert_eq!(kept, vec![0]);
}

fn temporal_table(value: Value) -> KarmaZoneTable<(), i64> {
    let zm = ZoneMap::new(vec![ZoneStats {
        zone_id: 0,
        row_offset: 0,
        row_count: 1,
        columns: vec![ColumnStats { field_id: 1, min: value.clone(), max: value, null_count: 0, value_count: 1 }],
    }]);
    KarmaZoneTable::new((), zm, vec![0], ids(&[("t", 1)]))
}

fn read(t: &KarmaZoneTable<(), i64>, op: Operator, s: ScalarValue) -> bool {
    let flipped = flip_op(op);
    let forward = t.scan(&[bin(col("t"), op, lit(s.clone()))]).len();
    let backward = t.scan(&[bin(lit(s), flipped, col("t"))]).len();
    assert_eq!(forward, backward);
    forward == 1
}

#[test]
fn rounded_times_lose_no_row() {
    // A zone of the one time 1000 ns.
    let stamp = temporal_table(Value::Timestamp(1));
    let day = temporal_table(Value::Time(1));
    let literals: [(&KarmaZoneTable<(), i64>, fn(Option<i64>) -> ScalarValue); 2] =
        [(&stamp, ScalarValue::TimestampNanosecond), (&day, ScalarValue::Time64Nanosecond)];
    for (t, ns) in literals {
        assert!(read(t, Operator::Lt, ns(Some(1500))));
        assert!(read(t, Operator::LtEq, ns(Some(1500))));
        assert!(!read(t, Operator::Gt, ns(Some(1500))));
        assert!(read(t, Operator::GtEq, ns(Some(1500))));
        // A whole number of microseconds keeps its strict bound.
        assert!(!read(t, Operator::Lt, ns(Some(1000))));
        assert!(read(t, Operator::LtEq, ns(Some(1000))));
        assert!(!read(t, Operator::Lt, ns(Some(999))));
        assert!(read(t, Operator::Gt, ns(Some(999))));
    }
    let before = temporal_table(Value::Timestamp(-2));
    assert!(read(&before, Operator::Lt, ScalarValue::TimestampNanosecond(Some(-1500))));
    assert!(!read(&before, Operator::Gt, ScalarValue::TimestampNanosecond(Some(-1500))));
}

#[test]
fn rounded_dates_lose_no_row() {
    const DAY: i64 = 86_400_000;
    let date = |ms: i64| ScalarValue::Date64(Some(ms));
    let after = temporal_table(Value::Date(1));
    assert!(read(&after, Operator::Lt, date(DAY + 1)));
    assert!(!read(&after, Operator::Gt, date(DAY + 1)));
    assert!(!read(&after, Operator::Lt, date(DAY)));
    assert!(!read(&after, Operator::Gt, date(DAY)));
    let before = temporal_table(Value::Date(-1));
    assert!(read(&before, Operator::Gt, date(-DAY - 1)));
    assert!(!read(&before, Operator::Lt, date(-DAY - 1)));
    assert!(!read(&before, Operator::Gt, date(-DAY)));
    assert!(!read(&before, Operator::Lt, date(-DAY)));
    // Between the days around zero, both are rounded to day 0.
    let zero = temporal_table(Value::Date(0));
    assert!(read(&zero, Operator::Lt, date(1)));
    assert!(read(&zero, Operator::Gt, date(-1)));
}

#[test]
fn dates_beyond_reach_prune_nothing() {
    const DAY: i64 = 86_400_000;
    let zero = temporal_table(Value::Date(0));
    let (least, most) = (i32::MIN as i64, i32::MAX as i64);
    for op in [Operator::Lt, Operator::LtEq, Operator::Gt, Operator::GtEq, Operator::Eq] {
        for days in [1i64 << 32, -(1i64 << 32), most + 1, least - 1] {
            assert!(read(&zero, op, ScalarValue::Date64(Some(days * DAY))));
        }
    }
    assert!(!read(&zero, Operator::Gt, ScalarValue::Date64(Some(most * DAY))));
    assert!(!read(&zero, Operator::Lt, ScalarValue::Date64(Some(least * DAY))));
    let far = lit(ScalarValue::Date64(Some((1i64 << 32) * DAY)));
    let fids = ids(&[("t", 1)]);
    let below = bin(col("t"), Operator::Lt, far);
    assert_eq!(filters_pushdown(&fids, &[&below]), vec![FilterPushDown::Unsupported]);
    // One date beyond reach leaves a whole list unused.
    let near = || lit(ScalarValue::Date32(Some(7)));
    let list = |items: Vec<Expr>| Expr::InList { expr: Box::new(col("t")), list: items, negated: false };
    assert_eq!(zero.scan(&[list(vec![near()])]).len(), 0);
    let with_far = list(vec![near(), lit(ScalarValue::Date64(Some((1i64 << 32) * DAY)))]);
    assert_eq!(zero.scan(&[with_far]).len(), 1);
}

#[test]
fn either_zero_is_found() {
    let float = |x: f64| Value::F64(x.to_bits());
    let zm = ZoneMap::new(vec![ZoneStats {
        zone_id: 0,
        row_offset: 0,
        row_count: 2,
        columns: vec![ColumnStats { field_id: 1, min: float(-0.0), max: float(3.0), null_count: 0, value_count: 2 }],
    }]);
    let bloom = Bloom::build(&[float(-0.0), float(3.0)], DEFAULT_BITS_PER_VALUE);
    assert!(!bloom.might_contain(&float(0.0)));
    let t = KarmaZoneTable::new((), zm, vec![()], ids(&[("x", 1)]))
        .with_blooms(ZoneBlooms::new(vec![BloomEntry { zone_id: 0, field_id: 1, bloom }]));
    let lit64 = |x: f64| lit(ScalarValue::Float64(Some(x.to_bits())));
    let reads = |x: f64| t.scan(&[bin(col("x"), Operator::Eq, lit64(x))]).len() == 1;
    assert!(reads(0.0) && reads(-0.0) && reads(3.0));
    assert!(!reads(2.0) && !reads(4.0));
    let list = |xs: &[f64]| Expr::InList { expr: Box::new(col("x")), list: xs.iter().map(|x| lit64(*x)).collect(), negated: false };
    assert_eq!(t.scan(&[list(&[2.0, 0.0])]).len(), 1);
    assert_eq!(t.scan(&[list(&[2.0, 1.0])]).len(), 0);
}

//! Sidecars built from row groups.
use karma::sidecar::{array_values, fold_batch, resolve_fields, ColumnData, SidecarBuilder};
use karma::translate::{Expr, Operator, ScalarValue};
use karma::{IndexField, KarmaParquetError, ParquetZoneTable, Sidecar, Value, DEFAULT_BITS_PER_VALUE};

fn eq_text(column: &str, v: &str) -> Expr {
    Expr::BinaryExpr {
        left: Box::new(Expr::Column(column.to_string())),
        op: Operator::Eq,
        right: Box::new(Expr::Literal(ScalarValue::Utf8(Some(v.to_string())))),
    }
}

fn id_is(op: Operator, v: i64) -> Expr {
    Expr::BinaryExpr {
        left: Box::new(Expr::Column("id".to_string())),
        op,
        right: Box::new(Expr::Literal(ScalarValue::Int64(Some(v)))),
    }
}

fn batch(ids: Vec<i64>, codes: Vec<&str>) -> Vec<ColumnData> {
    vec![
        ColumnData::Int64(ids.into_iter().map(Some).collect()),
        ColumnData::Utf8(codes.into_iter().map(|s| Some(s.to_string())).collect()),
    ]
}

// Two row groups of 4 rows, each delivered in two batches.
fn build(fields: Vec<IndexField>) -> Sidecar<()> {
    let groups = vec![
        vec![batch(vec![0, 1], vec!["k-00", "k-02"]), batch(vec![2, 3], vec!["k-04", "k-06"])],
        vec![batch(vec![4, 5], vec!["k-01", "k-03"]), batch(vec![6, 7], vec!["k-05", "k-07"])],
    ];
    let names = vec!["id".to_string(), "code".to_string()];
    let columns = resolve_fields(&names, &fields).unwrap();
    let mut b = SidecarBuilder::new(fields, DEFAULT_BITS_PER_VALUE);
    for g in &groups {
        let mut accs = b.accumulators();
        for batch in g {
            fold_batch(batch, &b.fields, &columns, &mut accs).unwrap();
        }
        b.add_row_group(&accs, 4);
    }
    b.finish(())
}

fn index_fields() -> Vec<IndexField> {
    vec![IndexField::zonemap("id", 1), IndexField::zonemap_and_bloom("code", 2)]
}

#[test]
fn sidecar_bloom_prunes_where_stats_cannot() {
    let eq = || eq_text("code", "k-03");
    let stats_only = ParquetZoneTable::from_sidecar("f", build(vec![IndexField::zonemap("id", 1), IndexField::zonemap("code", 2)]));
    assert_eq!(stats_only.surviving_row_groups(&[eq()]), vec![0, 1], "min/max cannot prune");
    assert!(stats_only.blooms.is_none());

    let with_bloom = ParquetZoneTable::from_sidecar("f", build(index_fields()));
    assert_eq!(with_bloom.surviving_row_groups(&[eq()]), vec![1], "bloom prunes row group 0");

    assert_eq!(with_bloom.surviving_row_groups(&[id_is(Operator::GtEq, 4)]), vec![1]);
    assert_eq!(with_bloom.surviving_row_groups(&[id_is(Operator::Lt, 4)]), vec![0]);
    assert_eq!(with_bloom.surviving_zone_indices(&[id_is(Operator::Lt, 4)]), vec![0]);
}

#[test]
fn sidecar_has_one_zone_per_row_group() {
    let sc = build(index_fields());
    assert_eq!(sc.zone_map.zones.len(), 2);
    assert_eq!(sc.zone_map.zones[0].zone_id, 0);
    assert_eq!(sc.zone_map.zones[0].row_offset, 0);
    assert_eq!(sc.zone_map.zones[0].row_count, 4);
    assert_eq!(sc.zone_map.zones[1].row_offset, 4);
    let id0 = sc.zone_map.zones[0].column(1).unwrap();
    assert_eq!((id0.min.clone(), id0.max.clone()), (Value::I64(0), Value::I64(3)));
    assert!(sc.blooms.get(0, 2).is_some() && sc.blooms.get(1, 2).is_some());
    assert_eq!(sc.field_ids.get("code"), Some(2));
}

#[test]
fn accumulators_count_nulls_and_keep_bounds() {
    let mut b = SidecarBuilder::new(vec![IndexField::zonemap_and_bloom("x", 9)], 16);
    let mut accs = b.accumulators();
    let nan = f64::NAN.to_bits();
    let column = vec![ColumnData::Float64(vec![None, Some(2.0f64.to_bits()), Some(nan), Some((-1.0f64).to_bits()), None])];
    fold_batch(&column, &b.fields, &[0], &mut accs).unwrap();
    b.add_row_group(&accs, 5);
    let empty = b.accumulators();
    b.add_row_group(&empty, 0);
    let sc = b.finish("schema");
    let c = &sc.zone_map.zones[0].columns[0];
    assert_eq!((c.null_count, c.value_count), (2, 3));
    assert_eq!((c.min.clone(), c.max.clone()), (Value::F64((-1.0f64).to_bits()), Value::F64(2.0f64.to_bits())));
    assert!(sc.blooms.might_contain(0, 9, &Value::F64(nan)));
    let c = &sc.zone_map.zones[1].columns[0];
    assert_eq!((c.null_count, c.value_count, c.min.clone()), (0, 0, Value::Null));
    assert_eq!(sc.schema, "schema");
}

#[test]
fn columns_as_values() {
    assert_eq!(array_values(&ColumnData::Int32(vec![Some(-1), None])), Ok(vec![Some(Value::I64(-1)), None]));
    assert_eq!(array_values(&ColumnData::Float32(vec![Some(0.5f32.to_bits())])), Ok(vec![Some(Value::F64(0.5f64.to_bits()))]));
    assert_eq!(array_values(&ColumnData::Boolean(vec![Some(true)])), Ok(vec![Some(Value::Bool(true))]));
    assert_eq!(array_values(&ColumnData::Decimal128(vec![Some(5)], 2)), Ok(vec![Some(Value::Decimal { unscaled: 5, scale: 2 })]));
    assert_eq!(array_values(&ColumnData::Date32(vec![Some(5)])), Ok(vec![Some(Value::Date(5))]));
    assert_eq!(array_values(&ColumnData::TimestampMicrosecond(vec![Some(5)])), Ok(vec![Some(Value::Timestamp(5))]));
    assert_eq!(array_values(&ColumnData::Other("Map".into())), Err(KarmaParquetError::UnsupportedType("Map".into())));
}

#[test]
fn fields_that_cannot_be_indexed() {
    let names = vec!["a".to_string(), "b".to_string(), "a".to_string()];
    let fields = |ns: &[&str]| ns.iter().map(|n| IndexField::zonemap(n, 1)).collect::<Vec<_>>();
    assert_eq!(resolve_fields(&names, &fields(&["b", "a"])), Ok(vec![1, 0]));
    assert_eq!(resolve_fields(&names, &fields(&["b", "c", "d"])), Err(KarmaParquetError::MissingColumn("c".into())));
    let b = SidecarBuilder::new(fields(&["a", "b"]), 16);
    let mut accs = b.accumulators();
    let bad = vec![ColumnData::Int64(vec![Some(1)]), ColumnData::Other("List".into())];
    assert_eq!(fold_batch(&bad, &b.fields, &[0, 1], &mut accs), Err(KarmaParquetError::UnsupportedType("List".into())));
    assert_eq!(accs[0].value_count, 1);
}

#[test]
fn storage_errors_in_words() {
    let s = || "x".to_string();
    assert_eq!(KarmaParquetError::Parquet(s()).message(), "parquet: x");
    assert_eq!(KarmaParquetError::Arrow(s()).message(), "arrow: x");
    assert_eq!(KarmaParquetError::Io(s()).message(), "io: x");
    assert_eq!(KarmaParquetError::ObjectStore(s()).message(), "object store: x");
    assert_eq!(KarmaParquetError::Iceberg(s()).message(), "iceberg: x");
    assert_eq!(KarmaParquetError::Config(s()).message(), "config: x");
    assert_eq!(KarmaParquetError::MissingColumn(s()).message(), "column 'x' not found in the parquet schema");
    assert_eq!(KarmaParquetError::UnsupportedType(s()).message(), "unsupported column type for indexing: x");
}

#[test]
fn a_nan_is_no_bound() {
    let column = |xs: &[f64]| vec![ColumnData::Float64(xs.iter().map(|x| Some(x.to_bits())).collect())];
    let mut b = SidecarBuilder::new(vec![IndexField::zonemap("x", 9)], 16);
    for xs in [&[f64::NAN, 2.0, -1.0][..], &[f64::NAN][..]] {
        let mut accs = b.accumulators();
        fold_batch(&column(xs), &b.fields, &[0], &mut accs).unwrap();
        b.add_row_group(&accs, xs.len() as u64);
    }
    let sc = b.finish(());
    let c = &sc.zone_map.zones[0].columns[0];
    assert_eq!((c.min.clone(), c.max.clone()), (Value::F64((-1.0f64).to_bits()), Value::F64(2.0f64.to_bits())));
    let c = &sc.zone_map.zones[1].columns[0];
    assert_eq!((c.value_count, c.min.clone(), c.max.clone()), (1, Value::Null, Value::Null));
}

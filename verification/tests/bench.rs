//! The benchmark's data, queries and report.
use std::collections::HashMap;

use karma::bench::{generate_rows, human_bytes, index_fields, markdown_table, mix, queries, row_groups, run_analytical, AnalyticRow, RowColumns, TS_BASE, TS_STEP};
use karma::sidecar::{fold_batch, resolve_fields, ColumnData, SidecarBuilder};
use karma::translate::{Expr, FilterPushDown, Operator, ScalarValue};
use karma::{ParquetZoneTable, Sidecar, SnapshotTable, Value, DEFAULT_BITS_PER_VALUE};

const ROWS: u64 = 50_000;
const RG: u64 = 5_000;

fn columns(r: &RowColumns) -> Vec<ColumnData> {
    vec![
        ColumnData::Int64(r.ids.iter().map(|v| Some(*v)).collect()),
        ColumnData::TimestampMicrosecond(r.ts.iter().map(|v| Some(*v)).collect()),
        ColumnData::Int64(r.user_ids.iter().map(|v| Some(*v)).collect()),
        ColumnData::Utf8(r.event_ids.iter().map(|v| Some(v.clone())).collect()),
        ColumnData::Decimal128(r.amounts.iter().map(|v| Some(*v)).collect(), 2),
        ColumnData::Utf8(r.regions.iter().map(|v| Some(v.to_string())).collect()),
    ]
}

fn build(rows: u64, size: u64) -> Sidecar<()> {
    build_range(0, rows, size)
}

fn build_range(first: u64, rows: u64, size: u64) -> Sidecar<()> {
    let names: Vec<String> = ["id", "ts", "user_id", "event_id", "amount", "region"].iter().map(|s| s.to_string()).collect();
    let fields = index_fields();
    let cols = resolve_fields(&names, &fields).unwrap();
    let mut b = SidecarBuilder::new(fields, DEFAULT_BITS_PER_VALUE);
    for g in row_groups(first, rows, size) {
        let mut accs = b.accumulators();
        fold_batch(&columns(&generate_rows(g.first, g.count)), &b.fields, &cols, &mut accs).unwrap();
        b.add_row_group(&accs, g.count);
    }
    b.finish(())
}

#[test]
fn spectrum_prunes_as_designed() {
    let sidecar = build(ROWS, RG);
    assert_eq!(sidecar.zone_map.zones.len(), 10, "one zone per row group");

    let rows = run_analytical(&[250_000; 10], &sidecar);
    let by: HashMap<&str, &AnalyticRow> = rows.iter().map(|r| (r.name, r)).collect();
    let total = 10;

    let id = by["id = mid"];
    assert_eq!(id.rg_karma, 1, "clustered id point keeps exactly 1 row group");

    for name in ["user_id = X", "event_id = existing"] {
        let r = by[name];
        assert!(r.rg_karma >= 1, "{name}: value present → keep its row group");
        assert!(r.rg_karma < r.rg_zonemap.max(1), "{name}: bloom must prune below stats ({} !< {})", r.rg_karma, r.rg_zonemap);
        assert_eq!(r.rg_zonemap, total, "{name}: scattered → min/max cannot prune");
    }

    let absent = by["event_id = ABSENT (in-range)"];
    assert_eq!(absent.rg_karma, 0, "absent value → all row groups pruned");
    let saved = 100.0 * (1.0 - absent.bytes_karma as f64 / absent.bytes_total as f64);
    assert!(saved > 99.9, "absent → ~100% I/O saved");

    let region = by["region = 'eu'"];
    assert_eq!(region.rg_karma, total, "'eu' is in every row group → 0 pruned");
    assert_eq!(region.bytes_total, 2_500_008);
    assert_eq!(region.bytes_karma, region.bytes_total);
    assert_eq!(id.bytes_karma, 250_008);
}

fn reference_mix(i: u64) -> u64 {
    let mut z = i.wrapping_add(0x9E37_79B9_7F4A_7C15);
    z = (z ^ (z >> 30)).wrapping_mul(0xBF58_476D_1CE4_E5B9);
    z = (z ^ (z >> 27)).wrapping_mul(0x94D0_49BB_1331_11EB);
    z ^ (z >> 31)
}

#[test]
fn mixing_is_splitmix64() {
    assert_eq!(mix(0), 0xE220_A839_7B1D_CDAF);
    for i in [1u64, 2, 12345, u64::MAX, 1 << 63] {
        assert_eq!(mix(i), reference_mix(i));
    }
}

#[test]
fn rows_are_deterministic() {
    let r = generate_rows(7, 3);
    assert_eq!(r.ids, vec![7, 8, 9]);
    assert_eq!(r.ts[1], TS_BASE + 8 * TS_STEP);
    let h = reference_mix(9);
    assert_eq!(r.user_ids[2], (h % 10_000_000) as i64);
    assert_eq!(r.event_ids[2], format!("evt-{h:016x}"));
    assert_eq!(r.amounts[2], (h % 10_000_000) as i128);
    assert_eq!(r.regions[2], ["af", "as", "eu", "na", "sa", "oc", "me", "an"][(h % 8) as usize]);
    let mut seen: Vec<String> = generate_rows(0, 1000).event_ids;
    seen.sort();
    seen.dedup();
    assert_eq!(seen.len(), 1000);
}

#[test]
fn row_groups_tile_the_rows() {
    let g = row_groups(100, 25, 10);
    assert_eq!(g.iter().map(|r| (r.first, r.count)).collect::<Vec<_>>(), vec![(100, 10), (110, 10), (120, 5)]);
    assert_eq!(row_groups(0, 20, 10).len(), 2);
    assert_eq!(row_groups(0, 0, 10).len(), 0);
}

#[test]
fn queries_pick_existing_values() {
    for rows in [0u64, 1, 10, 50_000, 123_457, 999_999_999, 1_000_000_007] {
        let qs = queries(rows);
        assert_eq!(qs.len(), 7);
        let p90 = TS_BASE + ((rows as f64 * 0.90) as i64) * TS_STEP;
        let event = format!("evt-{:016x}", reference_mix(rows / 3));
        let user = reference_mix(rows / 3) % 10_000_000;
        assert_eq!(qs[0].sql_where, format!("id = {}", rows / 2));
        assert_eq!(qs[1].sql_where, format!("ts >= arrow_cast({p90}, 'Timestamp(Microsecond, None)')"));
        assert_eq!(qs[2].sql_where, format!("user_id = {user}"));
        assert_eq!(qs[3].sql_where, format!("event_id = '{event}'"));
        assert_eq!(qs[4].sql_where, format!("event_id = '{event}z'"));
        assert_eq!(qs[5].sql_where, "amount > 99000.00");
        assert_eq!(qs[6].sql_where, "region = 'eu'");
        assert_eq!(qs.iter().map(|q| q.latency).collect::<Vec<_>>(), vec![true, false, false, true, true, false, false]);
        assert_eq!(qs[2].class, "scattered point — BLOOM vs stats");
        let Expr::BinaryExpr { right, .. } = &qs[1].filters[0] else { panic!() };
        assert!(matches!(&**right, Expr::Literal(ScalarValue::TimestampMicrosecond(Some(t))) if *t == p90));
    }
}

#[test]
fn indexed_fields_of_the_benchmark() {
    let fields = index_fields();
    let got: Vec<(&str, i32, bool)> = fields.iter().map(|f| (f.name.as_str(), f.field_id, f.bloom)).collect();
    assert_eq!(got, vec![("id", 1, false), ("ts", 2, false), ("user_id", 3, true), ("event_id", 4, true), ("amount", 5, false), ("region", 6, false)]);
}

fn float_bytes(b: u64) -> String {
    const U: [&str; 5] = ["B", "KB", "MB", "GB", "TB"];
    let mut v = b as f64;
    let mut i = 0;
    while v >= 1024.0 && i < U.len() - 1 {
        v /= 1024.0;
        i += 1;
    }
    format!("{v:.1} {}", U[i])
}

#[test]
fn bytes_in_words() {
    assert_eq!(human_bytes(0), "0.0 B");
    assert_eq!(human_bytes(1023), "1023.0 B");
    assert_eq!(human_bytes(1280), "1.2 KB");
    assert_eq!(human_bytes(1792), "1.8 KB");
    assert_eq!(human_bytes(1 << 40), "1.0 TB");
    let mut x: u64 = 1;
    for i in 0..3000u64 {
        x = x.wrapping_mul(6364136223846793005).wrapping_add(1442695040888963407);
        for v in [x >> (i % 64), i * 64, (1 << 20) - i, (1 << 30) - i * 7, u64::MAX - i, (1 << 53) + i] {
            assert_eq!(human_bytes(v), float_bytes(v), "{v}");
        }
    }
}

#[test]
fn the_report_as_a_table() {
    let row = AnalyticRow { name: "q", class: "c", rg_total: 10, rg_zonemap: 4, rg_karma: 1, bytes_total: 4096, bytes_karma: 2048 };
    let table = markdown_table(&[row], &[("90.0".to_string(), "50.0".to_string())]);
    assert_eq!(
        table,
        "| Query | Class | RG total | RG kept (stats) | RG kept (karma) | RG pruned | Bytes read | I/O saved |\n\
         |---|---|--:|--:|--:|--:|--:|--:|\n\
         | `q` | c | 10 | 4 | 1 | 90.0% | 2.0 KB | **50.0%** |\n"
    );
}

#[test]
fn built_indexes_keep_their_rows() {
    let sidecar = build(2_000, 500);
    let rows = generate_rows(0, 2_000);
    for k in (0..2_000).step_by(97) {
        let zone = (k / 500) as u32;
        assert!(sidecar.blooms.might_contain(zone, 4, &Value::str(&rows.event_ids[k])));
        assert!(sidecar.blooms.might_contain(zone, 3, &Value::I64(rows.user_ids[k])));
    }
}

fn id_is(op: Operator, v: i64) -> Expr {
    Expr::BinaryExpr {
        left: Box::new(Expr::Column("id".to_string())),
        op,
        right: Box::new(Expr::Literal(ScalarValue::Int64(Some(v)))),
    }
}

#[test]
fn snapshots_prune_across_files() {
    let per_file: u64 = 20_000;
    let files: Vec<ParquetZoneTable<usize, ()>> =
        (0..3).map(|i| ParquetZoneTable::from_sidecar(i, build_range(i as u64 * per_file, per_file, RG))).collect();
    let snapshot = SnapshotTable::new((), files);
    assert_eq!(snapshot.file_count(), 3);
    let none = Vec::<usize>::new();
    assert_eq!(snapshot.surviving_row_groups(&[id_is(Operator::GtEq, 45_000)]), vec![none.clone(), none.clone(), vec![1, 2, 3]]);
    assert_eq!(snapshot.surviving_row_groups(&[id_is(Operator::Lt, 20_000)]), vec![vec![0, 1, 2, 3], none.clone(), none]);
    assert_eq!(
        snapshot.surviving_row_groups(&[id_is(Operator::GtEq, 18_000), id_is(Operator::Lt, 42_000)]),
        vec![vec![3], vec![0, 1, 2, 3], vec![0]]
    );
    assert_eq!(snapshot.surviving_row_groups(&[]), vec![vec![0, 1, 2, 3]; 3]);
    assert_eq!(
        snapshot.supports_filters_pushdown(&[&id_is(Operator::Lt, 1), &id_is(Operator::NotEq, 1)]),
        vec![FilterPushDown::Inexact, FilterPushDown::Unsupported]
    );
    assert_eq!(
        SnapshotTable::<usize, ()>::new((), Vec::new()).supports_filters_pushdown(&[&id_is(Operator::Lt, 1)]),
        vec![FilterPushDown::Unsupported]
    );
}

#[test]
fn unindexed_files_are_read_whole() {
    let mut b = SidecarBuilder::new(Vec::new(), DEFAULT_BITS_PER_VALUE);
    for g in row_groups(0, 100, 30) {
        let accs = b.accumulators();
        b.add_row_group(&accs, g.count);
    }
    let file: ParquetZoneTable<(), ()> = ParquetZoneTable::from_sidecar((), b.finish(()));
    assert!(file.blooms.is_none());
    assert_eq!(file.surviving_row_groups(&[id_is(Operator::Lt, -1)]), vec![0, 1, 2, 3]);
    let verdicts = file.supports_filters_pushdown(&[&id_is(Operator::Lt, -1)]);
    assert_eq!(verdicts, vec![FilterPushDown::Unsupported]);
}

#[test]
fn no_rows_need_no_times() {
    let none = generate_rows(u64::MAX, 0);
    assert!(none.ids.is_empty() && none.ts.is_empty() && none.event_ids.is_empty());
    let last = (i64::MAX - TS_BASE) / TS_STEP;
    let one = generate_rows(last as u64, 1);
    assert_eq!(one.ids, vec![last]);
    assert_eq!(one.ts, vec![TS_BASE + last * TS_STEP]);
}

//! The rules of the SQL front and of the service.
use karma::catalog::{qualified_name, FixedIndex, IndexStrategy, Lookup, NoIndex, SnapshotTableResolver, TableCache};
use karma::json_path::{extract_from, extract_json_path, get_json_objects, parse_path, walk, PathStep};
use karma::server::{bind_address, document_rows, non_empty, object_key, planned_files, response_rows, snapshot_files, strip_reserved, table_leaf, uri_to_object_path, visible_columns, MlRunnerClient, PlanReply, QueryFailure, RequestTables, S3Config, TableRef};
use karma::session::{row_count, ColumnMeta, KarmaConfig, PlanKind};
use karma::{IndexField, KarmaParquetError};

#[test]
fn json_path_subset() {
    let doc = r#"{"sensor":{"id":"A12","bat":0.83},"tags":["x","y"],"n":7}"#;
    assert_eq!(extract_json_path(doc, "$.sensor.id").as_deref(), Some("A12"));
    assert_eq!(extract_json_path(doc, "$.sensor.bat").as_deref(), Some("0.83"));
    assert_eq!(extract_json_path(doc, "$.tags[0]").as_deref(), Some("x"));
    assert_eq!(extract_json_path(doc, "$.tags[1]").as_deref(), Some("y"));
    assert_eq!(extract_json_path(doc, "$['sensor']['id']").as_deref(), Some("A12"));
    assert_eq!(extract_json_path(doc, "$.n").as_deref(), Some("7"));
    assert_eq!(extract_json_path(doc, "$.sensor").as_deref(), Some(r#"{"id":"A12","bat":0.83}"#));
    assert_eq!(extract_json_path(doc, "$.missing"), None);
    assert_eq!(extract_json_path(doc, "$.tags[9]"), None);
    assert_eq!(extract_json_path("not json", "$.a"), None);
}

#[test]
fn json_leaves() {
    assert_eq!(extract_json_path(r#"{"a":null}"#, "$.a"), None);
    assert_eq!(extract_json_path(r#"{"a":true}"#, "$.a").as_deref(), Some("true"));
    assert_eq!(extract_json_path(r#"[1, [2, "x"]]"#, "$[1]").as_deref(), Some(r#"[2,"x"]"#));
    assert_eq!(extract_json_path(r#""x""#, "$").as_deref(), Some("x"));
    assert_eq!(extract_json_path(r#"{"a":{"b":1}}"#, "$.a[0]"), None);
    assert_eq!(extract_json_path(r#"[1]"#, "$.a"), None);
    let v: serde_json::Value = serde_json::from_str(r#"{"k":[5]}"#).unwrap();
    assert_eq!(extract_from(&v, "$.k[0]").as_deref(), Some("5"));
    assert_eq!(walk(&v, &[PathStep::Key("k".into())]), v.get("k"));
    assert_eq!(walk(&v, &[PathStep::Index(0)]), None);
}

#[test]
fn paths_as_steps() {
    let key = |s: &str| PathStep::Key(s.to_string());
    assert_eq!(parse_path("$"), Some(vec![]));
    assert_eq!(parse_path("$.a.b[2]"), Some(vec![key("a"), key("b"), PathStep::Index(2)]));
    assert_eq!(parse_path("$['a.b'][\"c]"), None);
    assert_eq!(parse_path("$['a.b']"), Some(vec![key("a.b")]));
    assert_eq!(parse_path("$[\"q\"]"), Some(vec![key("q")]));
    assert_eq!(parse_path("$[ 'q' ]"), Some(vec![key("q")]));
    assert_eq!(parse_path("$['']"), Some(vec![key("")]));
    assert_eq!(parse_path("$[\u{a0}+7\u{3000}]"), Some(vec![PathStep::Index(7)]));
    assert_eq!(parse_path("$[007]"), Some(vec![PathStep::Index(7)]));
    for bad in ["", "a", "$a", "$.", "$..a", "$.a.", "$[", "$[]", "$[-1]", "$[+]", "$[1 2]", "$[x]", "$[']", "$['a\"]", "$[99999999999999999999999]"] {
        assert_eq!(parse_path(bad), None, "{bad}");
    }
    let max = format!("$[{}]", usize::MAX);
    assert_eq!(parse_path(&max), Some(vec![PathStep::Index(usize::MAX)]));
}

#[test]
fn strips_scheme_and_bucket() {
    assert_eq!(
        uri_to_object_path("s3://lakehouse/datasets/ds_x/data/a.parquet").unwrap().as_ref(),
        "datasets/ds_x/data/a.parquet"
    );
    assert_eq!(
        uri_to_object_path("s3a://lakehouse/datasets/ds_x/b.parquet").unwrap().as_ref(),
        "datasets/ds_x/b.parquet"
    );
}

#[test]
fn object_keys() {
    assert_eq!(object_key("bucket/a/b"), Some("a/b".to_string()));
    assert_eq!(object_key("s3://bucket/"), Some(String::new()));
    assert_eq!(object_key("s3://bucket"), None);
    assert_eq!(uri_to_object_path("s3://bucket"), Err("cannot parse object key from s3://bucket".to_string()));
    // The path percent-encodes what a key may not hold.
    assert_eq!(uri_to_object_path("s3://b/a//c%d").unwrap().as_ref(), "a/c%25d");
    assert_eq!(snapshot_files(&[]), None);
    let files = snapshot_files(&["s3://b/x".to_string(), "s3://b/y".to_string()]).unwrap().unwrap();
    assert_eq!(files.iter().map(|p| p.as_ref()).collect::<Vec<&str>>(), vec!["x", "y"]);
    let bad = snapshot_files(&["s3://b/x".to_string(), "nokey".to_string(), "s3://z".to_string()]);
    assert_eq!(bad, Some(Err("cannot parse object key from nokey".to_string())));
}

#[test]
fn store_settings() {
    let s = |x: &str| Some(x.to_string());
    let c = S3Config::from_vars(s("e"), None, s("k"), s("SECRET-REDACTED"), None).unwrap();
    assert_eq!((c.endpoint.as_str(), c.bucket.as_str(), c.region.as_str()), ("e", "lakehouse", "auto"));
    let c = S3Config::from_vars(s("e"), s("b"), s("k"), s("SECRET-REDACTED"), s("r")).unwrap();
    assert_eq!((c.bucket.as_str(), c.access_key_id.as_str(), c.region.as_str()), ("b", "k", "r"));
    let missing = |n: &str| Err(KarmaParquetError::Config(format!("missing env {n}")));
    assert_eq!(S3Config::from_vars(None, None, None, None, None), missing("LAKEHOUSE_S3_ENDPOINT"));
    assert_eq!(S3Config::from_vars(s("e"), None, None, None, None), missing("LAKEHOUSE_S3_ACCESS_KEY_ID"));
    assert_eq!(S3Config::from_vars(s("e"), None, s("k"), None, None), missing("LAKEHOUSE_S3_SECRET_ACCESS_KEY"));
    assert_eq!(bind_address(s("h:1"), s("2")), "h:1");
    assert_eq!(bind_address(None, s("2")), "0.0.0.0:2");
    assert_eq!(bind_address(None, None), "0.0.0.0:8088");
}

#[test]
fn the_planner_client() {
    let c = MlRunnerClient::new(" \"http://h//\"\n", "\t\"to\"ken\" ");
    assert_eq!(c.base, "http://h");
    assert_eq!(c.token, "to\"ken");
    assert_eq!(c.plan_files_url(), "http://h/lakehouse/plan-files");
    assert_eq!(MlRunnerClient::new("http://h/\" ", "").base, "http://h");
    let url = c.plan_files_url();
    assert_eq!(planned_files(&url, PlanReply::Files(vec!["a".into()])), Ok(vec!["a".to_string()]));
    assert_eq!(
        planned_files(&url, PlanReply::Failed { error: "builder error".into(), causes: vec!["x".into(), "y".into()] }),
        Err(format!("plan-files POST {url} failed: builder error | x | y"))
    );
    let body = "é".repeat(500);
    assert_eq!(
        planned_files(&url, PlanReply::Refused { status: "404 Not Found".into(), body }),
        Err(format!("plan-files 404 Not Found: {}", "é".repeat(400)))
    );
    assert_eq!(planned_files(&url, PlanReply::Unreadable { error: "eof".into() }), Err("plan-files bad json: eof".to_string()));
}

#[test]
fn request_tables() {
    let t = |id: &str| TableRef::new(id.to_string(), None);
    assert_eq!(t("a").namespace, "datasets");
    assert_eq!(TableRef::new("a".into(), Some("n".into())).namespace, "n");
    let tables = RequestTables::new(vec![("Events".into(), t("one")), ("ÄB".into(), t("two"))]);
    assert_eq!(tables.lookup("datafusion.public.EVENTS").unwrap().dataset_id, "one");
    assert_eq!(tables.lookup("äb").unwrap().dataset_id, "two");
    assert!(tables.lookup("events.other").is_none());
    assert_eq!(table_leaf("a.b.C"), "C");
    assert_eq!(table_leaf("a."), "");
    assert_eq!(table_leaf("a"), "a");
}

#[test]
fn reserved_columns_are_hidden() {
    let column = |n: &str| ColumnMeta { name: n.to_string(), data_type: "Int64".to_string() };
    let shown = visible_columns(&[column("a"), column("__row_id"), column("b"), column("__row_index"), column("__created_at")]);
    assert_eq!(shown, vec![column("a"), column("b")]);

    let parse = |s: &str| serde_json::from_str::<serde_json::Value>(s).unwrap();
    let mut rows = document_rows(parse(r#"[{"__row_index":1,"a":2,"__row_id":3,"b":4,"__created_at":5},7]"#));
    strip_reserved(&mut rows);
    assert_eq!(rows, vec![parse(r#"{"a":2,"b":4}"#), parse("7")]);
    // The last member takes the place of one removed.
    assert_eq!(rows[0].to_string(), r#"{"b":4,"a":2}"#);
    assert!(document_rows(parse("{}")).is_empty());

    assert_eq!(response_rows(None), Ok(vec![]));
    assert_eq!(response_rows(Some(br#"[{"__row_id":1,"x":2}]"#)), Ok(vec![parse(r#"{"x":2}"#)]));
    let bad = response_rows(Some(b"[")).unwrap_err();
    assert_eq!(bad, serde_json::from_slice::<serde_json::Value>(b"[").unwrap_err().to_string());
    assert_eq!(non_empty(&[0, 3, 0, 1]), vec![1, 3]);
    assert_eq!(QueryFailure::Run("bad SQL".into()).status(), 400);
    assert_eq!(QueryFailure::Encode("bad row".into()).status(), 500);
}

#[test]
fn limits() {
    let c = KarmaConfig::default();
    assert_eq!((c.default_limit, c.max_limit), (100, 5000));
    assert_eq!(c.auto_limit(PlanKind::Relation), Some(100));
    for kind in [PlanKind::Limit, PlanKind::Explain, PlanKind::Analyze, PlanKind::Statement, PlanKind::Dml, PlanKind::Ddl, PlanKind::Copy, PlanKind::DescribeTable] {
        assert_eq!(c.auto_limit(kind), None);
    }
    assert_eq!(row_count(&[3, 0, 4]), 7);
    assert_eq!(row_count(&[]), 0);
}

#[test]
fn index_strategies() {
    assert!(NoIndex::default().fields_for("t").is_empty());
    let fixed = FixedIndex(vec![IndexField::zonemap_and_bloom("a", 3)]);
    let fields = fixed.fields_for("t");
    assert_eq!((fields[0].name.as_str(), fields[0].field_id, fields[0].bloom), ("a", 3, true));
    let r = SnapshotTableResolver::new("catalog", fixed);
    let (snapshot, fields) = r.resolution("a.b.c", Ok::<i32, ()>(5)).unwrap();
    assert_eq!((snapshot, fields.len()), (5, 1));
    assert!(r.resolution("a.b.c", Err::<i32, &str>("unreachable")).is_none());
}

#[test]
fn the_table_cache() {
    let mut cache: TableCache<i32> = TableCache::new();
    assert_eq!(cache.len(), 0);
    cache.insert(qualified_name("main", "default", "events"), 1);
    cache.insert(qualified_name("main", "default", "users"), 2);
    cache.insert(qualified_name("main", "other", "events"), 3);
    cache.insert(qualified_name("main", "default", "events"), 4);
    assert_eq!(cache.len(), 3);
    assert_eq!(cache.get("main.default.events"), Some(&4));
    assert_eq!(cache.get("main.other.events"), Some(&3));
    assert_eq!(cache.get("events"), None);
    assert_eq!(cache.table_names("main", "default"), vec!["events".to_string(), "users".to_string()]);
    assert!(cache.table_names("main", "def").is_empty());
}

#[test]
fn json_objects_row_by_row() {
    let doc = r#"{"sensor":{"id":"A12"},"tags":["x","y"]}"#;
    let text = |s: &str| Some(s.to_string());
    let json = [text(doc), text(doc), None, text(doc), text("{"), text(doc)];
    let paths = [text("$.sensor.id"), text("$.tags[1]"), text("$"), None, text("$"), text("$.nope")];
    assert_eq!(get_json_objects(&json, &paths), vec![text("A12"), text("y"), None, None, None, None]);
    assert!(get_json_objects(&[], &[]).is_empty());
}

#[test]
fn resolved_tables_are_served_again() {
    let mut cache: TableCache<i32> = TableCache::new();
    let ask = |c: &TableCache<i32>, name: &str| match c.look_up("main", "default", name) {
        Lookup::Cached(t) => Ok(*t),
        Lookup::Resolve(full) => Err(full),
    };
    let events = "main.default.events".to_string();
    assert_eq!(ask(&cache, "events"), Err(events.clone()));
    // An absent table is asked for again.
    cache.settle(events.clone(), None);
    assert_eq!(cache.len(), 0);
    assert_eq!(ask(&cache, "events"), Err(events.clone()));
    cache.settle(events, Some(7));
    assert_eq!(ask(&cache, "events"), Ok(7));
    cache.settle("main.default.users".to_string(), Some(8));
    assert_eq!(ask(&cache, "events"), Ok(7));
    assert_eq!(ask(&cache, "users"), Ok(8));
}

#[test]
fn extractions_join() {
    let doc = r#"{"a":{"b":[{"c":"x"},2]},"k":null}"#;
    for (p, q) in [("$.a", ".b[0].c"), ("$['a']", ".b[1]"), ("$.a.b", "[0]"), ("$.a", ""), ("$", ".a['b'][9]"), ("$.a", ".[")] {
        let mid = extract_json_path(doc, p).unwrap();
        assert_eq!(extract_json_path(doc, &format!("{p}{q}")), extract_json_path(&mid, &format!("${q}")));
    }
    assert_eq!(extract_json_path(doc, "$.a.b[0].c").as_deref(), Some("x"));
}

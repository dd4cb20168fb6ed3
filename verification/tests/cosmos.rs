use ais_tracing::services::cosmos::{
    fail, fail_core, invalid_endpoint, join_path, leaf, path_of, plain, plan_scan, probe_size,
    scan_account, split_path, system_field, AccountSchemas, ContainerError, ContainerSchema,
    DataError, FieldInfo, Listing, Page, Sampled, SAMPLE_SIZE,
};
use ais_tracing::services::sampling::{flatten, infer_container_schema};
use ais_tracing::single::Single;
use ais_tracing::text_set::TextSet;
use ais_tracing::value::{Number, Value};

fn text(s: &str) -> Value {
    Value::Text(s.to_string())
}

fn number(n: i64) -> Value {
    Value::Number(Number { text: n.to_string(), whole: Some(n) })
}

fn object(members: Vec<(&str, Value)>) -> Value {
    Value::Object(members.into_iter().map(|(k, v)| (k.to_string(), v)).collect())
}

fn set(values: &[&str]) -> TextSet {
    TextSet::of(&values.iter().map(|v| v.to_string()).collect())
}

fn to_f32(s: &Single) -> f32 {
    let (neg, m, e) = s.parts();
    let v = m as f64 * 2f64.powi(e as i32);
    (if neg { -v } else { v }) as f32
}

#[test]
fn a_dotted_property_name_round_trips() {
    let literal = join_path("", "order.id");
    let nested = join_path(&join_path("", "order"), "id");

    assert_ne!(literal, nested);
    assert_eq!(split_path(&literal), vec!["order.id"]);
    assert_eq!(split_path(&nested), vec!["order", "id"]);
    assert_eq!(leaf(&literal), "order.id");
    assert_eq!(leaf(&nested), "id");
}

#[test]
fn a_backslash_in_a_property_name_survives_too() {
    let path = join_path("", r"we\ird");
    assert_eq!(split_path(&path), vec![r"we\ird"]);
}

#[test]
fn ordinary_paths_are_unchanged() {
    assert_eq!(join_path("", "correlationId"), "correlationId");
    assert_eq!(join_path("properties", "correlationId"), "properties.correlationId");
    assert_eq!(split_path("properties.correlationId"), vec!["properties", "correlationId"]);
}

#[test]
fn flatten_records_wrappers_and_their_leaves() {
    let doc = object(vec![
        ("id", text("1")),
        (
            "properties",
            object(vec![
                ("correlationId", text("abc")),
                (
                    "deep",
                    object(vec![("x", number(1)), ("deeper", object(vec![("y", number(2))]))]),
                ),
            ]),
        ),
        ("tags", Value::Array(vec![text("a"), text("b")])),
    ]);
    let mut out = Vec::new();
    flatten("", &doc, 0, &mut out);
    let paths: Vec<&str> = out.iter().map(|(p, _)| p.as_str()).collect();

    assert!(paths.contains(&"properties"));
    assert!(paths.contains(&"properties.correlationId"));
    assert!(paths.contains(&"properties.deep"));
    assert!(paths.contains(&"properties.deep.x"));
    assert!(paths.contains(&"properties.deep.deeper"));
    assert!(!paths.contains(&"properties.deep.deeper.y"));
    assert!(paths.contains(&"tags"));
    assert!(!paths.iter().any(|p| p.starts_with("tags.")));
}

#[test]
fn paths_of_odd_names_split_back() {
    let names = ["a.b", r"c\", r"\.", "", "é"];
    let mut path = String::new();
    for name in names {
        path = join_path(&path, name);
    }
    assert_eq!(path, r"a\.b.c\\.\\\..".to_string() + ".é");
    assert_eq!(split_path(&path), names);
    assert_eq!(split_path(r"a\"), vec![r"a\"]);
    assert_eq!(split_path(""), vec![""]);
    assert_eq!(leaf(""), "");
}

#[test]
fn failures_keep_their_status() {
    let e = fail("query_items", 403, "no");
    assert_eq!(e.to_string(), "query_items: no");
    assert!(e.forbidden());
    assert!(!fail("query_items", 404, "403").forbidden());
    assert!(!fail_core("credential", None, "403").forbidden());
    assert_eq!(fail_core("credential", Some(403), "x").status, Some(403));
    assert_eq!(plain("m".into()), DataError { message: "m".into(), status: None });
    assert_eq!(
        invalid_endpoint("nowhere", "bad").message,
        "invalid Cosmos endpoint nowhere: bad"
    );
    let e = ContainerError::new("db/c".into(), fail("x", 403, "y"));
    assert_eq!(e, ContainerError { path: "db/c".into(), message: "x: y".into(), forbidden: true });
}

#[test]
fn a_page_says_when_it_was_cut_short() {
    let mut page = Page::new();
    assert!(page.take(number(1), 2));
    assert!(page.take(number(2), 2));
    assert!(!page.truncated);
    assert!(!page.take(number(3), 2));
    assert!(page.truncated);
    assert_eq!(page.docs, vec![number(1), number(2)]);

    let mut none = Page::new();
    assert!(!none.take(number(1), 0));
    assert!(none.truncated && none.docs.is_empty());

    assert_eq!(probe_size(200), 201);
    assert_eq!(probe_size(usize::MAX), u32::MAX);
    assert_eq!(probe_size(u32::MAX as usize - 1), u32::MAX);
}

#[test]
fn a_schema_records_types_values_and_counts() {
    let docs = vec![
        object(vec![("id", text("a")), ("n", number(1)), ("s", text("x"))]),
        object(vec![("id", text("b")), ("n", text("1")), ("o", object(vec![("p", Value::Null)]))]),
        object(vec![("id", text("b")), ("n", Value::Bool(true))]),
        text("no object"),
    ];
    let schema = infer_container_schema("db", "c", &docs);
    assert_eq!(schema.path(), "db/c");
    assert_eq!(schema.sampled_docs, 4);
    let names: Vec<&str> = schema.fields.iter().map(|f| f.name.as_str()).collect();
    assert_eq!(names, vec!["id", "n", "o", "o.p", "s"]);
    let id = &schema.fields[0];
    assert_eq!((id.seen_in, id.distinct), (3, 2));
    assert_eq!(id.values, set(&["b", "a"]));
    assert!(id.is_scalar());
    let n = &schema.fields[1];
    assert_eq!(n.types, vec!["number", "string", "bool"]);
    assert_eq!((n.seen_in, n.distinct), (3, 1));
    assert_eq!(schema.fields[2].types, vec!["object"]);
    assert!(!schema.fields[2].is_scalar());
    assert_eq!(schema.fields[3].types, vec!["null"]);
}

#[test]
fn no_more_than_the_sample_is_looked_at() {
    let docs: Vec<Value> = (0..30).map(|i| object(vec![("n", number(i))])).collect();
    let schema = infer_container_schema("db", "c", &docs);
    assert_eq!(schema.sampled_docs, SAMPLE_SIZE);
    assert_eq!(schema.fields[0].seen_in, SAMPLE_SIZE);
    assert_eq!(schema.fields[0].distinct, SAMPLE_SIZE);
    assert!(!schema.fields[0].values.contains("20"));
}

#[test]
fn fractions_are_those_of_single_precision() {
    for seen_in in 0..60usize {
        for whole in 0..60usize {
            let field = FieldInfo {
                name: "f".into(),
                types: vec![],
                seen_in,
                distinct: whole,
                values: TextSet::new(),
            };
            let fill = if whole == 0 { 0.0 } else { seen_in as f32 / whole as f32 };
            assert_eq!(to_f32(&field.fill(whole)), fill);
            let ratio = if seen_in == 0 { 0.0 } else { whole as f32 / seen_in as f32 };
            assert_eq!(to_f32(&field.distinct_ratio()), ratio);
        }
    }
    for (a, b) in [(123_456_789usize, 987_654_321usize), (16_777_217, 3), (1, usize::MAX)] {
        let field = FieldInfo {
            name: "f".into(),
            types: vec![],
            seen_in: a,
            distinct: 0,
            values: TextSet::new(),
        };
        assert_eq!(to_f32(&field.fill(b)), a as f32 / b as f32);
    }
}

#[test]
fn a_scan_lists_its_containers_in_order_whatever_answers_first() {
    let schema = |db: &str, c: &str| ContainerSchema {
        database: db.into(),
        container: c.into(),
        sampled_docs: 0,
        fields: vec![],
    };
    let ok = |db: &str, c: &str| Sampled { path: path_of(db, c), result: Ok(schema(db, c)) };
    let bad = |path: &str| Sampled { path: path.into(), result: Err(fail("q", 403, "no")) };
    let listing = || vec![ContainerError::new("zz".into(), plain("listing".into()))];

    let one = scan_account(listing(), vec![ok("b", "x"), bad("b/y"), ok("a", "z"), ok("a", "c")]);
    let two = scan_account(listing(), vec![ok("a", "c"), ok("a", "z"), ok("b", "x"), bad("b/y")]);
    assert_eq!(one, two);
    let paths: Vec<String> = one.schemas.iter().map(|s| s.path()).collect();
    assert_eq!(paths, vec!["a/c", "a/z", "b/x"]);
    let failed: Vec<&str> = one.errors.iter().map(|e| e.path.as_str()).collect();
    assert_eq!(failed, vec!["b/y", "zz"]);
    assert!(one.errors[0].forbidden && !one.errors[1].forbidden);
    assert_eq!(AccountSchemas::default(), scan_account(vec![], vec![]));
}

#[test]
fn a_database_that_cannot_be_listed_is_recorded_and_passed_over() {
    let plan = plan_scan(vec![
        Listing { database: "a".into(), containers: Ok(vec!["x".into(), "y".into()]) },
        Listing { database: "b".into(), containers: Err(fail("query_containers", 403, "no")) },
        Listing { database: "c".into(), containers: Ok(vec!["z".into()]) },
    ]);
    let paths: Vec<(&str, &str)> =
        plan.paths.iter().map(|(d, c)| (d.as_str(), c.as_str())).collect();
    assert_eq!(paths, vec![("a", "x"), ("a", "y"), ("c", "z")]);
    assert_eq!(plan.errors.len(), 1);
    assert_eq!(plan.errors[0].path, "b");
    assert!(plan.errors[0].forbidden);
}

#[test]
fn metadata_of_the_store_is_known_by_name() {
    for name in ["_rid", "_self", "_etag", "_attachments", "_ts", "_lsn"] {
        assert!(system_field(name));
    }
    assert!(!system_field("_TS"));
    assert!(!system_field("ts"));
}

use ais_tracing::services::blocks::{build_block, build_null_query, build_query, sql_path};
use ais_tracing::services::cosmos::{fail, Page};
use ais_tracing::services::discover::{Binding, KeyCandidate};
use ais_tracing::services::document::{lookup, scalar_text, truncate};
use ais_tracing::services::relane::{regroup, relane};
use ais_tracing::services::sampling::{flatten, Found};
use ais_tracing::services::time::{choose_time, epoch_to_millis};
use ais_tracing::services::trace::{
    failed_trace, format_gap, format_time, is_error, parse_time, plan, run, Block, ErrorRule, Lane,
    LaneState, Trace, TraceSpec,
};
use ais_tracing::single::Single;
use ais_tracing::value::{Number, Value};

fn text(s: &str) -> Value {
    Value::Text(s.to_string())
}

fn number(n: i64) -> Value {
    Value::Number(Number { text: n.to_string(), whole: Some(n) })
}

fn object(members: Vec<(&str, Value)>) -> Value {
    Value::Object(members.into_iter().map(|(k, v)| (k.to_string(), v)).collect())
}

fn key(label: &str, id_shaped: bool) -> KeyCandidate {
    KeyCandidate {
        id: "x".into(),
        label: label.into(),
        bindings: vec![],
        missing: vec![],
        shared_values: 0,
        cross_named: false,
        id_shaped,
        avg_fill: Single::of(1),
        avg_distinct_ratio: Single::of(1),
        score: Single::zero(),
        evidence: vec![],
    }
}

fn found(value: &Value, path: &str) -> Option<String> {
    lookup(value, path).and_then(scalar_text)
}

#[test]
fn field_paths_are_bracketed_for_sql() {
    assert_eq!(sql_path("correlationId"), r#"c["correlationId"]"#);
    assert_eq!(
        sql_path("properties.correlation-id"),
        r#"c["properties"]["correlation-id"]"#
    );
    assert_eq!(sql_path(r#"od"d"#), r#"c["od\"d"]"#);
}

#[test]
fn nested_lookup_ignores_case() {
    let doc = object(vec![("Properties", object(vec![("CorrelationId", text("abc"))]))]);
    assert_eq!(found(&doc, "properties.correlationid"), Some("abc".into()));
    assert!(lookup(&doc, "properties.missing").is_none());
}

#[test]
fn timestamps_parse_from_every_common_shape() {
    let expect = 1_767_178_800_000; // 2025-12-31T11:00:00Z
    assert_eq!(parse_time(&text("2025-12-31T11:00:00Z")), Some(expect));
    assert_eq!(parse_time(&text("2025-12-31T11:00:00")), Some(expect));
    assert_eq!(parse_time(&text("2025-12-31 11:00:00")), Some(expect));
    assert_eq!(parse_time(&number(1_767_178_800i64)), Some(expect));
    assert_eq!(parse_time(&number(1_767_178_800_000i64)), Some(expect));
    // An ordinary small integer is not a date.
    assert_eq!(parse_time(&number(42)), None);
    assert_eq!(parse_time(&text("not a date")), None);
}

#[test]
fn rfc3339_offsets_are_normalised_to_utc() {
    let utc = parse_time(&text("2025-12-31T12:00:00+01:00"));
    assert_eq!(utc, parse_time(&text("2025-12-31T11:00:00Z")));
}

#[test]
fn blocks_prefer_chosen_fields_then_fill_from_the_document() {
    let spec = TraceSpec {
        key: key("correlationId", true),
        value: "abc".into(),
        time_field: "occurredat".into(),
        label_field: "eventtype".into(),
        fact_fields: vec!["status".into()],
    };
    let doc = object(vec![
        ("correlationId", text("abc")),
        ("occurredAt", text("2025-12-31T11:00:00Z")),
        ("eventType", text("paid")),
        ("status", text("ok")),
        ("amount", number(42)),
    ]);

    let block = build_block(&doc, &spec, "events", "correlationId", "events#0");
    assert_eq!(block.label, "paid");
    assert_eq!(block.at, Some(1_767_178_800_000));
    assert_eq!(block.facts[0], ("status".into(), "ok".into()));
    // The key, time and label fields are never repeated as facts.
    assert!(block
        .facts
        .iter()
        .all(|(k, _)| !["correlationId", "occurredAt", "eventType"].contains(&k.as_str())));
}

#[test]
fn a_document_with_no_label_field_falls_back_to_the_container() {
    let spec = TraceSpec {
        key: key("k", false),
        value: "abc".into(),
        time_field: String::new(),
        label_field: String::new(),
        fact_fields: vec![],
    };
    let block = build_block(&object(vec![("k", text("abc"))]), &spec, "orders", "k", "orders#0");
    assert_eq!(block.label, "orders");
    assert_eq!(block.at, None);
}

#[test]
fn blocks_are_found_by_id_after_sorting() {
    let mut blocks: Vec<Block> = [(2, 200i64), (0, 0), (1, 100)]
        .iter()
        .map(|(i, at)| Block {
            id: format!("db/c#{i}"),
            label: format!("step {i}"),
            at: Some(*at),
            at_text: String::new(),
            facts: vec![],
            container: "db/c".into(),
            doc: object(vec![("n", number(*i))]),
        })
        .collect();
    blocks.sort_by_key(|b| b.at.unwrap_or(i64::MAX));

    let trace = Trace {
        value: "abc".into(),
        key_label: "k".into(),
        blocks_found: blocks.len(),
        span: Some((0, 200)),
        lanes: vec![Lane {
            name: "db/c".into(),
            detail: Some("k".into()),
            blocks,
            state: LaneState::Reached,
            error: None,
            truncated: false,
        }],
    };

    let (lane, block) = trace.find_block("db/c#2").expect("id should resolve");
    assert_eq!(lane.name, "db/c");
    assert_eq!(block.label, "step 2");
    assert_eq!(block.doc, object(vec![("n", number(2))]));
    assert!(trace.find_block("db/c#9").is_none());
}

fn expected(names: &[&str]) -> Vec<String> {
    names.iter().map(|s| s.to_string()).collect()
}

fn doc_block(id: &str, container: &str, workflow: Option<&str>, at: i64) -> Block {
    Block {
        id: id.into(),
        label: "step".into(),
        at: Some(at),
        at_text: String::new(),
        facts: vec![],
        container: container.into(),
        doc: match workflow {
            Some(w) => object(vec![("workflowName", text(w))]),
            None => object(vec![]),
        },
    }
}

fn container_lane(name: &str, blocks: Vec<Block>) -> Lane {
    Lane {
        name: name.into(),
        detail: Some("correlationId".into()),
        state: if blocks.is_empty() { LaneState::Awaiting } else { LaneState::Reached },
        blocks,
        error: None,
        truncated: false,
    }
}

fn off_path_lane(name: &str) -> Lane {
    Lane {
        name: name.into(),
        detail: None,
        blocks: vec![],
        state: LaneState::OffPath,
        error: None,
        truncated: false,
    }
}

#[test]
fn regrouping_replaces_containers_with_field_values() {
    let lanes = vec![
        container_lane(
            "db/events",
            vec![
                doc_block("1", "db/events", Some("Validate"), 0),
                doc_block("2", "db/events", Some("Invoice"), 200),
            ],
        ),
        container_lane("db/audit", vec![doc_block("3", "db/audit", Some("Validate"), 100)]),
    ];

    let out = regroup(&lanes, "workflowname", &vec![]);
    let names: Vec<&str> = out.iter().map(|l| l.name.as_str()).collect();
    assert_eq!(names, vec!["Invoice", "Validate"]);

    let validate = out.iter().find(|l| l.name == "Validate").unwrap();
    assert_eq!(validate.blocks.len(), 2);
    assert_eq!(validate.blocks[0].id, "1");
    assert_eq!(validate.blocks[1].id, "3");
    assert_eq!(validate.detail.as_deref(), Some("db/audit, db/events"));
}

#[test]
fn expected_stages_with_no_documents_show_as_awaiting() {
    let lanes = vec![container_lane(
        "db/events",
        vec![doc_block("1", "db/events", Some("Validate"), 0)],
    )];

    let out = regroup(&lanes, "workflowname", &expected(&["Validate", "Invoice", "Archive"]));
    let awaiting: Vec<&str> = out
        .iter()
        .filter(|l| l.state == LaneState::Awaiting)
        .map(|l| l.name.as_str())
        .collect();
    assert_eq!(awaiting, vec!["Archive", "Invoice"]);
}

#[test]
fn documents_missing_the_lane_field_get_their_own_lane() {
    let lanes = vec![container_lane("db/events", vec![doc_block("1", "db/events", None, 0)])];

    let out = regroup(&lanes, "workflowname", &vec![]);
    assert_eq!(out.len(), 1);
    assert_eq!(out[0].name, "(no workflowname)");
    assert_eq!(out[0].state, LaneState::Reached);
}

#[test]
fn failed_containers_survive_regrouping() {
    let lanes = vec![
        container_lane("db/events", vec![doc_block("1", "db/events", Some("Validate"), 0)]),
        Lane {
            name: "db/broken".into(),
            detail: Some("correlationId".into()),
            blocks: vec![],
            state: LaneState::Failed(0),
            error: Some("403".into()),
            truncated: false,
        },
    ];

    let out = regroup(&lanes, "workflowname", &vec![]);
    let failed = out.iter().find(|l| l.state == LaneState::Failed(0));
    assert_eq!(failed.map(|l| l.name.as_str()), Some("db/broken"));
    assert_eq!(failed.and_then(|l| l.error.as_deref()), Some("403"));
}

fn names(trace: &Trace) -> Vec<&str> {
    trace.lanes.iter().map(|l| l.name.as_str()).collect()
}

#[test]
fn relaning_switches_the_axis_and_back_without_requerying() {
    let base = Trace {
        value: "abc".into(),
        key_label: "correlationId".into(),
        blocks_found: 2,
        span: Some((0, 200)),
        lanes: vec![
            container_lane("db/events", vec![doc_block("1", "db/events", Some("Validate"), 0)]),
            container_lane("db/audit", vec![doc_block("2", "db/audit", Some("Invoice"), 200)]),
        ],
    };

    let by_container = relane(&base, "", &vec![]);
    assert_eq!(names(&by_container), vec!["db/events", "db/audit"]);

    let by_workflow = relane(&base, "workflowname", &vec![]);
    assert_eq!(names(&by_workflow), vec!["Validate", "Invoice"]);
    assert_eq!(by_workflow.blocks_found, base.blocks_found);
    assert_eq!(by_workflow.span, base.span);

    assert_eq!(relane(&by_container, "", &vec![]), by_container);
}

#[test]
fn a_real_shaped_account_regroups_onto_its_schema_field() {
    let schema_block = |id: &str, container: &str, schema: Option<&str>, at: i64| Block {
        id: id.into(),
        label: "step".into(),
        at: Some(at),
        at_text: String::new(),
        facts: vec![],
        container: container.into(),
        doc: match schema {
            Some(s) => object(vec![("correlationId", text("c50f1a6a")), ("schema", text(s))]),
            None => object(vec![("correlationId", text("c50f1a6a"))]),
        },
    };

    let base = Trace {
        value: "c50f1a6a".into(),
        key_label: "correlationId".into(),
        blocks_found: 4,
        span: Some((0, 11_000)),
        lanes: vec![
            container_lane("ais/Sessions", vec![schema_block("1", "ais/Sessions", None, 0)]),
            container_lane(
                "ais/MsgItems",
                vec![
                    schema_block("2", "ais/MsgItems", Some("ais.pivot.event"), 11_000),
                    schema_block("3", "ais/MsgItems", Some("ais.jde.invoice"), 11_000),
                ],
            ),
            container_lane(
                "ais/MsgTracking",
                vec![schema_block("4", "ais/MsgTracking", Some("ais.pivot.event"), 11_000)],
            ),
            off_path_lane("ais/leases"),
        ],
    };

    let out = relane(&base, "schema", &vec![]);
    let mut got = names(&out);
    got.sort_unstable();
    assert_eq!(got, vec!["(no schema)", "ais.jde.invoice", "ais.pivot.event"]);

    let pivot = out.lanes.iter().find(|l| l.name == "ais.pivot.event").unwrap();
    assert_eq!(pivot.blocks.len(), 2);
    assert_eq!(pivot.detail.as_deref(), Some("ais/MsgItems, ais/MsgTracking"));

    assert!(!names(&out).iter().any(|n| n.starts_with("ais/")));
}

#[test]
fn the_lane_field_is_looked_up_exactly_like_the_label_field() {
    let doc = object(vec![("correlationId", text("abc")), ("schema", text("ais.pivot.event"))]);
    assert_eq!(found(&doc, "schema"), Some("ais.pivot.event".into()));
}

#[test]
fn off_path_containers_do_not_become_stages() {
    let lanes = vec![
        container_lane("db/events", vec![doc_block("1", "db/events", Some("Validate"), 0)]),
        off_path_lane("db/unrelated"),
    ];

    let out = regroup(&lanes, "workflowname", &vec![]);
    assert_eq!(out.len(), 1);
    assert_eq!(out[0].name, "Validate");
}

#[test]
fn error_rules_match_numbers_typed_as_text() {
    let doc = object(vec![("sessionStatus", number(3)), ("state", text("Failed"))]);
    let rule = |f: &str, v: &str| ErrorRule {
        field: f.into(),
        display: f.into(),
        value: v.into(),
    };

    assert!(is_error(&doc, &vec![rule("sessionstatus", "3")]));
    assert!(!is_error(&doc, &vec![rule("sessionstatus", "2")]));
    assert!(!is_error(&doc, &vec![rule("sessionstatus", "30")]));
    assert!(is_error(&doc, &vec![rule("state", "failed")]));
    assert!(!is_error(&doc, &vec![rule("missing", "3")]));
    assert!(!is_error(&doc, &vec![]));
}

#[test]
fn error_rules_are_ord_and_read_nested_paths() {
    let doc = object(vec![("properties", object(vec![("sessionStatus", number(3))]))]);
    let rules = vec![
        ErrorRule { field: "state".into(), display: "state".into(), value: "Failed".into() },
        ErrorRule {
            field: "properties.sessionstatus".into(),
            display: "sessionStatus".into(),
            value: "3".into(),
        },
    ];
    assert!(is_error(&doc, &rules));
    assert_eq!(rules[1].label(), "sessionStatus = 3");
}

#[test]
fn gaps_read_in_sensible_units() {
    assert_eq!(format_gap(250), "+250ms");
    assert_eq!(format_gap(2_500), "+2.5s");
    assert_eq!(format_gap(90_000), "+1.5min");
    assert_eq!(format_gap(5_400_000), "+1.5h");
}

/// A gap computed in the machine's own double precision.
fn gap(millis: i64) -> String {
    let s = millis as f64 / 1000.0;
    if millis < 1000 {
        format!("+{millis}ms")
    } else if s < 60.0 {
        format!("+{s:.1}s")
    } else if s < 3600.0 {
        format!("+{:.1}min", s / 60.0)
    } else if s < 86_400.0 {
        format!("+{:.1}h", s / 3600.0)
    } else {
        format!("+{:.1}d", s / 86_400.0)
    }
}

#[test]
fn gaps_are_those_of_double_precision() {
    for millis in -20..130_000 {
        assert_eq!(format_gap(millis), gap(millis));
    }
    for k in 1..60_000i64 {
        for millis in [k * 3000, k * 3000 + 1, k * 180_000, k * 4_320_000, k * 4_320_000 - 1] {
            assert_eq!(format_gap(millis), gap(millis));
        }
    }
    let mut seed: u64 = 0x2545_f491_4f6c_dd1d;
    for shift in 0..60 {
        for _ in 0..200 {
            seed ^= seed << 13;
            seed ^= seed >> 7;
            seed ^= seed << 17;
            let millis = (seed >> shift) as i64 & i64::MAX;
            assert_eq!(format_gap(millis), gap(millis), "{millis}");
        }
    }
    for millis in [i64::MAX, i64::MAX - 1, 1 << 53, (1 << 53) + 1, i64::MIN] {
        assert_eq!(format_gap(millis), gap(millis));
    }
}

#[test]
fn times_are_shown_to_the_millisecond() {
    assert_eq!(format_time(1_767_178_800_007), "12-31 11:00:00.007");
    assert_eq!(format_time(0), "01-01 00:00:00.000");
    assert_eq!(format_time(i64::MAX), "");
}

#[test]
fn times_are_read_in_order_of_preference() {
    assert_eq!(choose_time("5", Some(1), &vec![Some(2)]), Some(1));
    assert_eq!(choose_time("5", None, &vec![None, Some(2), Some(3)]), Some(2));
    assert_eq!(choose_time("1767178800", None, &vec![None]), Some(1_767_178_800_000));
    assert_eq!(choose_time("5", None, &vec![]), None);
    assert_eq!(parse_time(&text("1767178800000")), Some(1_767_178_800_000));
    assert_eq!(parse_time(&text("2025-12-31 11:00:00.250")), Some(1_767_178_800_250));
    assert_eq!(parse_time(&text("2025-12-31")), Some(1_767_139_200_000));
    assert_eq!(parse_time(&text("2025-12-31T")), None);
    assert_eq!(parse_time(&text("2025-13-31")), None);
    assert_eq!(parse_time(&text("")), None);
    assert_eq!(parse_time(&Value::Bool(true)), None);
    assert_eq!(parse_time(&Value::Number(Number { text: "x".into(), whole: None })), None);
    for (n, millis) in [
        (999_999_999, None),
        (1_000_000_000, Some(1_000_000_000_000)),
        (4_000_000_000, Some(4_000_000_000_000)),
        (4_000_000_001, None),
        (999_999_999_999, None),
        (1_000_000_000_000, Some(1_000_000_000_000)),
        (4_000_000_000_001, None),
    ] {
        assert_eq!(epoch_to_millis(n), millis);
    }
}

#[test]
fn queries_name_escaped_properties_whole() {
    assert_eq!(sql_path(r"a\.b"), r#"c["a.b"]"#);
    assert_eq!(sql_path(r"we\\ird.x"), r#"c["we\\ird"]["x"]"#);
    assert_eq!(build_query("a.b", false), r#"SELECT * FROM c WHERE c["a"]["b"] = @v"#);
    assert_eq!(
        build_query("id", true),
        r#"SELECT * FROM c WHERE c["id"] = @v OR c["id"] = @n"#
    );
    assert_eq!(build_null_query("id"), r#"SELECT * FROM c WHERE c["id"] = null"#);
}

#[test]
fn lookup_follows_escaped_paths() {
    let doc = object(vec![
        ("a.b", text("flat")),
        ("a", object(vec![("B", text("nested")), ("b", text("second"))])),
    ]);
    assert_eq!(found(&doc, r"a\.b"), Some("flat".into()));
    assert_eq!(found(&doc, "a.b"), Some("nested".into()));
    assert!(lookup(&doc, "").is_none());
    assert!(lookup(&doc, "a.b.c").is_none());
    assert_eq!(scalar_text(&text("")), None);
    assert_eq!(scalar_text(&Value::Bool(false)), Some("false".into()));
    assert_eq!(scalar_text(&Value::Null), None);
    let rule = ErrorRule { field: r"x.a\.b".into(), display: String::new(), value: "3".into() };
    assert_eq!(rule.label(), "a.b = 3");
}

#[test]
fn long_facts_are_cut_with_an_ellipsis() {
    assert_eq!(truncate("short", 5), "short");
    assert_eq!(truncate("longer", 5), "long…");
    assert_eq!(truncate("→→→", 2), "→…");
    assert_eq!(truncate("x", 0), "…");
}

#[test]
fn cards_show_few_facts_and_none_twice() {
    let spec = TraceSpec {
        key: key("k", false),
        value: "v".into(),
        time_field: "at".into(),
        label_field: "step".into(),
        fact_fields: vec!["k".into(), "note".into(), "note".into(), "o.p".into(), "none".into()],
    };
    let long = "n".repeat(30);
    let doc = object(vec![
        ("K", text("v")),
        ("note", text(&long)),
        ("o", object(vec![("P", number(1))])),
        ("_etag", text("e")),
        ("wide", text(&long)),
        ("last", Value::Bool(true)),
        ("extra", text("x")),
    ]);
    let block = build_block(&doc, &spec, "db/c", "K", "db/c#0");
    assert_eq!(
        block.facts,
        vec![
            ("note".to_string(), "n".repeat(27) + "…"),
            ("p".to_string(), "1".to_string()),
            ("last".to_string(), "true".to_string()),
        ]
    );
    assert_eq!(block.label, "c");
    assert_eq!(block.at_text, "");
    assert_eq!(block.container, "db/c");
}

fn bound_key() -> KeyCandidate {
    let binding = |container: &str, field: &str| Binding {
        container: container.into(),
        field: field.into(),
        seen_in: 1,
        sampled_docs: 1,
        distinct: 1,
    };
    let mut k = key("correlationId", true);
    k.bindings = vec![
        binding("db/a", "id"),
        binding("db/b", "p.id"),
        binding("db/f", "id"),
        binding("db/w", "id"),
    ];
    k
}

fn a_spec() -> TraceSpec {
    TraceSpec {
        key: bound_key(),
        value: "v".into(),
        time_field: "at".into(),
        label_field: String::new(),
        fact_fields: vec![],
    }
}

#[test]
fn every_container_ends_up_in_its_own_state() {
    let spec = a_spec();
    let containers = expected(&["db/off", "db/w", "db/f", "db/b", "nonsense", "db/a"]);
    let lookups = plan(&containers, &spec.key);
    let asked: Vec<(&str, &str, &str)> = lookups
        .iter()
        .map(|l| (l.database.as_str(), l.container.as_str(), l.field.as_str()))
        .collect();
    assert_eq!(
        asked,
        vec![("db", "w", "id"), ("db", "f", "id"), ("db", "b", "p.id"), ("db", "a", "id")]
    );

    let doc = |at: i64| object(vec![("id", text("v")), ("at", number(at))]);
    let answers = vec![
        Ok(Page { docs: vec![], truncated: false }),
        Err(fail("query_items", 403, "no")),
        Ok(Page { docs: vec![doc(1_767_178_801), doc(1_767_178_800)], truncated: false }),
        Ok(Page { docs: vec![doc(1_767_178_799), object(vec![])], truncated: false }),
    ];
    let trace = run(&containers, &spec, &answers);
    assert_eq!(names(&trace), vec!["db/a", "db/b", "db/w", "db/f", "db/off"]);
    let states: Vec<LaneState> = trace.lanes.iter().map(|l| l.state).collect();
    assert_eq!(
        states,
        vec![
            LaneState::Reached,
            LaneState::Reached,
            LaneState::Awaiting,
            LaneState::Failed(0),
            LaneState::OffPath
        ]
    );
    assert_eq!(trace.blocks_found, 4);
    assert_eq!(trace.span, Some((1_767_178_799_000, 1_767_178_801_000)));
    assert_eq!((trace.reached(), trace.awaiting()), (2, 1));
    let ids: Vec<&str> = trace.lanes[1].blocks.iter().map(|b| b.id.as_str()).collect();
    assert_eq!(ids, vec!["db/b#1", "db/b#0"]);
    assert_eq!(trace.lanes[0].first_at(), Some(1_767_178_799_000));
    assert_eq!(trace.lanes[0].blocks[1].at, None);
    assert_eq!(trace.lanes[3].error.as_deref(), Some("query_items: no"));
    assert_eq!(trace.lanes[4].detail, None);
    let (lane, block) = trace.find_block("db/b#0").unwrap();
    assert_eq!((lane.name.as_str(), block.at), ("db/b", Some(1_767_178_801_000)));
    assert_eq!((trace.value.as_str(), trace.key_label.as_str()), ("v", "correlationId"));
}

#[test]
fn an_unreachable_account_fails_every_container() {
    let containers = expected(&["db/a", "nonsense"]);
    let trace = failed_trace(&containers, &a_spec(), &fail("connect", 401, "no"));
    assert_eq!(names(&trace), vec!["db/a", "nonsense"]);
    assert!(trace.lanes.iter().all(|l| l.state == LaneState::Failed(0)));
    assert_eq!(trace.lanes[1].error.as_deref(), Some("connect: no"));
    assert_eq!((trace.blocks_found, trace.span), (0, None));
}

#[test]
fn any_failure_keeps_its_lane_on_every_axis() {
    let mut lane = container_lane("db/x", vec![]);
    lane.state = LaneState::Failed(7);
    let out = regroup(&vec![lane.clone()], "workflowname", &expected(&["Stage"]));
    assert_eq!(out.len(), 2);
    assert_eq!(out[1], lane);
}

#[test]
fn changing_the_axis_keeps_every_card() {
    let blocks: Vec<Block> = (0..20)
        .map(|i| {
            let stage = ["A", "B", "C"][i % 3];
            let stage = if i % 7 == 0 { None } else { Some(stage) };
            doc_block(&format!("id{i}"), if i % 2 == 0 { "db/x" } else { "db/y" }, stage, i as i64)
        })
        .collect();
    let (x, y): (Vec<Block>, Vec<Block>) = blocks.into_iter().partition(|b| b.container == "db/x");
    let base = Trace {
        value: "v".into(),
        key_label: "k".into(),
        blocks_found: 20,
        span: Some((0, 19)),
        lanes: vec![container_lane("db/x", x), container_lane("db/y", y)],
    };
    let out = relane(&base, "workflowname", &expected(&["D"]));
    let mut ids: Vec<String> =
        out.lanes.iter().flat_map(|l| l.blocks.iter().map(|b| b.id.clone())).collect();
    ids.sort();
    let mut all: Vec<String> = (0..20).map(|i| format!("id{i}")).collect();
    all.sort();
    assert_eq!(ids, all);
    for id in &all {
        assert_eq!(out.find_block(id).unwrap().1, base.find_block(id).unwrap().1);
    }
    assert_eq!(names(&out), vec!["(no workflowname)", "B", "C", "A", "D"]);
}

#[test]
fn sampled_paths_lead_back_to_their_values() {
    let doc = object(vec![
        ("A.b", text("1")),
        ("a", object(vec![("B", text("2")), (r"C\d", object(vec![(".", number(3))]))])),
        ("List", Value::Array(vec![Value::Null])),
    ]);
    let mut leaves = Vec::new();
    flatten("", &doc, 0, &mut leaves);
    assert_eq!(leaves.len(), 6);
    for (path, found) in &leaves {
        let looked_up = lookup(&doc, &path.to_lowercase()).expect("the path leads somewhere");
        match found {
            Found::Value(v) => assert_eq!(looked_up, *v, "{path}"),
            Found::Wrapper => assert!(matches!(looked_up, Value::Object(_)), "{path}"),
        }
    }
}

#[test]
fn a_property_with_a_dot_in_its_name_is_not_repeated() {
    let spec = TraceSpec {
        key: key("order.id", false),
        value: "v".into(),
        time_field: "sent\\.at".into(),
        label_field: String::new(),
        fact_fields: vec!["a\\.b".into()],
    };
    let doc = object(vec![
        ("Order.Id", text("v")),
        ("sent.at", text("2025-12-31")),
        ("A.b", text("fact")),
        ("other", text("o")),
    ]);
    let block = build_block(&doc, &spec, "db/c", "Order\\.Id", "db/c#0");
    assert_eq!(block.at, Some(1_767_139_200_000));
    assert_eq!(
        block.facts,
        vec![("a.b".to_string(), "fact".to_string()), ("other".to_string(), "o".to_string())]
    );
}

#[test]
fn changing_to_the_same_axis_changes_nothing() {
    let failed = |name: &str| Lane {
        state: LaneState::Failed(0),
        error: Some("no".into()),
        ..container_lane(name, vec![])
    };
    let base = Trace {
        value: "v".into(),
        key_label: "k".into(),
        blocks_found: 4,
        span: Some((0, 5)),
        lanes: vec![
            failed("db/z"),
            container_lane(
                "db/x",
                vec![
                    doc_block("1", "db/x", Some("B"), 5),
                    doc_block("2", "db/x", Some("A"), 5),
                    doc_block("3", "db/x", None, 0),
                ],
            ),
            off_path_lane("db/o"),
            failed("db/b"),
            container_lane("db/y", vec![doc_block("4", "db/y", Some("A"), 5)]),
        ],
    };
    let once = relane(&base, "workflowname", &expected(&["D"]));
    assert_eq!(names(&once), vec!["(no workflowname)", "A", "B", "D", "db/b", "db/z"]);
    assert_eq!(relane(&once, "workflowname", &expected(&["D"])), once);
}

#[test]
fn a_lane_says_when_there_is_more_than_it_shows() {
    let spec = a_spec();
    let containers = expected(&["db/a", "db/b", "db/f", "db/off"]);
    let doc = object(vec![("id", text("v")), ("step", text("one"))]);
    let answers = vec![
        Ok(Page { docs: vec![doc.clone()], truncated: true }),
        Ok(Page { docs: vec![doc], truncated: false }),
        Err(fail("query_items", 403, "no")),
    ];
    let trace = run(&containers, &spec, &answers);
    let marks = |trace: &Trace| -> Vec<(String, bool)> {
        trace.lanes.iter().map(|l| (l.name.clone(), l.truncated)).collect()
    };
    let marked = |list: &[(&str, bool)]| -> Vec<(String, bool)> {
        list.iter().map(|(name, t)| (name.to_string(), *t)).collect()
    };
    assert_eq!(
        marks(&trace),
        marked(&[("db/a", true), ("db/b", false), ("db/f", false), ("db/off", false)])
    );
    let staged = relane(&trace, "step", &expected(&["two"]));
    assert_eq!(marks(&staged), marked(&[("one", true), ("two", true), ("db/f", false)]));
    assert_eq!(relane(&staged, "step", &expected(&["two"])), staged);
    let whole = relane(
        &Trace { lanes: vec![trace.lanes[1].clone()], ..trace.clone() },
        "step",
        &expected(&["two"]),
    );
    assert_eq!(marks(&whole), marked(&[("one", false), ("two", false)]));
}

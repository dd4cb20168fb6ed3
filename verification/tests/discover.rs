use ais_tracing::services::cosmos::{ContainerSchema, FieldInfo};
use ais_tracing::services::discover::{analyze, field_values, scalar_fields, KeyCandidate};
use ais_tracing::single::Single;
use ais_tracing::text_set::TextSet;

fn set(values: &[&str]) -> TextSet {
    TextSet::of(&values.iter().map(|v| v.to_string()).collect())
}

fn field(name: &str, values: &[&str]) -> FieldInfo {
    let set = set(values);
    FieldInfo {
        name: name.into(),
        types: vec!["string".into()],
        seen_in: values.len(),
        distinct: set.len(),
        values: set,
    }
}

fn container(db: &str, name: &str, fields: Vec<FieldInfo>) -> ContainerSchema {
    let sampled = fields.iter().map(|f| f.seen_in).max().unwrap_or(0);
    ContainerSchema {
        database: db.into(),
        container: name.into(),
        sampled_docs: sampled,
        fields,
    }
}

fn uuids() -> Vec<&'static str> {
    vec![
        "9f1c2d3e-4a5b-6c7d-8e9f-0a1b2c3d4e5f",
        "1a2b3c4d-5e6f-7a8b-9c0d-1e2f3a4b5c6d",
        "2b3c4d5e-6f7a-8b9c-0d1e-2f3a4b5c6d7e",
        "3c4d5e6f-7a8b-9c0d-1e2f-3a4b5c6d7e8f",
    ]
}

fn to_f32(s: &Single) -> f32 {
    let (neg, m, e) = s.parts();
    let v = m as f64 * 2f64.powi(e as i32);
    (if neg { -v } else { v }) as f32
}

#[test]
fn links_differently_named_fields_by_shared_values() {
    let ids = uuids();
    let schemas = vec![
        container(
            "shop",
            "orders",
            vec![
                field("orderRef", &ids),
                field("status", &["open", "open", "closed", "closed"]),
            ],
        ),
        container(
            "shop",
            "events",
            vec![
                field("entityId", &ids),
                field("eventType", &["created", "paid", "shipped", "paid"]),
            ],
        ),
    ];

    let insights = analyze(&schemas);
    let best = &insights.keys[0];

    assert!(best.cross_named, "expected the group to span both names");
    assert_eq!(best.shared_values, 4);
    assert_eq!(best.bindings.len(), 2);
    assert_eq!(
        best.binding_for("shop/orders").map(|b| b.field.as_str()),
        Some("orderRef")
    );
    assert_eq!(
        best.binding_for("shop/events").map(|b| b.field.as_str()),
        Some("entityId")
    );
}

#[test]
fn low_cardinality_fields_rank_below_identifiers() {
    let ids = uuids();
    let schemas = vec![
        container(
            "shop",
            "orders",
            vec![field("orderRef", &ids), field("status", &["a", "a", "b", "b"])],
        ),
        container(
            "shop",
            "events",
            vec![field("entityId", &ids), field("status", &["a", "b", "b", "a"])],
        ),
    ];

    let insights = analyze(&schemas);
    let status_rank = insights.keys.iter().position(|c| c.label == "status");
    assert_eq!(insights.keys[0].label, "orderRef");
    assert!(status_rank.is_some_and(|r| r > 0), "status should not win");
}

#[test]
fn does_not_link_fields_within_one_container() {
    let ids = uuids();
    let schemas = vec![container(
        "shop",
        "orders",
        vec![field("orderId", &ids), field("parentOrderId", &ids)],
    )];

    let insights = analyze(&schemas);
    assert!(
        insights.keys.iter().all(|c| c.bindings.len() == 1),
        "same-container fields must stay separate candidates"
    );
}

#[test]
fn nested_paths_link_to_top_level_fields() {
    let ids = uuids();
    let schemas = vec![
        container("shop", "orders", vec![field("correlationId", &ids)]),
        container("shop", "audit", vec![field("properties.correlationId", &ids)]),
    ];

    let insights = analyze(&schemas);
    let best = &insights.keys[0];
    assert_eq!(best.bindings.len(), 2);
    assert_eq!(
        best.binding_for("shop/audit").map(|b| b.field.as_str()),
        Some("properties.correlationId")
    );
}

#[test]
fn field_values_unions_across_containers_and_dedupes() {
    let schemas = vec![
        container(
            "shop",
            "events",
            vec![field("workflowName", &["Validate", "Invoice", "Validate"])],
        ),
        container("shop", "audit", vec![field("WorkflowName", &["Validate", "Archive"])]),
    ];

    assert_eq!(
        field_values(&schemas, "workflowname"),
        vec!["Archive", "Invoice", "Validate"]
    );
    assert!(field_values(&schemas, "").is_empty());
    assert!(field_values(&schemas, "nosuchfield").is_empty());
}

#[test]
fn scalar_fields_includes_numeric_flags_the_role_lists_reject() {
    let numeric = FieldInfo {
        name: "sessionStatus".into(),
        types: vec!["number".into()],
        seen_in: 20,
        distinct: 2,
        values: set(&["2", "3"]),
    };
    let schemas = vec![container(
        "ais",
        "MsgItems",
        vec![numeric, field("correlationId", &uuids())],
    )];

    let offered = scalar_fields(&schemas);
    let ids: Vec<&str> = offered.iter().map(|f| f.id.as_str()).collect();
    assert!(
        ids.contains(&"sessionstatus"),
        "numeric fields must be offerable as error flags, got {ids:?}"
    );
    assert_eq!(field_values(&schemas, "sessionstatus"), vec!["2", "3"]);
}

#[test]
fn time_and_label_roles_are_detected() {
    let schemas = vec![container(
        "shop",
        "events",
        vec![
            field(
                "occurredAt",
                &[
                    "2026-01-04T10:00:00Z",
                    "2026-01-04T10:05:00Z",
                    "2026-01-05T09:00:00Z",
                ],
            ),
            field("eventType", &["created", "paid", "shipped"]),
        ],
    )];

    let insights = analyze(&schemas);
    assert_eq!(insights.times[0].label, "occurredAt");
    assert!(insights.times.iter().any(|c| c.id == "_ts"));
    assert!(insights.labels.iter().any(|c| c.label == "eventType"));
}

#[test]
fn short_values_do_not_link_containers() {
    let schemas = vec![
        container("shop", "a", vec![field("code", &["1", "2", "3", "4"])]),
        container("shop", "b", vec![field("rank", &["1", "2", "3", "4"])]),
    ];

    let insights = analyze(&schemas);
    assert!(
        insights.keys.iter().all(|c| c.bindings.len() == 1),
        "short values are too collision-prone to link on"
    );
}

/// A field with the given counts, whose values are the first `distinct` of a
/// family of identifiers.
fn counted(name: &str, family: &str, seen_in: usize, distinct: usize) -> FieldInfo {
    let values: Vec<String> = (0..distinct).map(|i| format!("{family}-{i:08}")).collect();
    FieldInfo {
        name: name.into(),
        types: vec!["string".into()],
        seen_in,
        distinct,
        values: TextSet::of(&values),
    }
}

/// The score of a candidate, computed in the machine's own single precision.
fn score(c: &KeyCandidate, name_hint: bool) -> f32 {
    let reach = c.bindings.len();
    let count = reach.max(1) as f32;
    let fill = c
        .bindings
        .iter()
        .map(|b| {
            if b.sampled_docs == 0 {
                0.0
            } else {
                b.seen_in as f32 / b.sampled_docs as f32
            }
        })
        .sum::<f32>()
        / count;
    let distinct = c
        .bindings
        .iter()
        .map(|b| {
            if b.seen_in == 0 {
                0.0
            } else {
                b.distinct as f32 / b.seen_in as f32
            }
        })
        .sum::<f32>()
        / count;
    assert_eq!(to_f32(&c.avg_fill), fill);
    assert_eq!(to_f32(&c.avg_distinct_ratio), distinct);
    let low = c.evidence.iter().find(|e| e.text.contains("looks like a status"));
    assert_eq!(low.is_some(), distinct < 0.15);
    if let Some(e) = low {
        let text = format!(
            "only {:.0}% distinct values — looks like a status, not an id",
            distinct * 100.0
        );
        assert_eq!(e.text, text);
    }
    let sparse = c.evidence.iter().find(|e| e.text.starts_with("set on only"));
    assert_eq!(sparse.is_some(), fill < 0.5);
    if let Some(e) = sparse {
        assert_eq!(e.text, format!("set on only {:.0}% of sampled documents", fill * 100.0));
    }
    let mut score = 0.0f32;
    score += 3.0 * (reach.min(6) as f32 - 1.0);
    if c.shared_values > 0 {
        score += 4.0 + (c.shared_values.min(10) as f32) * 0.3;
    }
    if c.id_shaped {
        score += 1.5;
    }
    if distinct < 0.15 {
        score -= 5.0;
    }
    score += fill * 2.0;
    if name_hint {
        score += 1.0;
    }
    score
}

#[test]
fn scores_are_those_of_single_precision() {
    for n in 1..9usize {
        for seen in [1usize, 3, 7, 11, 19, 20] {
            for distinct in [0usize, 1, 2, 3, 7, 11] {
                let schemas: Vec<ContainerSchema> = (0..n)
                    .map(|i| ContainerSchema {
                        database: "db".into(),
                        container: format!("c{i}"),
                        sampled_docs: [20, 17, 13, 0][i % 4],
                        fields: vec![
                            counted("ref", "ab12cd34ef56", seen, distinct.min(seen)),
                            counted("traceNo", &format!("x{i}"), seen, distinct.min(seen)),
                        ],
                    })
                    .collect();
                let keys = analyze(&schemas).keys;
                assert_eq!(keys.len(), 2);
                for c in &keys {
                    let hint = c.label == "traceNo";
                    assert_eq!(to_f32(&c.score), score(c, hint), "{} {seen} {distinct}", c.label);
                }
                let (first, second) = (&keys[0], &keys[1]);
                assert!(
                    score(first, first.label == "traceNo") >= score(second, second.label == "traceNo")
                );
            }
        }
    }
}

#[test]
fn a_group_is_described_by_its_best_fields() {
    let ids = uuids();
    let schemas = vec![
        container("db", "b", vec![field("Ref", &ids), field("ref", &ids[..3])]),
        container("db", "a", vec![field("longerRef", &ids)]),
        container("db", "c", vec![field("other", &["x"])]),
    ];
    let keys = analyze(&schemas).keys;
    let best = &keys[0];
    assert_eq!(best.id, "db/a\u{1}longerRef");
    assert_eq!(best.label, "Ref");
    let bound: Vec<(&str, &str)> =
        best.bindings.iter().map(|b| (b.container.as_str(), b.field.as_str())).collect();
    assert_eq!(bound, vec![("db/a", "longerRef"), ("db/b", "Ref")]);
    assert_eq!(best.missing, vec!["db/c"]);
    assert!(best.id_shaped);
    let reasons: Vec<(bool, &str)> =
        best.evidence.iter().map(|e| (e.good, e.text.as_str())).collect();
    assert_eq!(
        reasons,
        vec![
            (true, "present in 2 containers"),
            (true, "4 values seen in more than one container"),
            (true, "same values under different names: Ref, longerRef"),
            (true, "values look like identifiers"),
        ]
    );
    let other = keys.iter().find(|c| c.label == "other").unwrap();
    assert_eq!(other.evidence[0].text, "only in one container — nothing to trace across");
    assert!(other.binding_for("db/a").is_none());
}

#[test]
fn a_chain_of_links_makes_one_key() {
    let ids = uuids();
    let schemas = vec![
        container("db", "a", vec![field("one", &ids[..2])]),
        container("db", "b", vec![field("two", &ids)]),
        container("db", "c", vec![field("three", &ids[2..])]),
        container("db", "d", vec![field("THREE", &["unrelated"])]),
    ];
    let keys = analyze(&schemas).keys;
    assert_eq!(keys.len(), 1);
    assert_eq!(keys[0].bindings.len(), 4);
    assert_eq!(keys[0].shared_values, 4);
    assert_eq!(keys[0].label, "two");
}

#[test]
fn the_write_time_is_offered_last() {
    let schemas = vec![container(
        "db",
        "a",
        vec![field("at", &["1767178800", "1767178801", "no", "no too"]), field("zz", &["2026-01-04 x"])],
    )];
    let times = analyze(&schemas).times;
    let ids: Vec<&str> = times.iter().map(|t| t.id.as_str()).collect();
    assert_eq!(ids, vec!["zz", "_ts"]);
    assert_eq!(times[0].note, "timestamp-shaped, in 1 container(s)");
    assert_eq!(to_f32(&times[0].score), 1.0);
    assert_eq!(to_f32(&times[1].score), 0.5);
    assert_eq!(times[1].containers, vec!["db/a"]);
    let empty = analyze(&vec![]).times;
    assert_eq!(empty.len(), 1);
}

#[test]
fn labels_are_small_vocabularies() {
    let many: Vec<String> = (0..26).map(|i| format!("v{i}")).collect();
    let many: Vec<&str> = many.iter().map(String::as_str).collect();
    let eight = ["a", "b", "c", "d", "e", "f", "g", "h"];
    let long = "x".repeat(61);
    let schemas = vec![ContainerSchema {
        database: "db".into(),
        container: "c".into(),
        sampled_docs: 8,
        fields: vec![
            field("repeats", &["a", "a", "b", "b", "c", "c", "d", "d"]),
            field("unique", &eight),
            field("few", &["a", "b", "c"]),
            field("same", &["a", "a", "a", "a"]),
            field("many", &many),
            field("long", &["a", &long, "b", "c"]),
            field("ids", &uuids()),
            field("_etag", &["a", "b", "c", "d"]),
        ],
    }];
    let labels = analyze(&schemas).labels;
    let ids: Vec<&str> = labels.iter().map(|l| l.id.as_str()).collect();
    assert_eq!(ids, vec!["repeats"]);
    assert_eq!(labels[0].note, "4 distinct values, in 1 container(s)");
}

#[test]
fn scalar_fields_gather_spellings() {
    let schemas = vec![
        container("db", "a", vec![field("State", &["x"]), field("_ts", &["1"])]),
        container("db", "b", vec![field("state", &["y"]), field("STATE", &["z"])]),
    ];
    let fields = scalar_fields(&schemas);
    assert_eq!(fields.len(), 1);
    assert_eq!(fields[0].id, "state");
    assert_eq!(fields[0].label, "State");
    assert_eq!(fields[0].containers, vec!["db/a", "db/b", "db/b"]);
    assert_eq!(fields[0].note, "in 3 container(s)");
}

#[test]
fn names_beyond_ascii_are_lowercased_too() {
    let schemas = vec![
        container("db", "a", vec![field("ÉTAT", &["x"])]),
        container("db", "b", vec![field("état", &["y"])]),
    ];
    assert_eq!(field_values(&schemas, "état"), vec!["x", "y"]);
    assert_eq!(analyze(&schemas).keys.len(), 1);
}

#[test]
fn scores_hold_for_extreme_counts() {
    let counts = [
        (usize::MAX, 1usize, 1usize),
        (1, usize::MAX, 1),
        (16_777_217, 3, usize::MAX),
        (3, 16_777_217, 0),
        (1, 1, 1),
    ];
    for a in counts {
        for b in counts {
            let schemas: Vec<ContainerSchema> = [a, b, a]
                .iter()
                .enumerate()
                .map(|(i, (seen_in, sampled_docs, distinct))| ContainerSchema {
                    database: "db".into(),
                    container: format!("c{i}"),
                    sampled_docs: *sampled_docs,
                    fields: vec![FieldInfo {
                        name: "f".into(),
                        types: vec!["number".into()],
                        seen_in: *seen_in,
                        distinct: *distinct,
                        values: TextSet::new(),
                    }],
                })
                .collect();
            let keys = analyze(&schemas).keys;
            assert_eq!(keys.len(), 1);
            assert_eq!(to_f32(&keys[0].score), score(&keys[0], false));
        }
    }
}

#[test]
fn fields_of_the_store_are_no_times_of_the_documents_own() {
    let mut written = field("_ts", &["1767178800"]);
    written.types = vec!["number".into()];
    let own = field("occurredAt", &["2026-01-04T10:00:00Z"]);
    let times = analyze(&vec![container("db", "a", vec![own, written])]).times;
    let ids: Vec<&str> = times.iter().map(|t| t.id.as_str()).collect();
    assert_eq!(ids, vec!["occurredat", "_ts"]);
    assert_eq!(times[0].label, "occurredAt");
    assert_eq!(to_f32(&times[1].score), 0.5);
    let only = analyze(&vec![container("db", "a", vec![field("_ts", &["1767178800"])])]).times;
    assert_eq!(only.len(), 1);
}

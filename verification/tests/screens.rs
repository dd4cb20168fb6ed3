use ais_tracing::screens::home::{
    all_open, bound_field, chosen_key, commit, follow, fragment_of, ids_of_keys, key_option, label_of,
    matching_fields, needle_of, open_document, reconcile, reconcile_lane, remove_rule, replay,
    role_option, shorten, show_suggestions, still_wanted, submitted, toggle_all, toggle_card, toggle_container, Commit, LoadState,
    Replay, ScanState,
};
use ais_tracing::screens::trace_view::{
    axis_ticks, card_class, error_count, heading, lane_class, lane_gap, off_path, place, trace_body,
    Layout, TraceBody, BASE_TRACK, CARD_GAP, CARD_W, PAD, TICKS,
};
use ais_tracing::screens::welcome::{
    account_list, after_login_check, after_scan, pick_account, subscription_count, AccountList,
    LoginWait, LOGIN_CHECKS, LOGIN_WAIT_SECS,
};
use ais_tracing::services::az::{AccountScan, AzLoginState, CosmosAccount, SubscriptionError};
use ais_tracing::services::cache::CachedScan;
use ais_tracing::services::cosmos::{fail, AccountSchemas, ContainerError, ContainerSchema};
use ais_tracing::services::discover::{Binding, Insights, KeyCandidate, RoleCandidate};
use ais_tracing::services::history::Entry;
use ais_tracing::services::trace::{Block, ErrorRule, Lane, LaneState, Trace};
use ais_tracing::single::Single;
use ais_tracing::text_set::TextSet;
use ais_tracing::value::Value;

#[test]
fn short_values_are_left_alone() {
    assert_eq!(shorten("order-42"), "order-42");
    assert_eq!(shorten(&"x".repeat(20)), "x".repeat(20));
}

#[test]
fn long_ids_keep_both_ends() {
    let uuid = "9f1c2d3e-4a5b-6c7d-8e9f-0a1b2c3d4e5f";
    assert_eq!(shorten(uuid), "9f1c2d3e-4…3d4e5f");
}

#[test]
fn multibyte_values_do_not_panic() {
    let value = "→".repeat(40);
    assert_eq!(shorten(&value).chars().count(), 17);
}

fn block(at: Option<i64>) -> Block {
    Block {
        id: format!("b{}", at.unwrap_or(-1)),
        label: "step".into(),
        at,
        at_text: String::new(),
        facts: vec![],
        container: "db/c".into(),
        doc: Value::Null,
    }
}

fn lane(name: &str, state: LaneState, blocks: Vec<Block>) -> Lane {
    Lane {
        name: name.into(),
        detail: Some("correlationId".into()),
        blocks,
        state,
        error: None,
        truncated: false,
    }
}

fn trace_of(lanes: Vec<Lane>) -> Trace {
    let times: Vec<i64> =
        lanes.iter().flat_map(|l| l.blocks.iter().filter_map(|b| b.at)).collect();
    Trace {
        value: "abc".into(),
        key_label: "correlationId".into(),
        blocks_found: lanes.iter().map(|l| l.blocks.len()).sum(),
        span: times.iter().min().copied().zip(times.iter().max().copied()),
        lanes,
    }
}

/// The left edges of a lane's cards, in pixels.
fn xs(layout: &Layout, lane: usize) -> Vec<f64> {
    layout.lanes[lane].cards.iter().map(|c| c.x as f64 / layout.scale as f64).collect()
}

#[test]
fn blocks_sit_on_a_shared_time_scale() {
    let t = trace_of(vec![
        lane("db/a", LaneState::Reached, vec![block(Some(0))]),
        lane("db/b", LaneState::Reached, vec![block(Some(10_000))]),
    ]);
    let layout = place(&t);
    assert_eq!(xs(&layout, 0)[0], PAD as f64);
    assert_eq!(xs(&layout, 1)[0], (BASE_TRACK - CARD_W - PAD) as f64);
}

#[test]
fn overlapping_cards_are_pushed_apart_without_reordering() {
    let t = trace_of(vec![
        lane(
            "db/a",
            LaneState::Reached,
            vec![block(Some(0)), block(Some(1)), block(Some(2))],
        ),
        lane("db/b", LaneState::Reached, vec![block(Some(600_000))]),
    ]);
    let layout = place(&t);
    let xs = xs(&layout, 0);
    for pair in xs.windows(2) {
        assert!(pair[1] - pair[0] >= CARD_W as f64, "cards must not overlap: {pair:?}");
    }
    assert!(xs[0] < xs[1] && xs[1] < xs[2], "order must be preserved");
    assert!(layout.width >= BASE_TRACK * layout.scale);
}

#[test]
fn the_track_widens_when_cards_run_past_the_base_width() {
    let blocks: Vec<Block> = (0..12).map(|_| block(Some(0))).collect();
    let t = trace_of(vec![lane("db/a", LaneState::Reached, blocks)]);
    let layout = place(&t);
    assert!(
        layout.width > BASE_TRACK * layout.scale,
        "twelve stacked cards need more than the base width, got {}",
        layout.width
    );
    assert_eq!(layout.width, PAD + 11 * (CARD_W + CARD_GAP) + CARD_W + PAD);
}

#[test]
fn untimed_blocks_fall_back_to_sequence_order() {
    let t = trace_of(vec![lane("db/a", LaneState::Reached, vec![block(None), block(None)])]);
    let layout = place(&t);
    assert_eq!(xs(&layout, 0)[0], PAD as f64);
    assert_eq!(xs(&layout, 0)[1], (PAD + CARD_W + CARD_GAP) as f64);
}

#[test]
fn awaiting_lanes_are_laid_out_but_off_path_lanes_are_not() {
    let t = trace_of(vec![
        lane("db/a", LaneState::Reached, vec![block(Some(0))]),
        lane("db/b", LaneState::Awaiting, vec![]),
        lane("db/c", LaneState::OffPath, vec![]),
    ]);
    let layout = place(&t);
    let names: Vec<&str> = layout.lanes.iter().map(|p| p.lane.name.as_str()).collect();
    assert_eq!(names, vec!["db/a", "db/b"]);
    assert_eq!(off_path(&t), vec!["db/c"]);
}

#[test]
fn a_single_instant_does_not_divide_by_zero() {
    let t = trace_of(vec![lane("db/a", LaneState::Reached, vec![block(Some(7))])]);
    let layout = place(&t);
    assert_eq!(xs(&layout, 0)[0], PAD as f64);
    assert_eq!(axis_ticks(t.span, layout.width).len(), 1);
}

#[test]
fn axis_ticks_span_the_track() {
    let t = trace_of(vec![
        lane("db/a", LaneState::Reached, vec![block(Some(0))]),
        lane("db/b", LaneState::Reached, vec![block(Some(60_000))]),
    ]);
    let layout = place(&t);
    let ticks = axis_ticks(t.span, layout.width);
    assert_eq!(ticks.len(), TICKS);
    assert_eq!(ticks[0].x, 4 * PAD * layout.scale);
    assert_eq!(ticks[TICKS - 1].text, "+1.0min");
    assert_eq!(ticks[TICKS - 1].x, 4 * (BASE_TRACK - CARD_W - PAD) * layout.scale);
    assert_eq!(ticks[0].text, "01-01 00:00:00.000");
    assert_eq!(ticks[1].text, "+15.0s");
    assert!(axis_ticks(None, 900).is_empty());
}

#[test]
fn places_agree_with_double_precision() {
    let times = [0i64, 1, 77, 500, 501, 9_999, 123_456, 600_000];
    let t = trace_of(vec![lane(
        "db/a",
        LaneState::Reached,
        times.iter().map(|t| block(Some(*t))).collect(),
    )]);
    let layout = place(&t);
    let mut cursor = f64::NEG_INFINITY;
    for (x, at) in xs(&layout, 0).iter().zip(times) {
        let mut want = 20.0 + (at as f64 / 600_000f64) * 702.0;
        if want < cursor {
            want = cursor;
        }
        cursor = want + 168.0;
        assert!((x - want).abs() < 1e-9, "{x} {want}");
    }
    let ticks = axis_ticks(t.span, layout.width);
    for (i, tick) in ticks.iter().enumerate() {
        let x = tick.x as f64 / (4 * layout.scale) as f64;
        let width = layout.width as f64 / layout.scale as f64;
        let want = 20.0 + (i as f64 / 4.0) * (width - 198.0);
        assert!((x - want).abs() < 1e-9, "{x} {want}");
    }
}

fn rule(field: &str, value: &str) -> ErrorRule {
    ErrorRule { field: field.into(), display: field.into(), value: value.into() }
}

#[test]
fn lanes_say_how_they_fared() {
    assert_eq!(lane_class(LaneState::Reached), "lane reached");
    assert_eq!(lane_class(LaneState::Awaiting), "lane awaiting");
    assert_eq!(lane_class(LaneState::Failed(3)), "lane failed");
    assert_eq!(lane_class(LaneState::OffPath), "lane off-path");
    let l = lane("db/a", LaneState::Reached, vec![block(Some(2_500)), block(None)]);
    assert_eq!(lane_gap(Some(0), &l), Some("+2.5s".to_string()));
    assert_eq!(lane_gap(Some(2_500), &l), None);
    assert_eq!(lane_gap(None, &l), None);
    assert_eq!(card_class(false, false), "block");
    assert_eq!(card_class(true, true), "block errored selected");
    assert_eq!(card_class(false, true), "block selected");

    let mut bad = block(Some(1));
    bad.doc = Value::Object(vec![("s".to_string(), Value::Text("x".to_string()))]);
    let t = trace_of(vec![
        lane("db/a", LaneState::Reached, vec![bad.clone(), block(Some(2))]),
        lane("db/b", LaneState::Reached, vec![bad]),
    ]);
    assert_eq!(error_count(&t, &vec![rule("s", "X")]), 2);
    assert_eq!(error_count(&t, &vec![]), 0);
}

fn strings(list: &[&str]) -> Vec<String> {
    list.iter().map(|s| s.to_string()).collect()
}

#[test]
fn selections_follow_the_options() {
    let options = strings(&["best", "next"]);
    assert_eq!(reconcile("", &options), "best");
    assert_eq!(reconcile("next", &options), "next");
    assert_eq!(reconcile("gone", &options), "");
    assert_eq!(reconcile("", &vec![]), "");
    assert_eq!(reconcile_lane("", &options), "");
    assert_eq!(reconcile_lane("next", &options), "next");
    assert_eq!(reconcile_lane("gone", &options), "");
}

fn role(id: &str, label: &str) -> RoleCandidate {
    RoleCandidate {
        id: id.into(),
        label: label.into(),
        containers: vec![],
        note: "in 1 container(s)".into(),
        score: Single::of(1),
    }
}

fn key(id: &str, label: &str) -> KeyCandidate {
    KeyCandidate {
        id: id.into(),
        label: label.into(),
        bindings: vec![Binding {
            container: "db/a".into(),
            field: "f".into(),
            seen_in: 1,
            sampled_docs: 1,
            distinct: 1,
        }],
        missing: vec![],
        shared_values: 1,
        cross_named: false,
        id_shaped: false,
        avg_fill: Single::of(1),
        avg_distinct_ratio: Single::of(1),
        score: Single::of(1),
        evidence: vec![],
    }
}

fn insights() -> Insights {
    Insights {
        containers: strings(&["db/a"]),
        keys: vec![key("k1", "one"), key("k2", "two")],
        times: vec![],
        labels: (0..8).map(|i| role(&format!("l{i}"), "L")).collect(),
    }
}

#[test]
fn following_a_value_takes_the_chosen_fields() {
    let all = insights();
    let (spec, entry) = follow(&all, "k2", "at", "step", "v").expect("a key is chosen");
    assert_eq!(spec.key.label, "two");
    assert_eq!((spec.value.as_str(), spec.time_field.as_str()), ("v", "at"));
    assert_eq!(spec.label_field, "step");
    assert_eq!(spec.fact_fields, vec!["l0", "l1", "l2", "l3", "l4", "l5"]);
    assert_eq!(entry, Entry { value: "v".into(), key: "two".into() });
    assert!(follow(&all, "gone", "at", "step", "v").is_none());
    assert_eq!(ids_of_keys(&all.keys), vec!["k1", "k2"]);
    assert!(chosen_key(&all.keys, "").is_none());
    assert_eq!(key_option(&all.keys[0], 3), "one  —  1/3 containers, values match");
    let mut alone = key("k", "k");
    alone.shared_values = 0;
    assert_eq!(key_option(&alone, 1), "k  —  1/1 containers");
    assert_eq!(role_option(&role("id", "Label")), "Label  —  in 1 container(s)");
    assert_eq!(bound_field(Some(&alone), "db/a"), Some("f".to_string()));
    assert_eq!(bound_field(Some(&alone), "db/b"), None);
    assert_eq!(bound_field(None, "db/a"), None);
    assert_eq!(submitted("  v \n"), Some("v".to_string()));
    assert_eq!(submitted("  "), None);
}

#[test]
fn the_last_value_is_replayed_once() {
    let recent = vec![Entry { value: "v".into(), key: "k".into() }];
    assert_eq!(replay(true, "k", false, &recent), Replay::Follow("v".into()));
    assert_eq!(replay(true, "k", true, &recent), Replay::Wait);
    assert_eq!(replay(false, "k", false, &recent), Replay::Wait);
    assert_eq!(replay(true, "", false, &recent), Replay::Wait);
    assert_eq!(replay(true, "k", false, &vec![]), Replay::Nothing);
}

#[test]
fn clicking_the_open_card_closes_it() {
    assert_eq!(toggle_card(None, "a"), Some("a".to_string()));
    assert_eq!(toggle_card(Some("a"), "a"), None);
    assert_eq!(toggle_card(Some("a"), "b"), Some("b".to_string()));
    let t = trace_of(vec![lane("db/a", LaneState::Reached, vec![block(Some(7))])]);
    assert_eq!(open_document(&t, "b7", false).map(|b| b.at), Some(Some(7)));
    assert!(open_document(&t, "b7", true).is_none());
    assert!(open_document(&t, "b8", false).is_none());
}

#[test]
fn rules_are_added_once_and_removed() {
    let rules = vec![rule("status", "3")];
    assert_eq!(commit(&rules, "", "3", "x"), Commit::Ignored);
    assert_eq!(commit(&rules, "status", "  ", "x"), Commit::Ignored);
    assert_eq!(
        commit(&rules, "status", " 3 ", "status"),
        Commit::Duplicate("status = 3 is already a rule.".into())
    );
    let added = match commit(&rules, "state", " bad ", "state") {
        Commit::Added(next) => next,
        other => panic!("{other:?}"),
    };
    assert_eq!(added, vec![rule("status", "3"), rule("state", "bad")]);
    assert_eq!(remove_rule(&added, &rule("state", "bad")), rules);
    assert_eq!(remove_rule(&rules, &rule("state", "bad")), rules);
}

#[test]
fn filtering_fields_never_drops_the_chosen_one() {
    let fields = vec![role("sessionstatus", "sessionStatus"), role("state", "State"), role("x", "X")];
    assert_eq!(needle_of(" STAT "), "stat");
    let shown = |needle: &str, chosen: &str| -> Vec<String> {
        matching_fields(&fields, needle, chosen).into_iter().map(|f| f.id).collect()
    };
    assert_eq!(shown("stat", ""), vec!["sessionstatus", "state"]);
    assert_eq!(shown("stat", "x"), vec!["sessionstatus", "state", "x"]);
    assert_eq!(shown("", ""), vec!["sessionstatus", "state", "x"]);
    assert_eq!(label_of(&fields, "state"), "State");
    assert_eq!(label_of(&fields, "gone"), "");
}

#[test]
fn containers_open_and_close() {
    let paths = strings(&["db/a", "db/b"]);
    let mut open = TextSet::new();
    assert!(!all_open(&open, &paths));
    toggle_container(&mut open, "db/b");
    assert_eq!(open.items(), &strings(&["db/b"]));
    toggle_container(&mut open, "db/a");
    assert!(all_open(&open, &paths));
    assert!(!all_open(&open, &vec![]));
    assert_eq!(toggle_all(&open, &paths).len(), 0);
    toggle_container(&mut open, "db/b");
    assert_eq!(open.items(), &strings(&["db/a"]));
    assert_eq!(toggle_all(&open, &paths), TextSet::of(&paths));
}

fn schema() -> ContainerSchema {
    ContainerSchema {
        database: "db".into(),
        container: "c".into(),
        sampled_docs: 0,
        fields: vec![],
    }
}

#[test]
fn a_failed_refresh_keeps_what_is_on_screen() {
    let mut s = ScanState::new();
    assert!(s.open_on(Some(CachedScan { scanned_at: 5, schemas: vec![schema()] })));
    assert_eq!(s.load, LoadState::Done);
    s.begin(true);
    assert!(s.refreshing && s.schemas.len() == 1);
    s.fail(fail("q", 403, "no"), true);
    assert_eq!(s.load, LoadState::Done);
    assert_eq!(s.refresh_error.as_deref(), Some("q: no"));
    assert_eq!((s.refreshing, s.scanned_at, s.schemas.len()), (false, Some(5), 1));
    assert!(!s.forbidden());
    s.begin(true);
    assert_eq!(s.refresh_error, None);
    let error = ContainerError::new("db/x".into(), fail("q", 403, "no"));
    s.succeed(AccountSchemas { schemas: vec![], errors: vec![error] }, 9);
    assert_eq!((s.scanned_at, s.schemas.len(), s.refreshing), (Some(9), 0, false));
    assert!(s.forbidden());
    s.grant_failed("denied");
    assert_eq!(s.refresh_error.as_deref(), Some("Grant failed: denied"));
}

#[test]
fn a_failed_first_scan_says_so() {
    let mut s = ScanState::new();
    assert!(!s.open_on(None));
    s.begin(false);
    assert_eq!(s.load, LoadState::Loading);
    s.fail(fail("q", 403, "no"), false);
    assert_eq!(s.load, LoadState::Failed(fail("q", 403, "no")));
    assert_eq!(s.refresh_error, None);
    assert!(s.forbidden());
    s.begin(false);
    s.fail(fail("q", 500, "403"), false);
    assert!(!s.forbidden());
}

fn account(name: &str, subscription: &str) -> CosmosAccount {
    CosmosAccount {
        name: name.into(),
        resource_group: "rg".into(),
        endpoint: format!("e-{name}-{subscription}"),
        subscription_id: subscription.into(),
    }
}

#[test]
fn nothing_found_and_nothing_read_are_different_claims() {
    let error = || SubscriptionError {
        name: "n".into(),
        id: "s".into(),
        message: "m".into(),
        expired: false,
    };
    let empty = AccountScan::default();
    let blind = AccountScan { accounts: vec![], errors: vec![error()] };
    let some = AccountScan { accounts: vec![account("a", "s1")], errors: vec![error()] };
    assert_eq!(account_list(true, false, &some), AccountList::Loading);
    assert_eq!(account_list(false, true, &some), AccountList::Failed);
    assert_eq!(account_list(false, false, &empty), AccountList::NoneFound);
    assert_eq!(account_list(false, false, &blind), AccountList::NoneRead);
    assert_eq!(account_list(false, false, &some), AccountList::Accounts);
    let list = vec![account("a", "s1"), account("b", "s1"), account("a", "s2")];
    assert_eq!(subscription_count(&list, &vec![error()]), 3);
    assert_eq!(pick_account(&list, "e-a-s1"), Some(account("a", "s1")));
    assert_eq!(pick_account(&list, "e-a-s2"), Some(account("a", "s2")));
    assert_eq!(pick_account(&list, "a"), None);
    let (scan, error) = after_scan(Err("no".into()));
    assert_eq!((scan, error.as_deref()), (AccountScan::default(), Some("no")));
    assert_eq!(after_scan(Ok(AccountScan::default())).1, None);
}

#[test]
fn untimed_cards_stand_behind_those_with_times() {
    let named = |id: &str, at: Option<i64>| {
        let mut b = block(at);
        b.id = id.into();
        b
    };
    let t = trace_of(vec![
        lane("db/a", LaneState::Reached, vec![named("late", Some(10_000)), named("none", None)]),
        lane("db/b", LaneState::Reached, vec![named("early", Some(0))]),
        lane(
            "db/c",
            LaneState::Reached,
            vec![
                named("n1", None),
                named("t2", Some(5_000)),
                named("n2", None),
                named("t1", Some(100)),
            ],
        ),
    ]);
    let layout = place(&t);
    let times: Vec<Option<i64>> = layout.lanes[0].cards.iter().map(|c| c.block.at).collect();
    assert_eq!(times, vec![Some(10_000), None]);
    let last = (BASE_TRACK - CARD_W - PAD) as f64;
    assert_eq!(xs(&layout, 0), vec![last, last + (CARD_W + CARD_GAP) as f64]);
    let ids: Vec<&str> = layout.lanes[2].cards.iter().map(|c| c.block.id.as_str()).collect();
    assert_eq!(ids, vec!["t1", "t2", "n1", "n2"]);
    let middle = PAD as f64 + 351.0;
    let step = (CARD_W + CARD_GAP) as f64;
    assert_eq!(xs(&layout, 2)[1..], [middle, middle + step, middle + 2.0 * step]);
}

#[test]
fn signing_in_is_waited_for_two_minutes() {
    let signed_in = AzLoginState::LoggedIn { account: "a".into(), subscription_id: "s".into() };
    let expired = AzLoginState::Expired { account: "a".into(), message: "m".into() };
    assert_eq!(after_login_check(1, &signed_in), LoginWait::Stop);
    assert_eq!(after_login_check(24, &signed_in), LoginWait::Stop);
    for state in [AzLoginState::NotLoggedIn, AzLoginState::AzNotFound, expired] {
        assert_eq!(after_login_check(1, &state), LoginWait::Again);
        assert_eq!(after_login_check(23, &state), LoginWait::Again);
        assert_eq!(after_login_check(24, &state), LoginWait::GiveUp);
    }
    assert_eq!(u64::from(LOGIN_CHECKS) * LOGIN_WAIT_SECS, 120);
}

#[test]
fn suggestions_are_shown_while_a_fragment_is_typed() {
    assert_eq!(fragment_of("  ab ", 3), None);
    assert_eq!(fragment_of(" abc ", 3).as_deref(), Some("abc"));
    assert_eq!(fragment_of("é", 2).as_deref(), Some("é"));
    assert!(still_wanted("abc", "abc"));
    assert!(!still_wanted("abc", "abcd"));
    let list = strings(&["order-1", "order-2"]);
    assert!(show_suggestions(&list, "order", false));
    assert!(!show_suggestions(&list, " order-2 ", true));
    assert!(show_suggestions(&vec![], "order", true));
    assert!(!show_suggestions(&vec![], "order", false));
}

#[test]
fn several_matches_are_asked_about() {
    let one = vec![("order-1".to_string(), 2)];
    let two = vec![("order-1".to_string(), 2), ("order-2".to_string(), 1)];
    assert_eq!(heading("orderId", "order", true, &one), "orderId = order-1");
    assert_eq!(heading("orderId", "order", false, &one), "orderId = order");
    assert_eq!(heading("orderId", "order", true, &two), "orderId = order");
    assert_eq!(heading("orderId", "order", true, &vec![]), "orderId = order");
    assert_eq!(trace_body(0, &two), TraceBody::Nothing);
    assert_eq!(trace_body(3, &two), TraceBody::Choice);
    assert_eq!(trace_body(3, &one), TraceBody::Timeline);
    assert_eq!(trace_body(3, &vec![]), TraceBody::Timeline);
}

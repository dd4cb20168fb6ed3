use ais_tracing::services::az::CosmosAccount;
use ais_tracing::services::history::{
    clear, forget_account, insert, insert_account, load, load_accounts, load_rules, record,
    record_account, save_rules, Entry, Store, MAX_ACCOUNTS, MAX_ENTRIES,
};
use ais_tracing::services::trace::ErrorRule;

fn entry(value: &str) -> Entry {
    Entry { value: value.into(), key: "correlationId".into() }
}

fn values(list: &[Entry]) -> Vec<&str> {
    list.iter().map(|e| e.value.as_str()).collect()
}

fn account(name: &str, endpoint: &str) -> CosmosAccount {
    CosmosAccount {
        name: name.into(),
        resource_group: "rg".into(),
        endpoint: endpoint.into(),
        subscription_id: "sub".into(),
    }
}

fn rule(field: &str, value: &str) -> ErrorRule {
    ErrorRule { field: field.into(), display: field.into(), value: value.into() }
}

#[test]
fn most_recent_comes_first() {
    let mut list = Vec::new();
    insert(&mut list, entry("a"));
    insert(&mut list, entry("b"));
    assert_eq!(values(&list), vec!["b", "a"]);
}

#[test]
fn retracing_a_value_moves_it_up_instead_of_duplicating() {
    let mut list = Vec::new();
    for v in ["a", "b", "c"] {
        insert(&mut list, entry(v));
    }
    insert(&mut list, entry("a"));
    assert_eq!(values(&list), vec!["a", "c", "b"]);
}

#[test]
fn a_repeated_value_keeps_only_its_latest_key() {
    let mut list = vec![entry("a")];
    insert(&mut list, Entry { value: "a".into(), key: "traceId".into() });
    assert_eq!(list.len(), 1);
    assert_eq!(list[0].key, "traceId");
}

#[test]
fn the_oldest_entry_falls_off_the_end() {
    let mut list = Vec::new();
    for v in ["a", "b", "c", "d", "e", "f"] {
        insert(&mut list, entry(v));
    }
    assert_eq!(list.len(), MAX_ENTRIES);
    assert_eq!(values(&list), vec!["f", "e", "d", "c", "b"]);
}

#[test]
fn reopening_an_account_moves_it_to_the_front() {
    let mut list = Vec::new();
    for (n, e) in [("a", "ea"), ("b", "eb"), ("c", "ec")] {
        insert_account(&mut list, account(n, e));
    }
    insert_account(&mut list, account("a", "ea"));
    let names: Vec<&str> = list.iter().map(|a| a.name.as_str()).collect();
    assert_eq!(names, vec!["a", "c", "b"]);
}

#[test]
fn accounts_are_deduped_by_endpoint_not_name() {
    let mut list = Vec::new();
    insert_account(&mut list, account("shared", "endpoint-one"));
    insert_account(&mut list, account("shared", "endpoint-two"));
    assert_eq!(list.len(), 2);
}

#[test]
fn the_account_list_is_capped() {
    let mut list = Vec::new();
    for i in 0..8 {
        insert_account(&mut list, account(&format!("a{i}"), &format!("e{i}")));
    }
    assert_eq!(list.len(), MAX_ACCOUNTS);
    assert_eq!(list[0].name, "a7");
}

#[test]
fn values_are_remembered_per_account() {
    let store = Store::default();
    assert!(load(&store, "e1").is_empty());
    let (store, list) = record(store, "e1", entry("a"));
    assert_eq!(values(&list), vec!["a"]);
    let (store, _) = record(store, "e1", entry("b"));
    let (store, _) = record(store, "e0", entry("c"));
    assert_eq!(values(&load(&store, "e1")), vec!["b", "a"]);
    assert_eq!(values(&load(&store, "e0")), vec!["c"]);
    let keys: Vec<&str> = store.accounts.entries().iter().map(|(k, _)| k.as_str()).collect();
    assert_eq!(keys, vec!["e0", "e1"]);

    let (store, left) = clear(store, "e1");
    assert!(left.is_empty());
    assert!(load(&store, "e1").is_empty());
    assert_eq!(values(&load(&store, "e0")), vec!["c"]);
}

#[test]
fn opened_accounts_are_remembered_and_forgotten() {
    let (store, _) = record_account(Store::default(), &account("a", "ea"));
    let (store, list) = record_account(store, &account("b", "eb"));
    assert_eq!(list.len(), 2);
    assert_eq!(load_accounts(&store)[0].name, "b");
    let (store, list) = forget_account(store, "eb");
    assert_eq!(list, vec![account("a", "ea")]);
    assert_eq!(load_accounts(&store), list);
}

#[test]
fn rules_outlive_everything_else() {
    let store = save_rules(Store::default(), "e", &vec![rule("status", "3"), rule("state", "bad")]);
    let (store, _) = record(store, "e", entry("a"));
    let (store, _) = clear(store, "e");
    assert_eq!(load_rules(&store, "e"), vec![rule("status", "3"), rule("state", "bad")]);
    assert!(load_rules(&store, "other").is_empty());
    let store = save_rules(store, "e", &vec![]);
    assert!(load_rules(&store, "e").is_empty());
    assert!(store.error_rules.entries().is_empty());
}

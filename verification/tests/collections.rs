use ais_tracing::order::{add_text, distinct_of};
use ais_tracing::services::grouping::Dsu;
use ais_tracing::text_map::TextMap;
use ais_tracing::text_set::TextSet;

fn strings(list: &[&str]) -> Vec<String> {
    list.iter().map(|s| s.to_string()).collect()
}

#[test]
fn a_set_holds_each_text_once_in_order() {
    let mut set = TextSet::new();
    assert!(set.insert("b"));
    assert!(set.insert("a"));
    assert!(!set.insert("b"));
    assert_eq!(set.items(), &strings(&["a", "b"]));
    assert_eq!(set.len(), 2);
    assert!(set.contains("a") && !set.contains("c"));
    let other = TextSet::of(&strings(&["c", "b", "c"]));
    assert_eq!(set.shared_with(&other), 1);
    set.take_in(&other);
    assert_eq!(set.items(), &strings(&["a", "b", "c"]));
    assert!(set.remove("b"));
    assert!(!set.remove("b"));
    assert_eq!(set.clone(), TextSet::of(&strings(&["c", "a"])));
}

#[test]
fn a_map_holds_one_value_for_each_key() {
    let map: TextMap<Vec<String>> = TextMap::new();
    let map = map.with("b", strings(&["1"])).with("a", strings(&["2"])).with("b", strings(&["3"]));
    assert_eq!(map.get("b"), Some(&strings(&["3"])));
    assert_eq!(map.get("c"), None);
    let keys: Vec<&str> = map.entries().iter().map(|(k, _)| k.as_str()).collect();
    assert_eq!(keys, vec!["a", "b"]);
    let map = map.without("a").without("z");
    assert_eq!(map.get("a"), None);
    assert_eq!(map.entries().len(), 1);
}

#[test]
fn texts_are_ordered_as_strings_are() {
    let words = ["z", "", "é", "Z", "za", "\u{10000}", "\u{ffff}", "a\u{0}"];
    let mut sorted = strings(&words);
    sorted.sort();
    assert_eq!(distinct_of(&strings(&words)), sorted);
    let mut list = strings(&["a", "c"]);
    add_text(&mut list, "b");
    add_text(&mut list, "c");
    assert_eq!(list, strings(&["a", "b", "c"]));
}

#[test]
fn representatives_stand_for_themselves() {
    let mut dsu = Dsu::new(6);
    dsu.union(0, 1);
    dsu.union(2, 3);
    dsu.union(1, 3);
    dsu.union(3, 0);
    let groups: Vec<usize> = (0..6).map(|x| dsu.find(x)).collect();
    assert_eq!(groups, vec![0, 0, 0, 0, 4, 5]);
    for x in 0..6 {
        let r = dsu.find(x);
        assert_eq!(dsu.find(r), r);
    }
}

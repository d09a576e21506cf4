use steam_path::ledger::{Ledger, NodeKey};

fn key(identity: &str, address: &str) -> NodeKey {
    NodeKey::new(identity.to_string(), address.to_string())
}

fn addresses(path: &[NodeKey]) -> Vec<String> {
    path.iter().map(|k| k.address.clone()).collect()
}

#[test]
fn new_ledger_holds_only_the_root() {
    let l = Ledger::new(key("START", "src"));
    assert_eq!(l.len(), 1);
    assert!(l.contains(&key("START", "src")));
    assert!(!l.contains(&key("START", "other")));
    assert!(!l.contains(&key("someone", "src")));
    let p = l.path_to(&key("START", "src")).unwrap();
    assert_eq!(addresses(&p), vec!["src"]);
}

#[test]
fn path_follows_recorded_links() {
    let mut l = Ledger::new(key("START", "src"));
    l.record(key("B", "b"), &key("START", "src"));
    l.record(key("C", "c"), &key("START", "src"));
    l.record(key("D", "d"), &key("B", "b"));
    l.record(key("E", "e"), &key("D", "d"));
    let p = l.path_to(&key("E", "e")).unwrap();
    assert_eq!(addresses(&p), vec!["src", "b", "d", "e"]);
    assert_eq!(p[1].identity, "B");
    assert_eq!(l.len(), 5);
}

#[test]
fn first_discovery_wins() {
    let mut l = Ledger::new(key("START", "src"));
    l.record(key("B", "b"), &key("START", "src"));
    l.record(key("C", "c"), &key("START", "src"));
    l.record(key("D", "d"), &key("B", "b"));
    l.record(key("D", "d"), &key("C", "c"));
    let p = l.path_to(&key("D", "d")).unwrap();
    assert_eq!(addresses(&p), vec!["src", "b", "d"]);
    assert_eq!(l.len(), 4);
}

#[test]
fn link_from_unknown_node_is_ignored() {
    let mut l = Ledger::new(key("START", "src"));
    l.record(key("X", "x"), &key("Nobody", "nowhere"));
    assert!(!l.contains(&key("X", "x")));
    assert!(l.path_to(&key("X", "x")).is_none());
    assert_eq!(l.len(), 1);
}

#[test]
fn same_name_different_address_are_different_nodes() {
    let mut l = Ledger::new(key("START", "src"));
    l.record(key("Sam", "one"), &key("START", "src"));
    l.record(key("Sam", "two"), &key("Sam", "one"));
    assert_eq!(l.len(), 3);
    let p = l.path_to(&key("Sam", "two")).unwrap();
    assert_eq!(addresses(&p), vec!["src", "one", "two"]);
}

#[test]
fn merge_records_links_in_order() {
    let mut l = Ledger::new(key("START", "src"));
    let links = vec![
        (key("B", "b"), key("START", "src")),
        (key("C", "c"), key("B", "b")),
        (key("C", "c"), key("START", "src")),
        (key("Z", "z"), key("Q", "q")),
    ];
    l.merge(&links);
    assert_eq!(l.len(), 3);
    assert!(!l.contains(&key("Z", "z")));
    let p = l.path_to(&key("C", "c")).unwrap();
    assert_eq!(addresses(&p), vec!["src", "b", "c"]);
}

#[test]
fn every_step_of_a_path_is_a_recorded_link() {
    let name = |i: usize| if i == 0 { "START".to_string() } else { format!("N{}", i) };
    let mut l = Ledger::new(key(&name(0), "n0"));
    for i in 1..30 {
        let parent = (i - 1) / 2;
        l.record(key(&name(i), &format!("n{}", i)), &key(&name(parent), &format!("n{}", parent)));
    }
    assert_eq!(l.len(), 30);
    let p = l.path_to(&key("N29", "n29")).unwrap();
    assert_eq!(addresses(&p), vec!["n0", "n2", "n6", "n14", "n29"]);
    let mut seen = std::collections::HashSet::new();
    for k in &p {
        assert!(seen.insert(k.address.clone()));
    }
    for w in p.windows(2) {
        let sub = l.path_to(&w[1]).unwrap();
        assert_eq!(sub[sub.len() - 2].address, w[0].address);
        assert_eq!(sub[sub.len() - 2].identity, w[0].identity);
    }
}

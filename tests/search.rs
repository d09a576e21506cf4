use std::collections::HashMap;

use steam_path::heap::Candidate;
use steam_path::ledger::Ledger;
use steam_path::searcher::{Profile, Searcher, Step, FRONTIER_LIMIT};

/// A small graph: each address lists its friends as (identity, address), and each
/// address has a profile outcome.
struct Graph {
    friends: HashMap<String, Vec<(String, String)>>,
    profiles: HashMap<String, Profile>,
}

impl Graph {
    fn new() -> Graph {
        Graph { friends: HashMap::new(), profiles: HashMap::new() }
    }

    fn node(&mut self, address: &str, profile: Profile, friends: &[(&str, &str)]) {
        self.friends.insert(
            address.to_string(),
            friends.iter().map(|(n, a)| (n.to_string(), a.to_string())).collect(),
        );
        self.profiles.insert(address.to_string(), profile);
    }

    fn profile(&self, address: &str) -> Profile {
        match self.profiles.get(address) {
            Some(Profile::Scored(s)) => Profile::Scored(*s),
            Some(Profile::Private) => Profile::Private,
            _ => Profile::Unavailable,
        }
    }
}

enum Outcome {
    Path(Vec<String>),
    NotFound,
}

/// Drives the search the way the program does, with the graph standing in for the
/// network; returns the outcome and how many rounds were expanded.
fn run(graph: &Graph, source: &str, dest: &str, batch_size: usize, max_depth: usize) -> (Outcome, usize) {
    let mut s = Searcher::new(source.to_string(), dest.to_string());
    let mut rounds = 0;
    loop {
        assert!(rounds < 1000, "the search did not stop");
        match s.collect_batch(batch_size, max_depth) {
            Step::Found(p) => return (Outcome::Path(p), rounds),
            Step::Exhausted => return (Outcome::NotFound, rounds),
            Step::Expand(batch) => {
                rounds += 1;
                let mut results = Vec::new();
                for c in &batch {
                    let neighbors = graph.friends.get(&c.key).cloned().unwrap_or_default();
                    let fresh = s.unvisited(&neighbors);
                    let scored: Vec<Option<Candidate>> = fresh
                        .into_iter()
                        .map(|(name, link)| {
                            let profile = graph.profile(&link);
                            Searcher::score_friend(name, link, profile)
                        })
                        .collect();
                    results.push(scored);
                }
                s.absorb(&results);
            },
        }
    }
}

#[test]
fn trivial_adjacency_finds_source_b_dest() {
    let mut g = Graph::new();
    g.node("src", Profile::Scored(0), &[("B", "b"), ("C", "c")]);
    g.node("b", Profile::Scored(40), &[("Dest", "dest")]);
    g.node("c", Profile::Scored(10), &[]);
    g.node("dest", Profile::Scored(100), &[]);
    match run(&g, "src", "dest", 10, usize::MAX).0 {
        Outcome::Path(p) => assert_eq!(p, vec!["src", "b", "dest"]),
        Outcome::NotFound => panic!("no path found"),
    }
}

#[test]
fn private_dead_end_is_not_found() {
    let mut g = Graph::new();
    g.node("src", Profile::Scored(0), &[("B", "b")]);
    g.node("b", Profile::Private, &[("Dest", "dest")]);
    g.node("dest", Profile::Scored(100), &[]);
    let (outcome, rounds) = run(&g, "src", "dest", 10, usize::MAX);
    assert!(matches!(outcome, Outcome::NotFound));
    assert_eq!(rounds, 1);
}

#[test]
fn exhaustion_on_a_cyclic_graph_terminates() {
    let mut g = Graph::new();
    g.node("src", Profile::Scored(0), &[("A", "a"), ("B", "b")]);
    g.node("a", Profile::Scored(5), &[("B", "b"), ("C", "c"), ("Src", "src")]);
    g.node("b", Profile::Scored(7), &[("A", "a"), ("C", "c")]);
    g.node("c", Profile::Scored(3), &[("A", "a"), ("B", "b"), ("D", "d")]);
    g.node("d", Profile::Scored(1), &[("C", "c")]);
    g.node("dest", Profile::Scored(100), &[("D", "d")]);
    let (outcome, rounds) = run(&g, "src", "dest", 1, usize::MAX);
    assert!(matches!(outcome, Outcome::NotFound));
    assert!(rounds <= 8, "took {} rounds", rounds);
}

#[test]
fn source_that_is_the_destination() {
    let g = Graph::new();
    match run(&g, "here", "here", 5, usize::MAX).0 {
        Outcome::Path(p) => assert_eq!(p, vec!["here"]),
        Outcome::NotFound => panic!("no path found"),
    }
}

#[test]
fn round_budget_stops_the_search() {
    let mut g = Graph::new();
    g.node("n0", Profile::Scored(0), &[("N1", "n1")]);
    g.node("n1", Profile::Scored(1), &[("N2", "n2")]);
    g.node("n2", Profile::Scored(2), &[("N3", "n3")]);
    g.node("n3", Profile::Scored(3), &[]);
    let (outcome, rounds) = run(&g, "n0", "n3", 10, 2);
    assert!(matches!(outcome, Outcome::NotFound));
    assert_eq!(rounds, 2);
    match run(&g, "n0", "n3", 10, 3).0 {
        Outcome::Path(p) => assert_eq!(p, vec!["n0", "n1", "n2", "n3"]),
        Outcome::NotFound => panic!("no path found"),
    }
}

#[test]
fn best_scored_branch_is_expanded_first() {
    let mut g = Graph::new();
    g.node("src", Profile::Scored(0), &[("Low", "low"), ("High", "high")]);
    g.node("low", Profile::Scored(1), &[("Dest", "dest")]);
    g.node("high", Profile::Scored(90), &[("Mid", "mid")]);
    g.node("mid", Profile::Scored(80), &[("Dest", "dest")]);
    g.node("dest", Profile::Scored(100), &[]);
    match run(&g, "src", "dest", 1, usize::MAX).0 {
        Outcome::Path(p) => assert_eq!(p, vec!["src", "high", "mid", "dest"]),
        Outcome::NotFound => panic!("no path found"),
    }
}

#[test]
fn collect_batch_hands_out_best_first() {
    let mut s = Searcher::new("src".to_string(), "dest".to_string());
    match s.collect_batch(3, 10) {
        Step::Expand(b) => {
            assert_eq!(b.len(), 1);
            assert_eq!(b[0].identity, "START");
            assert_eq!(b[0].key, "src");
        },
        _ => panic!("expected a batch"),
    }
    let results = vec![vec![
        Searcher::score_friend("A".to_string(), "a".to_string(), Profile::Scored(3)),
        Searcher::score_friend("B".to_string(), "b".to_string(), Profile::Scored(9)),
        Searcher::score_friend("C".to_string(), "c".to_string(), Profile::Unavailable),
        Searcher::score_friend("D".to_string(), "d".to_string(), Profile::Scored(6)),
    ]];
    s.absorb(&results);
    assert_eq!(s.frontier().len(), 3);
    assert_eq!(s.ledger().len(), 4);
    assert_eq!(s.rounds(), 1);
    match s.collect_batch(2, 10) {
        Step::Expand(b) => {
            assert_eq!(b.iter().map(|c| c.score).collect::<Vec<_>>(), vec![9, 6]);
        },
        _ => panic!("expected a batch"),
    }
    assert_eq!(s.frontier().len(), 1);
    assert_eq!(s.target_link(), "dest");
}

#[test]
fn empty_frontier_is_exhausted() {
    let mut s = Searcher::new("src".to_string(), "dest".to_string());
    assert!(matches!(s.collect_batch(1, 10), Step::Expand(_)));
    s.absorb(&vec![vec![]]);
    assert!(matches!(s.collect_batch(1, 10), Step::Exhausted));
}

#[test]
fn unvisited_drops_known_nodes() {
    let mut s = Searcher::new("src".to_string(), "dest".to_string());
    assert!(matches!(s.collect_batch(1, 10), Step::Expand(_)));
    s.absorb(&vec![vec![Searcher::score_friend("A".to_string(), "a".to_string(), Profile::Scored(1))]]);
    let neighbors = vec![
        ("A".to_string(), "a".to_string()),
        ("START".to_string(), "src".to_string()),
        ("B".to_string(), "b".to_string()),
        ("Other A".to_string(), "a".to_string()),
    ];
    let fresh = s.unvisited(&neighbors);
    assert_eq!(
        fresh,
        vec![("B".to_string(), "b".to_string()), ("Other A".to_string(), "a".to_string())]
    );
}

#[test]
fn score_friend_drops_private_and_unavailable() {
    assert!(Searcher::score_friend("A".to_string(), "a".to_string(), Profile::Private).is_none());
    assert!(Searcher::score_friend("A".to_string(), "a".to_string(), Profile::Unavailable).is_none());
    let c = Searcher::score_friend("A".to_string(), "a".to_string(), Profile::Scored(42)).unwrap();
    assert_eq!((c.identity, c.key, c.score), ("A".to_string(), "a".to_string(), 42));
}

#[test]
fn expansion_skips_known_nodes_and_links_to_the_expander() {
    let mut ledger = Ledger::new(steam_path::ledger::NodeKey::new("START".to_string(), "src".to_string()));
    ledger.record(
        steam_path::ledger::NodeKey::new("Seen".to_string(), "seen".to_string()),
        &steam_path::ledger::NodeKey::new("START".to_string(), "src".to_string()),
    );
    let person = Candidate::new("START".to_string(), "src".to_string(), 0);
    let scored = vec![
        Some(Candidate::new("Seen".to_string(), "seen".to_string(), 50)),
        None,
        Some(Candidate::new("New".to_string(), "new".to_string(), 7)),
        Some(Candidate::new("Again".to_string(), "new".to_string(), 70)),
    ];
    let (local, links) = Searcher::search_node_with_score(&ledger, &person, &scored);
    assert_eq!(local.len(), 1);
    assert_eq!(local.peek().unwrap().identity, "New");
    let linked: Vec<(String, String)> =
        links.iter().map(|(c, p)| (c.identity.clone(), p.address.clone())).collect();
    assert_eq!(linked, vec![("New".to_string(), "src".to_string()), ("Again".to_string(), "src".to_string())]);
}

#[test]
fn frontier_limit_is_large() {
    assert_eq!(FRONTIER_LIMIT, 100000);
}

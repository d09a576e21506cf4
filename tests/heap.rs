use steam_path::heap::{compare, Candidate, MaxHeap, Order};

fn cand(identity: &str, key: &str, score: u64) -> Candidate {
    Candidate::new(identity.to_string(), key.to_string(), score)
}

fn heap_of(items: &[(&str, u64)]) -> MaxHeap {
    let mut h = MaxHeap::new();
    for (key, score) in items {
        h.insert(cand(key, key, *score));
    }
    h
}

fn pseudo_scores(n: usize, seed: u64) -> Vec<u64> {
    let mut x = seed;
    let mut out = Vec::new();
    for _ in 0..n {
        x = x.wrapping_mul(6364136223846793005).wrapping_add(1442695040888963407);
        out.push((x >> 33) % 50);
    }
    out
}

#[test]
fn compare_orders_by_score() {
    assert!(matches!(compare(&cand("a", "a", 3), &cand("b", "b", 1)), Order::Greater));
    assert!(matches!(compare(&cand("a", "a", 2), &cand("b", "b", 2)), Order::Equal));
    assert!(matches!(compare(&cand("a", "a", 0), &cand("b", "b", 9)), Order::Smaller));
}

#[test]
fn new_heap_is_empty() {
    let mut h = MaxHeap::new();
    assert_eq!(h.len(), 0);
    assert!(h.peek().is_none());
    assert!(h.pop().is_none());
    assert!(h.pop_many(5).is_empty());
    let similar = heap_of(&[("x", 1)]).new_similar();
    assert_eq!(similar.len(), 0);
}

#[test]
fn pop_returns_scores_best_first() {
    let mut h = heap_of(&[("a", 5), ("b", 9), ("c", 1), ("d", 7), ("e", 3)]);
    assert_eq!(h.peek().unwrap().score, 9);
    let mut seen = Vec::new();
    while let Some(c) = h.pop() {
        seen.push(c.score);
    }
    assert_eq!(seen, vec![9, 7, 5, 3, 1]);
}

#[test]
fn insert_keeps_first_candidate_of_a_key() {
    let mut h = MaxHeap::new();
    h.insert(cand("first", "k", 4));
    h.insert(cand("second", "k", 40));
    assert_eq!(h.len(), 1);
    let c = h.pop().unwrap();
    assert_eq!(c.identity, "first");
    assert_eq!(c.score, 4);
    assert!(h.pop().is_none());
}

#[test]
fn in_heap_looks_at_keys() {
    let h = heap_of(&[("a", 1), ("b", 2)]);
    assert!(h.in_heap(&cand("other name", "a", 99)));
    assert!(!h.in_heap(&cand("a", "z", 1)));
}

#[test]
fn pop_many_is_sorted_distinct_and_resident() {
    let scores = pseudo_scores(200, 7);
    let mut h = MaxHeap::new();
    for (i, s) in scores.iter().enumerate() {
        h.insert(cand("n", &format!("key{}", i % 150), *s));
    }
    let before: Vec<(String, u64)> = h.unsorted_iter().into_iter().map(|c| (c.key, c.score)).collect();
    assert_eq!(before.len(), 150);
    let out = h.pop_many(40);
    assert_eq!(out.len(), 40);
    for w in out.windows(2) {
        assert!(w[0].score >= w[1].score);
    }
    let mut keys: Vec<&String> = out.iter().map(|c| &c.key).collect();
    keys.sort();
    keys.dedup();
    assert_eq!(keys.len(), 40);
    for c in &out {
        assert!(before.contains(&(c.key.clone(), c.score)));
    }
    let rest = h.unsorted_iter();
    assert_eq!(rest.len(), 110);
    let lowest_taken = out.last().unwrap().score;
    assert!(rest.iter().all(|c| c.score <= lowest_taken));
}

#[test]
fn pop_many_takes_everything_when_asked_for_more() {
    let mut h = heap_of(&[("a", 2), ("b", 8)]);
    let out = h.pop_many(10);
    assert_eq!(out.iter().map(|c| c.score).collect::<Vec<_>>(), vec![8, 2]);
    assert_eq!(h.len(), 0);
}

#[test]
fn pop_many_zero_takes_nothing() {
    let mut h = heap_of(&[("a", 2), ("b", 8)]);
    assert!(h.pop_many(0).is_empty());
    assert_eq!(h.len(), 2);
}

#[test]
fn truncate_keeps_the_best_not_a_prefix_of_storage() {
    let scores = pseudo_scores(300, 11);
    let mut h = MaxHeap::new();
    for (i, s) in scores.iter().enumerate() {
        h.insert(cand("n", &format!("key{}", i), *s));
    }
    let mut sorted: Vec<u64> = scores.clone();
    sorted.sort_by(|a, b| b.cmp(a));
    h.truncate(25);
    assert_eq!(h.len(), 25);
    let mut kept: Vec<u64> = h.unsorted_iter().into_iter().map(|c| c.score).collect();
    kept.sort_by(|a, b| b.cmp(a));
    assert_eq!(kept, sorted[..25].to_vec());
    let drained: Vec<u64> = h.pop_many(25).into_iter().map(|c| c.score).collect();
    assert_eq!(drained, sorted[..25].to_vec());
}

#[test]
fn truncate_beyond_size_changes_nothing() {
    let mut h = heap_of(&[("a", 2), ("b", 8), ("c", 5)]);
    h.truncate(3);
    assert_eq!(h.len(), 3);
    h.truncate(10);
    assert_eq!(h.len(), 3);
    h.truncate(0);
    assert_eq!(h.len(), 0);
}

#[test]
fn truncate_with_a_shallow_low_leaf() {
    // Storage order here is [9, 1, 8, 0, 0, 7, 6]: cutting the array to four
    // entries would keep 1 and 0 and lose 7.
    let mut h = heap_of(&[("a", 9), ("b", 1), ("c", 8), ("d", 0), ("e", 0), ("f", 7), ("g", 6)]);
    h.truncate(4);
    let mut kept: Vec<u64> = h.unsorted_iter().into_iter().map(|c| c.score).collect();
    kept.sort();
    assert_eq!(kept, vec![6, 7, 8, 9]);
}

#[test]
fn combine_with_prefers_the_receiver() {
    let a = heap_of(&[("x", 1), ("y", 2)]);
    let mut b = MaxHeap::new();
    b.insert(cand("other", "y", 50));
    b.insert(cand("z", "z", 3));
    let c = a.combine_with(&b);
    assert_eq!(c.len(), 3);
    let mut items: Vec<(String, String, u64)> =
        c.unsorted_iter().into_iter().map(|c| (c.identity, c.key, c.score)).collect();
    items.sort();
    assert_eq!(
        items,
        vec![
            ("x".to_string(), "x".to_string(), 1),
            ("y".to_string(), "y".to_string(), 2),
            ("z".to_string(), "z".to_string(), 3),
        ]
    );
    assert_eq!(a.len(), 2);
}

#[test]
fn combine_with_itself_changes_nothing() {
    let f = heap_of(&[("a", 4), ("b", 1), ("c", 9), ("d", 4)]);
    let g = f.combine_with(&f);
    let mut left: Vec<(String, u64)> = f.unsorted_iter().into_iter().map(|c| (c.key, c.score)).collect();
    let mut right: Vec<(String, u64)> = g.unsorted_iter().into_iter().map(|c| (c.key, c.score)).collect();
    left.sort();
    right.sort();
    assert_eq!(left, right);
}

#[test]
fn merge_in_matches_combine_with() {
    let a = heap_of(&[("p", 3), ("q", 6)]);
    let b = heap_of(&[("q", 1), ("r", 2), ("s", 8)]);
    let combined = a.combine_with(&b);
    let mut merged = heap_of(&[("p", 3), ("q", 6)]);
    merged.merge_in(&b);
    let mut x: Vec<(String, u64)> = combined.unsorted_iter().into_iter().map(|c| (c.key, c.score)).collect();
    let mut y: Vec<(String, u64)> = merged.unsorted_iter().into_iter().map(|c| (c.key, c.score)).collect();
    x.sort();
    y.sort();
    assert_eq!(x, y);
    assert_eq!(x.len(), 4);
}

#[test]
fn duplicate_copies_every_field() {
    let c = cand("name", "key", 12);
    let d = c.duplicate();
    assert_eq!((d.identity, d.key, d.score), ("name".to_string(), "key".to_string(), 12));
}

use batchopt::prefs::PrefStore;

fn labels(xs: &[&str]) -> Vec<String> {
    xs.iter().map(|x| x.to_string()).collect()
}

#[test]
fn end_to_end_single_client() {
    // One client likes a and b, dislikes c; tokens are a=1, b=2, c=3.
    let mut store = PrefStore::new();
    store.add_client(labels(&["a", "b"]), labels(&["c"]));
    let simple = store.simple_solution();
    assert_eq!(simple, vec![false, true, true, false]);
    assert_eq!(store.measure(&simple), 1);
}

#[test]
fn simple_solution_keeps_net_nonnegative_tokens() {
    // a: 2 likes, 0 dislikes; b: 1 like, 1 dislike (tie kept);
    // c: 1 like, 2 dislikes (dropped); d: dislikes only (dropped).
    let mut store = PrefStore::new();
    store.add_client(labels(&["a", "b", "c"]), labels(&["d"]));
    store.add_client(labels(&["a"]), labels(&["b", "c"]));
    store.add_client(labels(&[]), labels(&["c", "d"]));
    let simple = store.simple_solution();
    let a = 1usize;
    let b = 2usize;
    let c = 3usize;
    let d = 4usize;
    assert!(simple[a]);
    assert!(simple[b]);
    assert!(!simple[c]);
    assert!(!simple[d]);
}

#[test]
fn measure_counts_exactly_satisfied_clients() {
    let mut store = PrefStore::new();
    store.add_client(labels(&["a"]), labels(&["b"]));
    store.add_client(labels(&["b"]), labels(&[]));
    store.add_client(labels(&["a", "b"]), labels(&[]));
    // Candidate {a}: client 1 satisfied; client 2 misses b; client 3 misses b.
    let cand = vec![false, true, false];
    assert_eq!(store.measure(&cand), 1);
    // Candidate {a, b}: clients 2 and 3 satisfied; client 1 hits dislike b.
    let cand2 = vec![false, true, true];
    assert_eq!(store.measure(&cand2), 2);
    // The simple rule ignores dislikes, so {a, b} satisfies all three.
    assert_eq!(store.measure_simple(&cand2), 3);
}

#[test]
fn advanced_scores_at_least_simple() {
    let mut store = PrefStore::new();
    store.add_client(labels(&["a"]), labels(&["b"]));
    store.add_client(labels(&["b"]), labels(&["a"]));
    store.add_client(labels(&["a", "c"]), labels(&[]));
    store.add_client(labels(&["b"]), labels(&["c"]));
    let simple = store.simple_solution();
    let base = store.measure(&simple);
    let (adv, score) = store.advanced_solution();
    assert_eq!(score, store.measure(&adv));
    assert!(score >= base);
}

#[test]
fn refinement_removes_harmful_token() {
    // Tokens: a=1, b=2, z=3. b has 2 likes and 2 dislikes, so construction
    // keeps it, but its likers also need z, which never enters the set, so
    // dropping b strictly improves the score (3 -> 5).
    let mut store = PrefStore::new();
    store.add_client(labels(&["a"]), labels(&["b"]));
    store.add_client(labels(&["a"]), labels(&["b"]));
    store.add_client(labels(&["b", "z"]), labels(&[]));
    store.add_client(labels(&["b", "z"]), labels(&[]));
    store.add_client(labels(&["a"]), labels(&["z"]));
    store.add_client(labels(&["a"]), labels(&["z"]));
    store.add_client(labels(&["a"]), labels(&["z"]));
    let simple = store.simple_solution();
    assert_eq!(simple, vec![false, true, true, false]);
    assert_eq!(store.measure(&simple), 3);
    let (adv, score) = store.advanced_solution();
    assert_eq!(adv, vec![false, true, false, false]);
    assert_eq!(score, 5);
}

#[test]
fn refinement_adds_helpful_token() {
    // Tokens: a=1, d=2, w=3. d has 2 likes and 3 dislikes, so construction
    // drops it, but its haters are unsatisfiable anyway (they need w), so
    // adding d back strictly improves the score (4 -> 6).
    let mut store = PrefStore::new();
    store.add_client(labels(&["a", "d"]), labels(&[]));
    store.add_client(labels(&["a", "d"]), labels(&[]));
    store.add_client(labels(&["w"]), labels(&["d"]));
    store.add_client(labels(&["w"]), labels(&["d"]));
    store.add_client(labels(&["w"]), labels(&["d"]));
    store.add_client(labels(&["a"]), labels(&["w"]));
    store.add_client(labels(&["a"]), labels(&["w"]));
    store.add_client(labels(&["a"]), labels(&["w"]));
    store.add_client(labels(&["a"]), labels(&["w"]));
    let simple = store.simple_solution();
    assert_eq!(simple, vec![false, true, false, false]);
    assert_eq!(store.measure(&simple), 4);
    let (adv, score) = store.advanced_solution();
    assert_eq!(adv, vec![false, true, true, false]);
    assert_eq!(score, 6);
}

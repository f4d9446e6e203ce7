use sgl_router::counter::Counter;
use sgl_router::tree::{chars_of, Tree};

fn names(list: &[&str]) -> Vec<String> {
    list.iter().map(|s| s.to_string()).collect()
}

#[test]
fn counter_counts_per_worker() {
    let a = "http://a:8000".to_string();
    let b = "http://b:8000".to_string();
    let mut c = Counter::new();
    assert!(c.is_empty());
    assert_eq!(c.get(&a), 0);
    c.bump(&a);
    c.bump(&a);
    c.bump(&b);
    assert_eq!(c.get(&a), 2);
    assert_eq!(c.get(&b), 1);
    assert!(!c.is_empty());
    c.remove(&a);
    assert_eq!(c.get(&a), 0);
    assert_eq!(c.get(&b), 1);
    c.remove(&a);
    assert_eq!(c.get(&b), 1);
}

#[test]
fn counter_lead_is_first_of_the_highest() {
    let a = "a".to_string();
    let b = "b".to_string();
    let c = "c".to_string();
    let mut counts = Counter::new();
    counts.bump(&b);
    counts.bump(&c);
    counts.bump(&c);
    counts.bump(&a);
    counts.bump(&a);
    assert_eq!(counts.lead(&names(&["a", "b", "c"])), Some(0));
    assert_eq!(counts.lead(&names(&["c", "b", "a"])), Some(0));
    assert_eq!(counts.lead(&names(&["b", "c", "a"])), Some(1));
    assert_eq!(counts.lead(&names(&["b"])), Some(0));
    assert_eq!(counts.lead(&names(&["x", "y"])), None);
    assert_eq!(counts.lead(&names(&[])), None);
}

#[test]
fn counter_within_and_duplicate() {
    let a = "a".to_string();
    let b = "b".to_string();
    let mut small = Counter::new();
    small.bump(&a);
    let mut large = small.duplicate();
    assert!(small.within(&large));
    assert!(large.within(&small));
    large.bump(&a);
    large.bump(&b);
    assert!(small.within(&large));
    assert!(!large.within(&small));
    assert_eq!(small.get(&a), 1);
    assert_eq!(large.get(&a), 2);
}

#[test]
fn chars_of_keeps_every_character() {
    assert_eq!(chars_of("héllo"), vec!['h', 'é', 'l', 'l', 'o']);
    assert_eq!(chars_of(""), Vec::<char>::new());
}

#[test]
fn empty_tree_matches_nothing() {
    let t = Tree::new(100);
    assert_eq!(t.chars(), 0);
    assert_eq!(t.max_size(), 100);
    let m = t.prefix_match("hello", &names(&["A", "B"]));
    assert_eq!(m.matched_len, 0);
    assert_eq!(m.anchor_len, 0);
    assert_eq!(m.worker, None);
}

#[test]
fn stored_text_is_matched_in_full() {
    let order = names(&["A", "B"]);
    let mut t = Tree::new(100);
    t.insert("hello", "A", 1);
    t.insert("help", "B", 2);
    t.insert("hello world", "B", 3);
    t.insert("hello", "B", 4);
    for (text, worker) in [("hello", "B"), ("help", "B"), ("hello world", "B")] {
        let m = t.prefix_match(text, &order);
        assert_eq!(m.matched_len, text.chars().count());
        assert_eq!(m.anchor_len, text.chars().count());
        assert_eq!(m.worker.as_deref(), Some(worker));
    }
    t.insert("hello", "A", 5);
    t.insert("hello", "A", 6);
    let m = t.prefix_match("hello", &order);
    assert_eq!(m.matched_len, 5);
    assert_eq!(m.worker.as_deref(), Some("A"));
}

#[test]
fn split_keeps_counts_and_size() {
    let order = names(&["A", "B"]);
    let mut t = Tree::new(100);
    t.insert("hello", "A", 1);
    assert_eq!(t.chars(), 5);
    t.insert("help", "B", 2);
    assert_eq!(t.chars(), 6);
    assert_eq!(t.load_of("A"), 1);
    assert_eq!(t.load_of("B"), 1);
    let m = t.prefix_match("help me", &order);
    assert_eq!((m.matched_len, m.anchor_len), (4, 4));
    assert_eq!(m.worker.as_deref(), Some("B"));
    let m = t.prefix_match("hel", &order);
    assert_eq!((m.matched_len, m.anchor_len), (3, 3));
    assert_eq!(m.worker.as_deref(), Some("A"));
    let m = t.prefix_match("hel", &names(&["B", "A"]));
    assert_eq!(m.worker.as_deref(), Some("B"));
}

#[test]
fn partial_match_answers_from_the_last_full_node() {
    let order = names(&["A", "B"]);
    let mut t = Tree::new(100);
    t.insert("hello", "B", 1);
    t.insert("world", "A", 2);
    t.insert("worm", "A", 3);
    let m = t.prefix_match("help", &order);
    assert_eq!((m.matched_len, m.anchor_len), (3, 0));
    assert_eq!(m.worker.as_deref(), Some("A"));
    let m = t.prefix_match("xyz", &order);
    assert_eq!((m.matched_len, m.anchor_len), (0, 0));
    assert_eq!(m.worker.as_deref(), Some("A"));
    let m = t.prefix_match("", &order);
    assert_eq!((m.matched_len, m.anchor_len), (0, 0));
    let m = t.prefix_match("hello there", &order);
    assert_eq!((m.matched_len, m.anchor_len), (5, 5));
    assert_eq!(m.worker.as_deref(), Some("B"));
}

#[test]
fn text_that_ends_inside_an_edge_gets_a_node() {
    let order = names(&["A", "B"]);
    let mut t = Tree::new(100);
    t.insert("hello", "A", 1);
    t.insert("hel", "B", 2);
    assert_eq!(t.chars(), 5);
    let m = t.prefix_match("hel", &order);
    assert_eq!((m.matched_len, m.anchor_len), (3, 3));
    assert_eq!(m.worker.as_deref(), Some("A"));
    let m = t.prefix_match("hello", &order);
    assert_eq!(m.worker.as_deref(), Some("A"));
    t.insert("hel", "B", 3);
    let m = t.prefix_match("hel", &order);
    assert_eq!(m.worker.as_deref(), Some("B"));
}

#[test]
fn empty_text_counts_at_the_root() {
    let mut t = Tree::new(100);
    t.insert("", "A", 1);
    assert_eq!(t.chars(), 0);
    assert_eq!(t.load_of("A"), 1);
    let m = t.prefix_match("anything", &names(&["A"]));
    assert_eq!((m.matched_len, m.anchor_len), (0, 0));
    assert_eq!(m.worker.as_deref(), Some("A"));
}

#[test]
fn removed_worker_is_named_no_more() {
    let order = names(&["A", "B"]);
    let mut t = Tree::new(100);
    t.insert("hello", "A", 1);
    t.insert("help", "B", 2);
    t.insert("apple", "A", 3);
    t.remove_worker("A");
    assert_eq!(t.load_of("A"), 0);
    assert_eq!(t.load_of("B"), 1);
    assert_eq!(t.chars(), 4);
    for text in ["hello", "help", "apple", "hel", "", "zzz"] {
        let m = t.prefix_match(text, &order);
        assert_ne!(m.worker.as_deref(), Some("A"));
    }
    let m = t.prefix_match("hello", &order);
    assert_eq!((m.matched_len, m.anchor_len), (3, 0));
    assert_eq!(m.worker.as_deref(), Some("B"));
    let m = t.prefix_match("apple", &order);
    assert_eq!(m.matched_len, 0);
    t.remove_worker("A");
    assert_eq!(t.chars(), 4);
    t.remove_worker("B");
    assert_eq!(t.chars(), 0);
    assert_eq!(t.prefix_match("help", &order).worker, None);
}

#[test]
fn removal_without_pruning_does_not_merge() {
    let order = names(&["A", "B"]);
    let mut t = Tree::new(100);
    t.insert("hel", "A", 1);
    t.insert("help", "B", 2);
    t.remove_worker("A");
    assert_eq!(t.chars(), 4);
    let m = t.prefix_match("hel", &order);
    assert_eq!((m.matched_len, m.anchor_len), (3, 3));
    assert_eq!(m.worker.as_deref(), Some("B"));
}

#[test]
fn removal_merges_a_node_with_its_only_child() {
    let order = names(&["A", "B"]);
    let mut t = Tree::new(100);
    t.insert("hello", "A", 1);
    t.insert("help", "B", 2);
    t.remove_worker("A");
    let m = t.prefix_match("hel", &order);
    assert_eq!((m.matched_len, m.anchor_len), (3, 0));
    let m = t.prefix_match("help", &order);
    assert_eq!((m.matched_len, m.anchor_len), (4, 4));
}

#[test]
fn eviction_removes_the_oldest_leaf_first() {
    let order = names(&["A", "B"]);
    let mut t = Tree::new(3);
    t.insert("abc", "A", 1);
    t.insert("abd", "B", 2);
    assert_eq!(t.chars(), 4);
    let n = t.evict();
    assert_eq!(n, 1);
    assert_eq!(t.chars(), 3);
    assert_eq!(t.prefix_match("abc", &order).matched_len, 2);
    assert_eq!(t.prefix_match("abd", &order).matched_len, 3);
    assert_eq!(t.load_of("A"), 1);
    assert_eq!(t.evict(), 0);
}

#[test]
fn eviction_brings_the_size_under_the_limit() {
    let mut t = Tree::new(10);
    let texts = ["alpha", "alpine", "beta", "betamax", "gamma", "gamut", "delta"];
    for (i, text) in texts.iter().enumerate() {
        t.insert(text, if i % 2 == 0 { "A" } else { "B" }, i as u64);
    }
    assert!(t.chars() > 10);
    let n = t.evict();
    assert!(n > 0);
    assert!(t.chars() <= 10);
    assert_eq!(t.max_size(), 10);
    let mut zero = Tree::new(0);
    zero.insert("abc", "A", 1);
    zero.insert("abd", "A", 2);
    zero.evict();
    assert_eq!(zero.chars(), 0);
}

#[test]
fn evict_one_says_whether_a_leaf_was_there() {
    let mut t = Tree::new(100);
    assert!(!t.evict_one());
    t.insert("ab", "A", 5);
    t.insert("cd", "A", 3);
    assert!(t.evict_one());
    assert_eq!(t.chars(), 2);
    let order = names(&["A"]);
    assert_eq!(t.prefix_match("cd", &order).matched_len, 0);
    assert_eq!(t.prefix_match("ab", &order).matched_len, 2);
    assert!(t.evict_one());
    assert!(!t.evict_one());
    assert_eq!(t.chars(), 0);
}

use sgl_router::policy::{
    eviction_pause_secs, is_skewed, match_reaches, routing_text, PolicyConfig, Ratio, RequestFields, Router, SelectError,
};
use sgl_router::registry::AddError;

const A: &str = "http://a:8000";
const B: &str = "http://b:8000";
const C: &str = "http://c:8000";

fn urls(list: &[&str]) -> Vec<String> {
    list.iter().map(|s| s.to_string()).collect()
}

fn text(t: &str) -> RequestFields {
    RequestFields { text: Some(t.to_string()), messages: None, stream: false }
}

fn no_text() -> RequestFields {
    RequestFields { text: None, messages: None, stream: false }
}

fn cache_aware(threshold: u64, abs: usize, rel: u64) -> PolicyConfig {
    PolicyConfig::CacheAwareConfig {
        timeout_secs: 300,
        interval_secs: 10,
        cache_threshold: Ratio { millionths: threshold },
        balance_abs_threshold: abs,
        balance_rel_threshold: Ratio { millionths: rel },
        eviction_interval_secs: 60,
        max_tree_size: 1 << 24,
    }
}

fn round_robin() -> PolicyConfig {
    PolicyConfig::RoundRobinConfig { timeout_secs: 300, interval_secs: 10 }
}

fn random() -> PolicyConfig {
    PolicyConfig::RandomConfig { timeout_secs: 300, interval_secs: 10 }
}

#[test]
fn routing_text_prefers_text_over_messages() {
    let both = RequestFields {
        text: Some("plain".to_string()),
        messages: Some(urls(&["one", "two"])),
        stream: true,
    };
    assert_eq!(routing_text(&both).as_deref(), Some("plain"));
    let messages = RequestFields { text: None, messages: Some(urls(&["one", " ", "two"])), stream: false };
    assert_eq!(routing_text(&messages).as_deref(), Some("one two"));
    let empty = RequestFields { text: None, messages: Some(Vec::new()), stream: false };
    assert_eq!(routing_text(&empty).as_deref(), Some(""));
    assert_eq!(routing_text(&no_text()), None);
}

#[test]
fn skew_needs_both_thresholds() {
    let rel = Ratio { millionths: 1_500_000 };
    assert!(is_skewed(2, 10, 2, rel));
    assert!(!is_skewed(2, 4, 2, rel));
    assert!(!is_skewed(2, 5, 3, rel));
    assert!(is_skewed(2, 5, 2, rel));
    assert!(!is_skewed(10, 14, 2, rel));
    assert!(!is_skewed(10, 15, 2, rel));
    assert!(is_skewed(10, 16, 2, rel));
    assert!(is_skewed(0, 1, 0, rel));
    assert!(!is_skewed(0, 0, 0, rel));
    assert!(is_skewed(0, u64::MAX, 5, Ratio { millionths: u64::MAX }));
    assert!(!is_skewed(u64::MAX - 1, u64::MAX, 0, Ratio { millionths: u64::MAX }));
}

#[test]
fn match_ratio_is_compared_exactly() {
    let half = Ratio { millionths: 500_000 };
    assert!(match_reaches(11, 11, half));
    assert!(match_reaches(5, 10, half));
    assert!(!match_reaches(4, 10, half));
    assert!(!match_reaches(5, 11, half));
    assert!(match_reaches(6, 11, half));
    assert!(!match_reaches(0, 0, half));
    assert!(match_reaches(0, 0, Ratio { millionths: 0 }));
    assert!(match_reaches(0, 7, Ratio { millionths: 0 }));
    assert!(match_reaches(7, 7, Ratio { millionths: 1_000_000 }));
    assert!(!match_reaches(6, 7, Ratio { millionths: 1_000_000 }));
}

#[test]
fn empty_registry_is_unavailable() {
    for policy in [random(), round_robin(), cache_aware(500_000, 32, 1_000_100)] {
        let mut r = Router::new(&Vec::new(), policy).unwrap();
        assert_eq!(r.select(&text("hello"), 3, 1), Err(SelectError::Unavailable));
        assert_eq!(r.select(&no_text(), 3, 1), Err(SelectError::Unavailable));
        assert_eq!(r.first_worker(), None);
    }
}

#[test]
fn router_rejects_bad_worker_lists() {
    assert!(matches!(Router::new(&urls(&[A, "nonsense"]), round_robin()), Err(AddError::Invalid)));
    assert!(matches!(Router::new(&urls(&[A, B, A]), round_robin()), Err(AddError::Duplicate)));
}

#[test]
fn random_policy_follows_the_draw() {
    let mut r = Router::new(&urls(&[A, B, C]), random()).unwrap();
    assert_eq!(r.select(&text("x"), 0, 1).as_deref(), Ok(A));
    assert_eq!(r.select(&text("x"), 1, 1).as_deref(), Ok(B));
    assert_eq!(r.select(&text("x"), 5, 1).as_deref(), Ok(C));
    assert_eq!(r.select(&no_text(), 300, 1).as_deref(), Ok(A));
}

#[test]
fn round_robin_gives_each_worker_three_of_nine() {
    let mut r = Router::new(&urls(&[A, B, C]), round_robin()).unwrap();
    let mut counts = [0usize; 3];
    for i in 0..9 {
        let w = r.select(&no_text(), 17, i).unwrap();
        let at = [A, B, C].iter().position(|u| *u == w).unwrap();
        counts[at] += 1;
    }
    assert_eq!(counts, [3, 3, 3]);
}

#[test]
fn round_robin_shares_differ_by_one_at_most() {
    for k in 1..6usize {
        let list: Vec<String> = (0..k).map(|i| format!("http://w{}:1", i)).collect();
        for n in 0..14usize {
            let mut r = Router::new(&list, round_robin()).unwrap();
            r.select(&no_text(), 0, 0).unwrap();
            let mut counts = vec![0usize; k];
            for _ in 0..n {
                let w = r.select(&no_text(), 0, 0).unwrap();
                counts[list.iter().position(|u| *u == w).unwrap()] += 1;
            }
            assert_eq!(counts.iter().sum::<usize>(), n);
            for c in counts {
                assert!(c == n / k || c == (n + k - 1) / k);
            }
        }
    }
}

#[test]
fn cache_aware_steers_to_the_warm_worker() {
    let mut r = Router::new(&urls(&[A, B]), cache_aware(500_000, 32, 1_000_100)).unwrap();
    assert!(r.can_record(11));
    assert_eq!(r.select(&text("hello world"), 9, 1).as_deref(), Ok(A));
    assert_eq!(r.select(&text("hello world"), 9, 2).as_deref(), Ok(A));
    assert_eq!(r.select(&text("hello worlds"), 9, 3).as_deref(), Ok(A));
    assert_eq!(r.select(&text("goodbye"), 9, 4).as_deref(), Ok(B));
    assert_eq!(r.select(&text("goodbye all"), 9, 5).as_deref(), Ok(B));
    assert_eq!(r.select(&text("hello"), 9, 6).as_deref(), Ok(A));
}

#[test]
fn cache_aware_ignores_short_matches() {
    let mut r = Router::new(&urls(&[A, B]), cache_aware(500_000, 32, 1_000_100)).unwrap();
    assert_eq!(r.select(&text("abcdefgh"), 0, 1).as_deref(), Ok(A));
    assert_eq!(r.select(&text("abcxxxxx"), 0, 2).as_deref(), Ok(B));
    assert_eq!(r.select(&text("abcdzzzz"), 0, 3).as_deref(), Ok(A));
}

#[test]
fn balance_escape_picks_the_least_loaded() {
    let mut r = Router::new(&urls(&[A, B]), cache_aware(500_000, 2, 1_500_000)).unwrap();
    for i in 0..10 {
        r.record("hello", A, i);
    }
    for i in 0..2 {
        r.record("other", B, i);
    }
    assert_eq!(r.select(&text("hello"), 0, 20).as_deref(), Ok(B));
    assert_eq!(r.select(&text("hello"), 0, 21).as_deref(), Ok(B));
}

#[test]
fn cache_aware_without_text_goes_round_robin() {
    let mut r = Router::new(&urls(&[A, B]), cache_aware(500_000, 32, 1_000_100)).unwrap();
    assert_eq!(r.select(&no_text(), 0, 1).as_deref(), Ok(A));
    assert_eq!(r.select(&no_text(), 0, 2).as_deref(), Ok(B));
    assert_eq!(r.select(&no_text(), 0, 3).as_deref(), Ok(A));
    let messages = RequestFields { text: None, messages: Some(urls(&["hi ", "there"])), stream: false };
    assert_eq!(r.select(&messages, 0, 4).as_deref(), Ok(A));
    assert_eq!(r.select(&text("hi there"), 0, 5).as_deref(), Ok(A));
}

#[test]
fn removed_worker_is_not_selected() {
    let mut r = Router::new(&urls(&[A, B]), cache_aware(500_000, 32, 1_000_100)).unwrap();
    assert_eq!(r.select(&text("hello world"), 0, 1).as_deref(), Ok(A));
    r.remove_worker(A);
    assert_eq!(r.get_worker_urls(), urls(&[B]));
    for i in 0..5 {
        assert_eq!(r.select(&text("hello world"), i, 2).as_deref(), Ok(B));
    }
    r.remove_worker(A);
    assert_eq!(r.get_worker_urls(), urls(&[B]));
    r.remove_worker(B);
    assert_eq!(r.select(&text("hello world"), 0, 3), Err(SelectError::Unavailable));
}

#[test]
fn add_worker_appends_after_the_check() {
    let mut r = Router::new(&urls(&[A]), round_robin()).unwrap();
    assert_eq!(r.check_worker(B), None);
    assert_eq!(r.add_worker(B), Ok(()));
    assert_eq!(r.check_worker(B), Some(AddError::Duplicate));
    assert_eq!(r.add_worker(B), Err(AddError::Duplicate));
    assert_eq!(r.add_worker("b"), Err(AddError::Invalid));
    assert_eq!(r.get_worker_urls(), urls(&[A, B]));
    assert_eq!(r.first_worker().as_deref(), Some(A));
    assert!(matches!(r.config(), PolicyConfig::RoundRobinConfig { timeout_secs: 300, interval_secs: 10 }));
}

#[test]
fn router_eviction_keeps_the_tree_small() {
    let config = PolicyConfig::CacheAwareConfig {
        timeout_secs: 300,
        interval_secs: 10,
        cache_threshold: Ratio { millionths: 500_000 },
        balance_abs_threshold: 32,
        balance_rel_threshold: Ratio { millionths: 1_000_100 },
        eviction_interval_secs: 60,
        max_tree_size: 10,
    };
    let mut r = Router::new(&urls(&[A, B]), config).unwrap();
    for (i, t) in ["one text", "another text", "third", "fourth one"].iter().enumerate() {
        r.select(&text(t), 0, i as u64).unwrap();
    }
    let n = r.evict();
    assert_eq!(n, 3);
    assert_eq!(r.select(&text("fourth one"), 0, 9).as_deref(), Ok(B));
    assert_eq!(r.evict(), 0);
}

#[test]
fn only_the_cache_aware_policy_evicts() {
    assert_eq!(eviction_pause_secs(&cache_aware(500_000, 32, 1_000_100)), Some(60));
    let hurried = PolicyConfig::CacheAwareConfig {
        timeout_secs: 300,
        interval_secs: 10,
        cache_threshold: Ratio { millionths: 500_000 },
        balance_abs_threshold: 32,
        balance_rel_threshold: Ratio { millionths: 1_000_100 },
        eviction_interval_secs: 0,
        max_tree_size: 1 << 24,
    };
    assert_eq!(eviction_pause_secs(&hurried), Some(1));
    assert_eq!(eviction_pause_secs(&round_robin()), None);
    assert_eq!(eviction_pause_secs(&random()), None);
}

#[test]
fn try_select_selects_where_there_is_room() {
    let mut r = Router::new(&urls(&[A, B]), cache_aware(500_000, 32, 1_000_100)).unwrap();
    assert_eq!(r.try_select(&text("hello world"), 9, 1), Some(Ok(A.to_string())));
    assert_eq!(r.try_select(&text("hello world"), 9, 2), Some(Ok(A.to_string())));
    assert_eq!(r.try_select(&no_text(), 9, 3), Some(Ok(A.to_string())));
    let mut none = Router::new(&Vec::new(), cache_aware(500_000, 32, 1_000_100)).unwrap();
    assert_eq!(none.try_select(&text("hello"), 0, 1), Some(Err(SelectError::Unavailable)));
    let mut rr = Router::new(&urls(&[A, B]), round_robin()).unwrap();
    assert_eq!(rr.try_select(&text("x"), 0, 1), Some(Ok(A.to_string())));
    assert_eq!(rr.try_select(&text("x"), 0, 2), Some(Ok(B.to_string())));
}

#[test]
fn selected_worker_gets_the_load() {
    let mut r = Router::new(&urls(&[A, B]), cache_aware(500_000, 32, 1_000_100)).unwrap();
    assert_eq!(r.select(&text("first"), 0, 1).as_deref(), Ok(A));
    assert_eq!(r.select(&text("second"), 0, 2).as_deref(), Ok(B));
    assert_eq!(r.select(&text("third"), 0, 3).as_deref(), Ok(A));
    r.remove_worker(A);
    r.remove_worker(A);
    assert_eq!(r.select(&text("first"), 0, 4).as_deref(), Ok(B));
    assert_eq!(r.select(&text("second"), 0, 5).as_deref(), Ok(B));
}

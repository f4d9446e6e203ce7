use sgl_router::probe::{failure_of, health_url, probe_step, timing_of, ProbeAction, ProbeEvent, ProbePhase};
use sgl_router::policy::{PolicyConfig, Ratio};
use sgl_router::registry::{is_valid_url, starts_with, AddError, WorkerRegistry};

fn urls(list: &[&str]) -> Vec<String> {
    list.iter().map(|s| s.to_string()).collect()
}

#[test]
fn url_form_is_checked() {
    assert!(is_valid_url("http://w:8000"));
    assert!(is_valid_url("https://worker.example/v1"));
    assert!(!is_valid_url(""));
    assert!(!is_valid_url("http://"));
    assert!(!is_valid_url("https://"));
    assert!(!is_valid_url("ftp://w:8000"));
    assert!(!is_valid_url("w:8000"));
    assert!(!is_valid_url("http://w :8000"));
    assert!(!is_valid_url("http://w:8000\n"));
    assert!(!is_valid_url("http://w\u{7f}"));
}

#[test]
fn starts_with_compares_characters() {
    let s: Vec<char> = "https://x".chars().collect();
    assert!(starts_with(&s, &"https://".chars().collect()));
    assert!(starts_with(&s, &Vec::new()));
    assert!(!starts_with(&s, &"http://".chars().collect()));
    assert!(!starts_with(&s, &"https://xy".chars().collect()));
}

#[test]
fn enroll_keeps_order_and_rejects_repeats() {
    let mut r = WorkerRegistry::new();
    assert!(r.is_empty());
    assert_eq!(r.first(), None);
    assert_eq!(r.enroll("http://a:1"), Ok(()));
    assert_eq!(r.enroll("http://b:1"), Ok(()));
    assert_eq!(r.enroll("http://a:1"), Err(AddError::Duplicate));
    assert_eq!(r.enroll("not a url"), Err(AddError::Invalid));
    assert_eq!(r.list(), urls(&["http://a:1", "http://b:1"]));
    assert_eq!(r.len(), 2);
    assert_eq!(r.check("http://c:1"), None);
    assert_eq!(r.check("http://b:1"), Some(AddError::Duplicate));
    assert_eq!(r.check("bad"), Some(AddError::Invalid));
    assert!(r.contains("http://b:1"));
    assert!(!r.contains("http://c:1"));
    assert_eq!(r.first().as_deref(), Some("http://a:1"));
    assert_eq!(r.at(1), "http://b:1");
    assert_eq!(r.as_vec(), &urls(&["http://a:1", "http://b:1"]));
}

#[test]
fn from_urls_fails_on_the_first_objection() {
    let ok = WorkerRegistry::from_urls(&urls(&["http://a:1", "http://b:1"]));
    assert_eq!(ok.unwrap().list(), urls(&["http://a:1", "http://b:1"]));
    assert!(matches!(WorkerRegistry::from_urls(&urls(&["http://a:1", "http://a:1", "bad"])), Err(AddError::Duplicate)));
    assert!(matches!(WorkerRegistry::from_urls(&urls(&["bad", "http://a:1", "http://a:1"])), Err(AddError::Invalid)));
    assert!(WorkerRegistry::from_urls(&urls(&[])).unwrap().is_empty());
}

#[test]
fn remove_is_idempotent() {
    let mut r = WorkerRegistry::from_urls(&urls(&["http://a:1", "http://b:1", "http://c:1"])).unwrap();
    assert!(r.remove("http://b:1"));
    assert_eq!(r.list(), urls(&["http://a:1", "http://c:1"]));
    assert!(!r.remove("http://b:1"));
    assert_eq!(r.list(), urls(&["http://a:1", "http://c:1"]));
    assert_eq!(r.enroll("http://b:1"), Ok(()));
    assert_eq!(r.list(), urls(&["http://a:1", "http://c:1", "http://b:1"]));
}

#[test]
fn pick_takes_the_draw_modulo_the_length() {
    let r = WorkerRegistry::from_urls(&urls(&["http://a:1", "http://b:1", "http://c:1"])).unwrap();
    assert_eq!(r.pick(0).as_deref(), Some("http://a:1"));
    assert_eq!(r.pick(4).as_deref(), Some("http://b:1"));
    assert_eq!(r.pick(usize::MAX).as_deref(), Some(["http://a:1", "http://b:1", "http://c:1"][usize::MAX % 3]));
    assert_eq!(WorkerRegistry::new().pick(7), None);
}

#[test]
fn round_robin_goes_round() {
    let mut r = WorkerRegistry::from_urls(&urls(&["http://a:1", "http://b:1", "http://c:1"])).unwrap();
    let mut seen = Vec::new();
    for _ in 0..7 {
        seen.push(r.next().unwrap());
    }
    assert_eq!(seen, urls(&["http://a:1", "http://b:1", "http://c:1", "http://a:1", "http://b:1", "http://c:1", "http://a:1"]));
    assert_eq!(WorkerRegistry::new().next(), None);
}

#[test]
fn round_robin_is_fair_after_a_removal() {
    let mut r = WorkerRegistry::from_urls(&urls(&["http://a:1", "http://b:1", "http://c:1"])).unwrap();
    r.next();
    r.next();
    r.remove("http://c:1");
    let mut a = 0;
    let mut b = 0;
    for _ in 0..11 {
        match r.next().unwrap().as_str() {
            "http://a:1" => a += 1,
            "http://b:1" => b += 1,
            other => panic!("unexpected worker {}", other),
        }
    }
    assert!((a == 5 && b == 6) || (a == 6 && b == 5));
}

#[test]
fn probe_succeeds_when_the_worker_comes_up() {
    let (timeout, interval) = (300, 10);
    let mut phase = ProbePhase::Probing;
    let mut elapsed = 0;
    let mut probes = 0;
    let mut action;
    loop {
        (phase, action) = probe_step(phase, ProbeEvent::Tick { elapsed_secs: elapsed }, timeout, interval);
        assert_eq!(action, ProbeAction::SendProbe);
        assert_eq!(phase, ProbePhase::Awaiting);
        probes += 1;
        (phase, action) = probe_step(phase, ProbeEvent::Reply { healthy: probes > 3 }, timeout, interval);
        if phase == ProbePhase::Ready {
            break;
        }
        assert_eq!(action, ProbeAction::Sleep { secs: 10 });
        elapsed += 10;
    }
    assert_eq!(action, ProbeAction::Enroll);
    assert_eq!(probes, 4);
    assert_eq!(elapsed, 30);
}

#[test]
fn probe_gives_up_when_the_window_closes() {
    let (timeout, interval) = (25, 10);
    let mut phase = ProbePhase::Probing;
    let mut elapsed = 0;
    let mut probes = 0;
    loop {
        let (p, a) = probe_step(phase, ProbeEvent::Tick { elapsed_secs: elapsed }, timeout, interval);
        if a == ProbeAction::GiveUp {
            phase = p;
            break;
        }
        probes += 1;
        let (p, a) = probe_step(p, ProbeEvent::Reply { healthy: false }, timeout, interval);
        assert_eq!(a, ProbeAction::Sleep { secs: 10 });
        phase = p;
        elapsed += 10;
    }
    assert_eq!(phase, ProbePhase::Failed);
    assert_eq!(probes, 3);
    assert_eq!(probe_step(phase, ProbeEvent::Reply { healthy: true }, timeout, interval), (ProbePhase::Failed, ProbeAction::Nothing));
}

#[test]
fn probe_ignores_events_out_of_phase() {
    assert_eq!(probe_step(ProbePhase::Probing, ProbeEvent::Reply { healthy: true }, 5, 1), (ProbePhase::Probing, ProbeAction::Nothing));
    assert_eq!(probe_step(ProbePhase::Awaiting, ProbeEvent::Tick { elapsed_secs: 99 }, 5, 1), (ProbePhase::Awaiting, ProbeAction::Nothing));
    assert_eq!(probe_step(ProbePhase::Ready, ProbeEvent::Tick { elapsed_secs: 0 }, 5, 1), (ProbePhase::Ready, ProbeAction::Nothing));
    assert_eq!(probe_step(ProbePhase::Probing, ProbeEvent::Tick { elapsed_secs: 5 }, 5, 1), (ProbePhase::Awaiting, ProbeAction::SendProbe));
    assert_eq!(probe_step(ProbePhase::Probing, ProbeEvent::Tick { elapsed_secs: 6 }, 5, 1), (ProbePhase::Failed, ProbeAction::GiveUp));
}

#[test]
fn probe_timing_comes_from_the_policy() {
    assert_eq!(timing_of(&PolicyConfig::RandomConfig { timeout_secs: 1, interval_secs: 2 }), (1, 2));
    assert_eq!(timing_of(&PolicyConfig::RoundRobinConfig { timeout_secs: 3, interval_secs: 4 }), (3, 4));
    let c = PolicyConfig::CacheAwareConfig {
        timeout_secs: 5,
        interval_secs: 6,
        cache_threshold: Ratio { millionths: 500_000 },
        balance_abs_threshold: 32,
        balance_rel_threshold: Ratio { millionths: 1_000_100 },
        eviction_interval_secs: 60,
        max_tree_size: 100,
    };
    assert_eq!(timing_of(&c), (5, 6));
    assert_eq!(health_url("http://w:8000"), "http://w:8000/health");
}

#[test]
fn only_giving_up_fails_the_addition() {
    assert_eq!(failure_of(ProbeAction::GiveUp), Some(AddError::TimedOut));
    assert_eq!(failure_of(ProbeAction::Enroll), None);
    assert_eq!(failure_of(ProbeAction::SendProbe), None);
    assert_eq!(failure_of(ProbeAction::Sleep { secs: 10 }), None);
    assert_eq!(failure_of(ProbeAction::Nothing), None);
}

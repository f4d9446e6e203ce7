use sgl_router::discovery::{
    among, group_urls, restart_delay_secs, worker_url, DiscoveryCommand, EndpointGroup, EndpointPort, EndpointState,
    EndpointSubset, K8sDiscoveryConfig, K8sDiscoveryError, WatchEvent, COMMAND_QUEUE_CAPACITY, RETRY_DELAY_SECS,
};
use std::collections::BTreeSet;

fn config(port_name: Option<&str>, path: &str) -> K8sDiscoveryConfig {
    K8sDiscoveryConfig {
        label_selector: "sgl-role=llm-worker".to_string(),
        port_name: port_name.map(|s| s.to_string()),
        protocol: "http".to_string(),
        worker_path: path.to_string(),
    }
}

fn port(name: Option<&str>, number: Option<i32>) -> EndpointPort {
    EndpointPort { name: name.map(|s| s.to_string()), port: number }
}

fn group(name: &str, addresses: &[&str], ports: Vec<EndpointPort>) -> EndpointGroup {
    EndpointGroup {
        name: name.to_string(),
        subsets: vec![EndpointSubset { addresses: addresses.iter().map(|s| s.to_string()).collect(), ports }],
    }
}

fn added(cmds: &[DiscoveryCommand]) -> BTreeSet<String> {
    cmds.iter()
        .filter_map(|c| match c {
            DiscoveryCommand::AddWorker(u) => Some(u.clone()),
            DiscoveryCommand::RemoveWorker(_) => None,
        })
        .collect()
}

fn removed(cmds: &[DiscoveryCommand]) -> BTreeSet<String> {
    cmds.iter()
        .filter_map(|c| match c {
            DiscoveryCommand::RemoveWorker(u) => Some(u.clone()),
            DiscoveryCommand::AddWorker(_) => None,
        })
        .collect()
}

fn set(list: &[&str]) -> BTreeSet<String> {
    list.iter().map(|s| s.to_string()).collect()
}

fn replay(cmds: &[DiscoveryCommand], workers: &mut BTreeSet<String>) {
    for c in cmds {
        match c {
            DiscoveryCommand::AddWorker(u) => {
                workers.insert(u.clone());
            }
            DiscoveryCommand::RemoveWorker(u) => {
                workers.remove(u);
            }
        }
    }
}

#[test]
fn worker_url_is_rendered() {
    assert_eq!(worker_url("http", "10.0.0.1", 8000, ""), "http://10.0.0.1:8000");
    assert_eq!(worker_url("https", "10.0.0.1", 443, "/v1"), "https://10.0.0.1:443/v1");
    assert_eq!(worker_url("http", "host", 30000, "generate"), "http://host:30000/generate");
    assert_eq!(worker_url("http", "host", 0, "/"), "http://host:0/");
    assert_eq!(worker_url("http", "host", 7, ""), "http://host:7");
    assert_eq!(worker_url("http", "host", 10, ""), "http://host:10");
    assert_eq!(worker_url("http", "host", i32::MAX, ""), "http://host:2147483647");
    assert_eq!(worker_url("http", "host", -1, ""), "http://host:-1");
    assert_eq!(worker_url("http", "host", i32::MIN, "x"), "http://host:-2147483648/x");
}

#[test]
fn among_finds_a_text() {
    let v = vec!["a".to_string(), "b".to_string()];
    assert!(among(&v, &"b".to_string()));
    assert!(!among(&v, &"c".to_string()));
    assert!(!among(&Vec::new(), &"a".to_string()));
}

#[test]
fn every_port_is_taken_without_a_port_name() {
    let g = group("g", &["10.0.0.1", "10.0.0.2"], vec![port(Some("http"), Some(80)), port(None, Some(81)), port(None, None)]);
    let got: BTreeSet<String> = group_urls(&g, &config(None, "")).into_iter().collect();
    assert_eq!(got, set(&["http://10.0.0.1:80", "http://10.0.0.1:81", "http://10.0.0.2:80", "http://10.0.0.2:81"]));
}

#[test]
fn only_the_named_port_is_taken() {
    let g = group("g", &["10.0.0.1"], vec![port(Some("http"), Some(80)), port(Some("metrics"), Some(9090)), port(None, Some(81))]);
    assert_eq!(group_urls(&g, &config(Some("http"), "/api")), vec!["http://10.0.0.1:80/api".to_string()]);
    assert_eq!(group_urls(&g, &config(Some("none"), "")), Vec::<String>::new());
}

#[test]
fn repeated_urls_are_given_once() {
    let g = EndpointGroup {
        name: "g".to_string(),
        subsets: vec![
            EndpointSubset { addresses: vec!["h".to_string(), "h".to_string()], ports: vec![port(None, Some(1)), port(Some("x"), Some(1))] },
            EndpointSubset { addresses: vec!["h".to_string()], ports: vec![port(None, Some(1)), port(None, Some(2))] },
            EndpointSubset { addresses: Vec::new(), ports: vec![port(None, Some(3))] },
            EndpointSubset { addresses: vec!["k".to_string()], ports: Vec::new() },
        ],
    };
    assert_eq!(group_urls(&g, &config(None, "")), vec!["http://h:1".to_string(), "http://h:2".to_string()]);
}

#[test]
fn observe_adds_newcomers_and_removes_departers() {
    let cfg = config(None, "");
    let mut state = EndpointState::new();
    let cmds = state.observe(&group("g", &["u1", "u2"], vec![port(None, Some(80))]), &cfg);
    assert_eq!(added(&cmds), set(&["http://u1:80", "http://u2:80"]));
    assert!(removed(&cmds).is_empty());
    assert_eq!(cmds.len(), 2);
    let cmds = state.observe(&group("g", &["u2", "u3"], vec![port(None, Some(80))]), &cfg);
    assert_eq!(added(&cmds), set(&["http://u3:80"]));
    assert_eq!(removed(&cmds), set(&["http://u1:80"]));
    assert!(matches!(cmds[0], DiscoveryCommand::AddWorker(_)));
    assert!(matches!(cmds[1], DiscoveryCommand::RemoveWorker(_)));
    let cmds = state.observe(&group("g", &["u2", "u3"], vec![port(None, Some(80))]), &cfg);
    assert!(cmds.is_empty());
    let owned: BTreeSet<String> = state.workers_of("g").into_iter().collect();
    assert_eq!(owned, set(&["http://u2:80", "http://u3:80"]));
    assert!(state.workers_of("h").is_empty());
}

#[test]
fn groups_are_kept_apart() {
    let cfg = config(None, "");
    let mut state = EndpointState::new();
    state.observe(&group("g", &["u1"], vec![port(None, Some(80))]), &cfg);
    let cmds = state.observe(&group("h", &["u2"], vec![port(None, Some(80))]), &cfg);
    assert_eq!(added(&cmds), set(&["http://u2:80"]));
    assert!(removed(&cmds).is_empty());
    let cmds = state.forget("g");
    assert_eq!(removed(&cmds), set(&["http://u1:80"]));
    assert!(added(&cmds).is_empty());
    assert!(state.forget("g").is_empty());
    assert!(state.forget("never seen").is_empty());
    assert_eq!(state.workers_of("h"), vec!["http://u2:80".to_string()]);
}

#[test]
fn deleted_group_gives_back_all_its_workers() {
    let cfg = config(None, "");
    let mut state = EndpointState::new();
    let mut workers = BTreeSet::new();
    let cmds = state.handle(&WatchEvent::Applied(group("G", &["u1", "u2"], vec![port(None, Some(80))])), &cfg);
    replay(&cmds, &mut workers);
    assert_eq!(workers, set(&["http://u1:80", "http://u2:80"]));
    assert!(state.handle(&WatchEvent::Bookmark, &cfg).is_empty());
    assert!(state.handle(&WatchEvent::Error, &cfg).is_empty());
    let cmds = state.handle(&WatchEvent::Deleted("G".to_string()), &cfg);
    assert_eq!(removed(&cmds), set(&["http://u1:80", "http://u2:80"]));
    replay(&cmds, &mut workers);
    assert!(workers.is_empty());
}

#[test]
fn replayed_commands_track_the_last_observation() {
    let cfg = config(None, "");
    let updates: [&[&str]; 6] = [&["a", "b"], &["b", "c", "d"], &[], &["a"], &["a", "e"], &["e"]];
    let mut state = EndpointState::new();
    let mut workers = BTreeSet::new();
    for addresses in updates {
        let cmds = state.observe(&group("g", addresses, vec![port(None, Some(1))]), &cfg);
        replay(&cmds, &mut workers);
        let want: BTreeSet<String> = addresses.iter().map(|a| format!("http://{}:1", a)).collect();
        assert_eq!(workers, want);
    }
}

#[test]
fn discovery_defaults_and_overrides() {
    let d = K8sDiscoveryConfig::default();
    assert_eq!(d.label_selector, "sgl-role=llm-worker");
    assert_eq!(d.port_name, None);
    assert_eq!(d.protocol, "http");
    assert_eq!(d.worker_path, "");
    let o = K8sDiscoveryConfig::from_overrides(Some("role=x".to_string()), Some("api".to_string()), Some("https".to_string()), Some("v1".to_string()));
    assert_eq!(o.label_selector, "role=x");
    assert_eq!(o.port_name.as_deref(), Some("api"));
    assert_eq!(o.protocol, "https");
    assert_eq!(o.worker_path, "v1");
    let p = K8sDiscoveryConfig::from_overrides(None, Some("api".to_string()), None, None);
    assert_eq!(p.label_selector, "sgl-role=llm-worker");
    assert_eq!(p.port_name.as_deref(), Some("api"));
}

#[test]
fn discovery_errors_in_words() {
    assert_eq!(K8sDiscoveryError::KubeError("no route".to_string()).message(), "Kubernetes client error: no route");
    assert_eq!(K8sDiscoveryError::WatchError("closed".to_string()).message(), "Failed to watch Kubernetes endpoints: closed");
    assert_eq!(K8sDiscoveryError::ConfigError("empty".to_string()).message(), "Configuration error: empty");
}

#[test]
fn discovery_restarts_after_ten_seconds() {
    assert_eq!(restart_delay_secs(true), 10);
    assert_eq!(restart_delay_secs(false), 10);
    assert_eq!(RETRY_DELAY_SECS, 10);
    assert_eq!(COMMAND_QUEUE_CAPACITY, 100);
}

#[test]
fn each_group_is_tracked_in_a_mixed_stream() {
    let cfg = config(None, "");
    let stream: [(&str, Option<&[&str]>); 7] = [
        ("g", Some(&["a", "b"])),
        ("h", Some(&["x"])),
        ("g", Some(&["b", "c"])),
        ("h", None),
        ("g", Some(&[])),
        ("h", Some(&["y", "z"])),
        ("g", Some(&["a"])),
    ];
    let mut state = EndpointState::new();
    let mut of_g = BTreeSet::new();
    let mut of_h = BTreeSet::new();
    let mut fleet = BTreeSet::new();
    for (name, addresses) in stream {
        let cmds = match addresses {
            Some(list) => state.handle(&WatchEvent::Applied(group(name, list, vec![port(None, Some(1))])), &cfg),
            None => state.handle(&WatchEvent::Deleted(name.to_string()), &cfg),
        };
        replay(&cmds, if name == "g" { &mut of_g } else { &mut of_h });
        replay(&cmds, &mut fleet);
        let want: BTreeSet<String> = addresses.unwrap_or(&[]).iter().map(|a| format!("http://{}:1", a)).collect();
        assert_eq!(if name == "g" { &of_g } else { &of_h }, &want);
        let all: BTreeSet<String> = of_g.union(&of_h).cloned().collect();
        assert_eq!(fleet, all);
    }
    assert_eq!(of_g, set(&["http://a:1"]));
    assert_eq!(of_h, set(&["http://y:1", "http://z:1"]));
}

#[test]
fn a_shared_worker_leaves_with_the_first_group_that_drops_it() {
    let cfg = config(None, "");
    let mut state = EndpointState::new();
    let mut fleet = BTreeSet::new();
    replay(&state.observe(&group("g", &["u"], vec![port(None, Some(1))]), &cfg), &mut fleet);
    let again = state.observe(&group("h", &["u"], vec![port(None, Some(1))]), &cfg);
    assert_eq!(added(&again), set(&["http://u:1"]));
    replay(&again, &mut fleet);
    let gone = state.forget("g");
    assert_eq!(removed(&gone), set(&["http://u:1"]));
    replay(&gone, &mut fleet);
    assert!(fleet.is_empty());
    assert_eq!(state.workers_of("h"), vec!["http://u:1".to_string()]);
}

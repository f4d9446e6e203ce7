use sgl_router::config::{
    parse_policy, startup_plan, AppState, ConfigError, PolicyType, RouterOptions, ServerConfig, DEFAULT_MAX_TREE_SIZE,
    POOL_IDLE_TIMEOUT_SECS,
};
use sgl_router::discovery::{DiscoveryCommand, EndpointGroup, EndpointPort, EndpointState, EndpointSubset, K8sDiscoveryConfig};
use sgl_router::forward::{
    add_worker_reply, client_status, describe, exhausted_reply, header_goes_along, missing_url_reply, not_found_reply,
    payload_too_large, relay_status, remove_worker_reply, route_generate_request, route_of, route_to_first, target_url,
    try_route_generate_request, ErrorKind, Method, Route,
};
use sgl_router::policy::{PolicyConfig, Ratio, RequestFields, Router, SelectError};
use sgl_router::registry::AddError;

fn urls(list: &[&str]) -> Vec<String> {
    list.iter().map(|s| s.to_string()).collect()
}

#[test]
fn failures_map_to_statuses() {
    assert_eq!(client_status(ErrorKind::Unavailable), Some(503));
    assert_eq!(client_status(ErrorKind::PayloadTooLarge), Some(413));
    assert_eq!(client_status(ErrorKind::WorkerProbeTimeout), Some(400));
    assert_eq!(client_status(ErrorKind::UpstreamFailure { status: None }), Some(502));
    assert_eq!(client_status(ErrorKind::UpstreamFailure { status: Some(500) }), Some(500));
    assert_eq!(client_status(ErrorKind::UpstreamFailure { status: Some(429) }), Some(429));
    assert_eq!(client_status(ErrorKind::ConfigInvalid), None);
    assert_eq!(client_status(ErrorKind::DiscoveryTransport), None);
    assert_eq!(relay_status(Some(200)), 200);
    assert_eq!(relay_status(Some(404)), 404);
    assert_eq!(relay_status(None), 502);
}

#[test]
fn routes_are_told_apart() {
    for path in ["/health", "/health_generate", "/get_server_info", "/get_model_info", "/v1/models"] {
        assert_eq!(route_of(Method::Get, path), Route::ProxyFirst);
        assert_eq!(route_of(Method::Post, path), Route::NotFound);
    }
    for path in ["/generate", "/v1/chat/completions", "/v1/completions"] {
        assert_eq!(route_of(Method::Post, path), Route::Generate);
        assert_eq!(route_of(Method::Get, path), Route::NotFound);
    }
    assert_eq!(route_of(Method::Post, "/add_worker"), Route::AddWorker);
    assert_eq!(route_of(Method::Post, "/remove_worker"), Route::RemoveWorker);
    assert_eq!(route_of(Method::Get, "/add_worker"), Route::NotFound);
    assert_eq!(route_of(Method::Other, "/health"), Route::NotFound);
    assert_eq!(route_of(Method::Get, "/"), Route::NotFound);
    assert_eq!(route_of(Method::Get, "/health/"), Route::NotFound);
    assert_eq!(route_of(Method::Post, ""), Route::NotFound);
}

#[test]
fn first_worker_answers_what_any_can() {
    let policy = PolicyConfig::RoundRobinConfig { timeout_secs: 300, interval_secs: 10 };
    let r = Router::new(&urls(&["http://a:1", "http://b:1"]), policy).unwrap();
    assert_eq!(route_to_first(&r, "/health").as_deref(), Some("http://a:1/health"));
    assert_eq!(route_to_first(&r, "/v1/models").as_deref(), Some("http://a:1/v1/models"));
    let none = Router::new(&Vec::new(), policy).unwrap();
    assert_eq!(route_to_first(&none, "/health"), None);
    assert_eq!(target_url("http://a:1", "/generate"), "http://a:1/generate");
}

#[test]
fn generate_goes_to_the_selected_worker() {
    let policy = PolicyConfig::RoundRobinConfig { timeout_secs: 300, interval_secs: 10 };
    let mut r = Router::new(&urls(&["http://a:1", "http://b:1"]), policy).unwrap();
    let streamed = RequestFields { text: Some("x".to_string()), messages: None, stream: true };
    let whole = RequestFields { text: Some("x".to_string()), messages: None, stream: false };
    let f = route_generate_request(&mut r, &streamed, "/generate", 0, 1).unwrap();
    assert_eq!((f.worker.as_str(), f.url.as_str(), f.stream), ("http://a:1", "http://a:1/generate", true));
    let f = route_generate_request(&mut r, &whole, "/v1/completions", 0, 2).unwrap();
    assert_eq!((f.worker.as_str(), f.url.as_str(), f.stream), ("http://b:1", "http://b:1/v1/completions", false));
    let mut none = Router::new(&Vec::new(), policy).unwrap();
    assert!(matches!(route_generate_request(&mut none, &whole, "/generate", 0, 3), Err(SelectError::Unavailable)));
}

#[test]
fn admin_replies() {
    let ok = add_worker_reply(Ok(()), "http://w:8000");
    assert_eq!((ok.status, ok.body.as_str()), (200, "Successfully added worker: http://w:8000"));
    let dup = add_worker_reply(Err(AddError::Duplicate), "http://w:8000");
    assert_eq!((dup.status, dup.body.as_str()), (400, "Worker already exists: http://w:8000"));
    let bad = add_worker_reply(Err(AddError::Invalid), "w");
    assert_eq!((bad.status, bad.body.as_str()), (400, "Invalid worker URL: w"));
    let late = add_worker_reply(Err(AddError::TimedOut), "http://w:8000");
    assert_eq!((late.status, late.body.as_str()), (400, "Timed out waiting for worker to become healthy: http://w:8000"));
    assert_eq!(describe(AddError::TimedOut, "u"), "Timed out waiting for worker to become healthy: u");
    let missing = missing_url_reply();
    assert_eq!((missing.status, missing.body.as_str()), (400, "Worker URL required. Provide 'url' query parameter"));
    let removed = remove_worker_reply(Some("http://w:8000"));
    assert_eq!((removed.status, removed.body.as_str()), (200, "Successfully removed worker: http://w:8000"));
    let unnamed = remove_worker_reply(None);
    assert_eq!((unnamed.status, unnamed.body.as_str()), (400, ""));
    let nothing = not_found_reply();
    assert_eq!((nothing.status, nothing.body.as_str()), (404, ""));
}

#[test]
fn payload_limit_is_inclusive() {
    assert!(!payload_too_large(4_194_304, 4_194_304));
    assert!(payload_too_large(4_194_305, 4_194_304));
    assert!(!payload_too_large(0, 0));
}

#[test]
fn policy_names() {
    assert_eq!(parse_policy("random"), Some(PolicyType::Random));
    assert_eq!(parse_policy("round_robin"), Some(PolicyType::RoundRobin));
    assert_eq!(parse_policy("cache_aware"), Some(PolicyType::CacheAware));
    assert_eq!(parse_policy("Random"), None);
    assert_eq!(parse_policy(""), None);
    assert_eq!(parse_policy("least_loaded"), None);
}

#[test]
fn options_have_the_documented_defaults() {
    let o = RouterOptions::with_defaults(urls(&["http://a:1"]));
    assert_eq!(o.host, "127.0.0.1");
    assert_eq!(o.port, 3001);
    assert_eq!(o.worker_urls, urls(&["http://a:1"]));
    assert_eq!(o.policy, PolicyType::RoundRobin);
    assert_eq!(o.worker_startup_timeout_secs, 300);
    assert_eq!(o.worker_startup_check_interval, 10);
    assert_eq!(o.cache_threshold, Ratio { millionths: 500_000 });
    assert_eq!(o.balance_abs_threshold, 32);
    assert_eq!(o.balance_rel_threshold, Ratio { millionths: 1_000_100 });
    assert_eq!(o.eviction_interval_secs, 60);
    assert_eq!(o.max_tree_size, 1 << 24);
    assert_eq!(DEFAULT_MAX_TREE_SIZE, 1 << 24);
    assert_eq!(o.max_payload_size, 4 * 1024 * 1024);
    assert!(!o.verbose);
    assert!(!o.enable_k8s_discovery);
    assert_eq!(o.k8s_label_selector, "sgl-role=llm-worker");
    assert_eq!(o.k8s_port_name, None);
    assert_eq!(o.k8s_protocol, "http");
    assert_eq!(o.k8s_worker_path, "");
    assert_eq!(POOL_IDLE_TIMEOUT_SECS, 50);
}

#[test]
fn options_become_policy_settings() {
    let mut o = RouterOptions::with_defaults(urls(&["http://a:1"]));
    assert!(matches!(o.policy_config(), PolicyConfig::RoundRobinConfig { timeout_secs: 300, interval_secs: 10 }));
    o.policy = PolicyType::Random;
    o.worker_startup_timeout_secs = 7;
    assert!(matches!(o.policy_config(), PolicyConfig::RandomConfig { timeout_secs: 7, interval_secs: 10 }));
    o.policy = PolicyType::CacheAware;
    match o.policy_config() {
        PolicyConfig::CacheAwareConfig {
            timeout_secs,
            interval_secs,
            cache_threshold,
            balance_abs_threshold,
            balance_rel_threshold,
            eviction_interval_secs,
            max_tree_size,
        } => {
            assert_eq!((timeout_secs, interval_secs), (7, 10));
            assert_eq!(cache_threshold.millionths, 500_000);
            assert_eq!(balance_abs_threshold, 32);
            assert_eq!(balance_rel_threshold.millionths, 1_000_100);
            assert_eq!(eviction_interval_secs, 60);
            assert_eq!(max_tree_size, 16_777_216);
        }
        other => panic!("unexpected policy {:?}", other),
    }
}

#[test]
fn server_config_carries_discovery_only_when_enabled() {
    let mut o = RouterOptions::with_defaults(urls(&["http://a:1", "http://b:1"]));
    o.k8s_port_name = Some("api".to_string());
    let off = o.server_config();
    assert_eq!(off.host, "127.0.0.1");
    assert_eq!(off.port, 3001);
    assert_eq!(off.worker_urls, urls(&["http://a:1", "http://b:1"]));
    assert!(!off.enable_k8s_discovery);
    assert!(off.k8s_discovery_config.is_none());
    assert_eq!(off.max_payload_size, 4_194_304);
    o.enable_k8s_discovery = true;
    o.verbose = true;
    let on = o.server_config();
    assert!(on.enable_k8s_discovery && on.verbose);
    let k = on.k8s_discovery_config.unwrap();
    assert_eq!(k.label_selector, "sgl-role=llm-worker");
    assert_eq!(k.port_name.as_deref(), Some("api"));
    assert_eq!(k.protocol, "http");
    assert_eq!(k.worker_path, "");
}

fn server(worker_urls: &[&str], discovery: bool) -> ServerConfig {
    ServerConfig {
        host: "0.0.0.0".to_string(),
        port: 8080,
        worker_urls: urls(worker_urls),
        policy_config: PolicyConfig::RoundRobinConfig { timeout_secs: 300, interval_secs: 10 },
        verbose: true,
        max_payload_size: 5 * 1024 * 1024 + 17,
        enable_k8s_discovery: discovery,
        k8s_discovery_config: Some(K8sDiscoveryConfig::default()),
    }
}

#[test]
fn startup_needs_workers_or_discovery() {
    assert!(matches!(startup_plan(server(&[], false)), Err(ConfigError::NoWorkers)));
    assert!(matches!(startup_plan(server(&["x"], false)), Err(ConfigError::BadWorkerUrl(AddError::Invalid))));
    assert!(matches!(startup_plan(server(&["http://a:1", "http://a:1"], true)), Err(ConfigError::BadWorkerUrl(AddError::Duplicate))));
    let plan = startup_plan(server(&["http://a:1"], false)).unwrap();
    assert!(plan.debug_log);
    assert_eq!(plan.payload_mebibytes, 5);
    assert!(plan.discovery.is_none());
    assert_eq!(plan.state.router.get_worker_urls(), urls(&["http://a:1"]));
    let plan = startup_plan(server(&[], true)).unwrap();
    assert_eq!(plan.discovery.unwrap().label_selector, "sgl-role=llm-worker");
    assert!(plan.state.router.get_worker_urls().is_empty());
}

#[test]
fn app_state_is_built_or_refused_in_words() {
    let policy = PolicyConfig::RandomConfig { timeout_secs: 300, interval_secs: 10 };
    let state = AppState::new(urls(&["http://a:1"]), policy).unwrap();
    assert_eq!(state.router.get_worker_urls(), urls(&["http://a:1"]));
    assert_eq!(AppState::new(urls(&["nope"]), policy).err().as_deref(), Some("Invalid worker URL: the initial workers"));
    assert!(AppState::new(urls(&["http://a:1", "http://a:1"]), policy).is_err());
}

#[test]
fn discovered_workers_come_and_go() {
    let cfg = K8sDiscoveryConfig::default();
    let policy = PolicyConfig::RoundRobinConfig { timeout_secs: 300, interval_secs: 10 };
    let mut router = Router::new(&Vec::new(), policy).unwrap();
    let mut state = EndpointState::new();
    let g = EndpointGroup {
        name: "G".to_string(),
        subsets: vec![EndpointSubset {
            addresses: vec!["u1".to_string(), "u2".to_string()],
            ports: vec![EndpointPort { name: None, port: Some(8000) }],
        }],
    };
    for cmd in state.observe(&g, &cfg) {
        match cmd {
            DiscoveryCommand::AddWorker(u) => assert_eq!(router.add_worker(&u), Ok(())),
            DiscoveryCommand::RemoveWorker(u) => router.remove_worker(&u),
        }
    }
    let mut ready = router.get_worker_urls();
    ready.sort();
    assert_eq!(ready, urls(&["http://u1:8000", "http://u2:8000"]));
    for cmd in state.forget("G") {
        match cmd {
            DiscoveryCommand::AddWorker(u) => assert_eq!(router.add_worker(&u), Ok(())),
            DiscoveryCommand::RemoveWorker(u) => router.remove_worker(&u),
        }
    }
    assert!(router.get_worker_urls().is_empty());
    let request = RequestFields { text: None, messages: None, stream: false };
    let refused = router.select(&request, 0, 0);
    assert_eq!(refused, Err(SelectError::Unavailable));
    assert_eq!(client_status(ErrorKind::Unavailable), Some(503));
}

#[test]
fn connection_headers_stay_behind() {
    assert!(header_goes_along("content-type"));
    assert!(header_goes_along("authorization"));
    assert!(!header_goes_along("host"));
    assert!(!header_goes_along("content-length"));
    assert!(header_goes_along(""));
}

#[test]
fn config_errors_in_words() {
    assert_eq!(ConfigError::NoWorkers.message(), "No worker is given and discovery is off");
    assert_eq!(ConfigError::BadWorkerUrl(AddError::Invalid).message(), "Invalid worker URL: the initial workers");
    assert_eq!(ConfigError::BadWorkerUrl(AddError::Duplicate).message(), "Worker already exists: the initial workers");
}

#[test]
fn generate_is_tried_where_the_tree_has_room() {
    let policy = PolicyConfig::CacheAwareConfig {
        timeout_secs: 300,
        interval_secs: 10,
        cache_threshold: Ratio { millionths: 500_000 },
        balance_abs_threshold: 32,
        balance_rel_threshold: Ratio { millionths: 1_000_100 },
        eviction_interval_secs: 60,
        max_tree_size: 1 << 24,
    };
    let mut r = Router::new(&urls(&["http://a:1", "http://b:1"]), policy).unwrap();
    let request = RequestFields { text: Some("hello world".to_string()), messages: None, stream: false };
    for now in 1..3 {
        let f = try_route_generate_request(&mut r, &request, "/generate", 0, now).unwrap().unwrap();
        assert_eq!((f.worker.as_str(), f.url.as_str(), f.stream), ("http://a:1", "http://a:1/generate", false));
    }
    let mut none = Router::new(&Vec::new(), policy).unwrap();
    assert!(matches!(try_route_generate_request(&mut none, &request, "/generate", 0, 1), Some(Err(SelectError::Unavailable))));
    let full = exhausted_reply();
    assert_eq!((full.status, full.body.as_str()), (500, "The prefix tree cannot take in another text"));
}

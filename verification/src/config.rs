//! The options of the router, their defaults, and what startup makes of them.

use vstd::prelude::*;
use crate::discovery::K8sDiscoveryConfig;
use crate::forward::{describe, reason_text};
use crate::policy::{tree_limit_of, PolicyConfig, Ratio, Router};
use crate::registry::{clone_urls, first_objection, AddError};
use crate::tree::blank;

verus! {

/// The policies to choose from.
#[derive(Debug, Clone, Copy, PartialEq, Eq, Structural)]
pub enum PolicyType {
    Random,
    RoundRobin,
    CacheAware,
}

pub const DEFAULT_PORT: u16 = 3001;

pub const DEFAULT_STARTUP_TIMEOUT_SECS: u64 = 300;

pub const DEFAULT_STARTUP_CHECK_INTERVAL: u64 = 10;

/// A half.
pub const DEFAULT_CACHE_THRESHOLD_MILLIONTHS: u64 = 500_000;

pub const DEFAULT_BALANCE_ABS_THRESHOLD: usize = 32;

/// One and a ten-thousandth.
pub const DEFAULT_BALANCE_REL_THRESHOLD_MILLIONTHS: u64 = 1_000_100;

pub const DEFAULT_EVICTION_INTERVAL_SECS: u64 = 60;

/// Two to the power of twenty-four characters.
pub const DEFAULT_MAX_TREE_SIZE: usize = 16_777_216;

/// Four mebibytes.
pub const DEFAULT_MAX_PAYLOAD_SIZE: usize = 4_194_304;

/// The shared client of the workers keeps an idle connection this long.
pub const POOL_IDLE_TIMEOUT_SECS: u64 = 50;

/// The policy of the given name: `random`, `round_robin` or `cache_aware`.
pub open spec fn policy_named(name: Seq<char>) -> Option<PolicyType> {
    if name == "random"@ {
        Some(PolicyType::Random)
    } else if name == "round_robin"@ {
        Some(PolicyType::RoundRobin)
    } else if name == "cache_aware"@ {
        Some(PolicyType::CacheAware)
    } else {
        None
    }
}

/// The policy of the given name; `None` for a name that is no policy.
pub fn parse_policy(name: &str) -> (r: Option<PolicyType>)
    ensures
        r == policy_named(name@),
{
    let n = name.to_owned();
    if n == "random".to_owned() {
        Some(PolicyType::Random)
    } else if n == "round_robin".to_owned() {
        Some(PolicyType::RoundRobin)
    } else if n == "cache_aware".to_owned() {
        Some(PolicyType::CacheAware)
    } else {
        None
    }
}

/// The options as they are given to the router from outside.
#[derive(Debug, Clone)]
pub struct RouterOptions {
    pub host: String,
    pub port: u16,
    pub worker_urls: Vec<String>,
    pub policy: PolicyType,
    pub worker_startup_timeout_secs: u64,
    pub worker_startup_check_interval: u64,
    pub cache_threshold: Ratio,
    pub balance_abs_threshold: usize,
    pub balance_rel_threshold: Ratio,
    pub eviction_interval_secs: u64,
    pub max_tree_size: usize,
    pub max_payload_size: usize,
    pub verbose: bool,
    pub enable_k8s_discovery: bool,
    pub k8s_label_selector: String,
    pub k8s_port_name: Option<String>,
    pub k8s_protocol: String,
    pub k8s_worker_path: String,
}

/// What the server is started with.
#[derive(Debug, Clone)]
pub struct ServerConfig {
    pub host: String,
    pub port: u16,
    pub worker_urls: Vec<String>,
    pub policy_config: PolicyConfig,
    pub verbose: bool,
    pub max_payload_size: usize,
    pub enable_k8s_discovery: bool,
    pub k8s_discovery_config: Option<K8sDiscoveryConfig>,
}

/// The settings of the policy that the options name.
pub open spec fn policy_config_of(o: RouterOptions) -> PolicyConfig {
    match o.policy {
        PolicyType::Random => PolicyConfig::RandomConfig {
            timeout_secs: o.worker_startup_timeout_secs,
            interval_secs: o.worker_startup_check_interval,
        },
        PolicyType::RoundRobin => PolicyConfig::RoundRobinConfig {
            timeout_secs: o.worker_startup_timeout_secs,
            interval_secs: o.worker_startup_check_interval,
        },
        PolicyType::CacheAware => PolicyConfig::CacheAwareConfig {
            timeout_secs: o.worker_startup_timeout_secs,
            interval_secs: o.worker_startup_check_interval,
            cache_threshold: o.cache_threshold,
            balance_abs_threshold: o.balance_abs_threshold,
            balance_rel_threshold: o.balance_rel_threshold,
            eviction_interval_secs: o.eviction_interval_secs,
            max_tree_size: o.max_tree_size,
        },
    }
}

impl RouterOptions {
    /// The options for the workers `worker_urls` with every default: the
    /// round-robin policy on `127.0.0.1:3001`, a startup window of 300
    /// seconds checked every 10, a cache threshold of a half, balance
    /// thresholds of 32 and of one and a ten-thousandth, eviction every 60
    /// seconds down to two to the twenty-fourth characters, payloads of four
    /// mebibytes, and no discovery.
    pub fn with_defaults(worker_urls: Vec<String>) -> (r: RouterOptions)
        ensures
            r.worker_urls == worker_urls,
            r.host@ == "127.0.0.1"@,
            r.port == 3001,
            r.policy == PolicyType::RoundRobin,
            r.worker_startup_timeout_secs == 300,
            r.worker_startup_check_interval == 10,
            r.cache_threshold.millionths == 500_000,
            r.balance_abs_threshold == 32,
            r.balance_rel_threshold.millionths == 1_000_100,
            r.eviction_interval_secs == 60,
            r.max_tree_size == 16_777_216,
            r.max_payload_size == 4_194_304,
            !r.verbose,
            !r.enable_k8s_discovery,
            r.k8s_label_selector@ == "sgl-role=llm-worker"@,
            r.k8s_port_name is None,
            r.k8s_protocol@ == "http"@,
            r.k8s_worker_path@ == Seq::<char>::empty(),
    {
        RouterOptions {
            host: "127.0.0.1".to_owned(),
            port: DEFAULT_PORT,
            worker_urls,
            policy: PolicyType::RoundRobin,
            worker_startup_timeout_secs: DEFAULT_STARTUP_TIMEOUT_SECS,
            worker_startup_check_interval: DEFAULT_STARTUP_CHECK_INTERVAL,
            cache_threshold: Ratio { millionths: DEFAULT_CACHE_THRESHOLD_MILLIONTHS },
            balance_abs_threshold: DEFAULT_BALANCE_ABS_THRESHOLD,
            balance_rel_threshold: Ratio { millionths: DEFAULT_BALANCE_REL_THRESHOLD_MILLIONTHS },
            eviction_interval_secs: DEFAULT_EVICTION_INTERVAL_SECS,
            max_tree_size: DEFAULT_MAX_TREE_SIZE,
            max_payload_size: DEFAULT_MAX_PAYLOAD_SIZE,
            verbose: false,
            enable_k8s_discovery: false,
            k8s_label_selector: "sgl-role=llm-worker".to_owned(),
            k8s_port_name: None,
            k8s_protocol: "http".to_owned(),
            k8s_worker_path: String::new(),
        }
    }

    /// The settings of the policy that the options name.
    pub fn policy_config(&self) -> (r: PolicyConfig)
        ensures
            r == policy_config_of(*self),
    {
        match self.policy {
            PolicyType::Random => PolicyConfig::RandomConfig {
                timeout_secs: self.worker_startup_timeout_secs,
                interval_secs: self.worker_startup_check_interval,
            },
            PolicyType::RoundRobin => PolicyConfig::RoundRobinConfig {
                timeout_secs: self.worker_startup_timeout_secs,
                interval_secs: self.worker_startup_check_interval,
            },
            PolicyType::CacheAware => PolicyConfig::CacheAwareConfig {
                timeout_secs: self.worker_startup_timeout_secs,
                interval_secs: self.worker_startup_check_interval,
                cache_threshold: self.cache_threshold,
                balance_abs_threshold: self.balance_abs_threshold,
                balance_rel_threshold: self.balance_rel_threshold,
                eviction_interval_secs: self.eviction_interval_secs,
                max_tree_size: self.max_tree_size,
            },
        }
    }

    /// What the server is started with: the options as they are, the
    /// settings of the policy, and the configuration of discovery where
    /// discovery is enabled.
    pub fn server_config(&self) -> (r: ServerConfig)
        ensures
            r.host@ == self.host@,
            r.port == self.port,
            r.worker_urls.deep_view() == self.worker_urls.deep_view(),
            r.policy_config == policy_config_of(*self),
            r.verbose == self.verbose,
            r.max_payload_size == self.max_payload_size,
            r.enable_k8s_discovery == self.enable_k8s_discovery,
            r.k8s_discovery_config is Some == self.enable_k8s_discovery,
            r.k8s_discovery_config matches Some(c) ==> {
                &&& c.label_selector@ == self.k8s_label_selector@
                &&& c.port_name.deep_view() == self.k8s_port_name.deep_view()
                &&& c.protocol@ == self.k8s_protocol@
                &&& c.worker_path@ == self.k8s_worker_path@
            },
    {
        let k8s = if self.enable_k8s_discovery {
            let port_name = match &self.k8s_port_name {
                Some(n) => Some(n.clone()),
                None => None,
            };
            Some(
                K8sDiscoveryConfig {
                    label_selector: self.k8s_label_selector.clone(),
                    port_name,
                    protocol: self.k8s_protocol.clone(),
                    worker_path: self.k8s_worker_path.clone(),
                },
            )
        } else {
            None
        };
        let urls = clone_urls(&self.worker_urls);
        ServerConfig {
            host: self.host.clone(),
            port: self.port,
            worker_urls: urls,
            policy_config: self.policy_config(),
            verbose: self.verbose,
            max_payload_size: self.max_payload_size,
            enable_k8s_discovery: self.enable_k8s_discovery,
            k8s_discovery_config: k8s,
        }
    }
}

/// Why a configuration cannot be used.
#[derive(Debug, Clone, Copy, PartialEq, Eq, Structural)]
pub enum ConfigError {
    /// No worker is given and discovery, which could find some, is off.
    NoWorkers,
    /// A worker URL is malformed or given twice.
    BadWorkerUrl(AddError),
}

/// Why a configuration cannot be used, in words.
pub open spec fn config_error_text(e: ConfigError) -> Seq<char> {
    match e {
        ConfigError::NoWorkers => "No worker is given and discovery is off"@,
        ConfigError::BadWorkerUrl(cause) => reason_text(cause, "the initial workers"@),
    }
}

impl ConfigError {
    /// The error in words.
    pub fn message(&self) -> (r: String)
        ensures
            r@ == config_error_text(*self),
    {
        match self {
            ConfigError::NoWorkers => "No worker is given and discovery is off".to_owned(),
            ConfigError::BadWorkerUrl(cause) => describe(*cause, "the initial workers"),
        }
    }
}

/// What stands against starting the server with the given workers.
pub open spec fn config_objection(worker_urls: Seq<Seq<char>>, discovery: bool) -> Option<ConfigError> {
    if worker_urls.len() == 0 && !discovery {
        Some(ConfigError::NoWorkers)
    } else {
        match first_objection(worker_urls, worker_urls.len()) {
            Some(e) => Some(ConfigError::BadWorkerUrl(e)),
            None => None,
        }
    }
}

/// The routing state that the request handlers share.
pub struct AppState {
    pub router: Router,
}

impl AppState {
    /// The state for the workers `worker_urls`, which are ready from the
    /// start, under the given policy. Fails, with the reason in words, on
    /// the first URL that is malformed or given twice.
    pub fn new(worker_urls: Vec<String>, policy_config: PolicyConfig) -> (r: Result<AppState, String>)
        ensures
            match r {
                Ok(state) => {
                    &&& first_objection(worker_urls.deep_view(), worker_urls@.len()) is None
                    &&& state.router.wf()
                    &&& state.router.policy() == policy_config
                    &&& state.router@.workers == worker_urls.deep_view()
                    &&& state.router@.turn == 0
                    &&& state.router@.tree == blank()
                    &&& state.router.tree_size() == 0
                    &&& state.router.tree_limit() == tree_limit_of(policy_config)
                },
                Err(msg) => first_objection(worker_urls.deep_view(), worker_urls@.len()) matches Some(e) && msg@
                    == reason_text(e, "the initial workers"@),
            },
    {
        match Router::new(&worker_urls, policy_config) {
            Ok(router) => Ok(AppState { router }),
            Err(e) => Err(describe(e, "the initial workers")),
        }
    }
}

/// What startup sets up before it serves.
pub struct StartupPlan {
    /// The routing state.
    pub state: AppState,
    /// Whether the log shows debug messages.
    pub debug_log: bool,
    /// The payload limit in whole mebibytes, as the log shows it.
    pub payload_mebibytes: usize,
    /// The configuration of discovery, where discovery is to run.
    pub discovery: Option<K8sDiscoveryConfig>,
}

/// What startup sets up for `config`, or why the server cannot start: with
/// no worker and no discovery, or with a worker URL that is malformed or
/// given twice. Discovery runs where it is enabled and configured.
pub fn startup_plan(config: ServerConfig) -> (r: Result<StartupPlan, ConfigError>)
    ensures
        match r {
            Ok(plan) => {
                &&& config_objection(config.worker_urls.deep_view(), config.enable_k8s_discovery) is None
                &&& plan.state.router.wf()
                &&& plan.state.router.policy() == config.policy_config
                &&& plan.state.router@.workers == config.worker_urls.deep_view()
                &&& plan.state.router@.turn == 0
                &&& plan.state.router@.tree == blank()
                &&& plan.state.router.tree_size() == 0
                &&& plan.state.router.tree_limit() == tree_limit_of(config.policy_config)
                &&& plan.debug_log == config.verbose
                &&& plan.payload_mebibytes == config.max_payload_size / 1_048_576
                &&& plan.discovery == if config.enable_k8s_discovery {
                    config.k8s_discovery_config
                } else {
                    None
                }
            },
            Err(e) => config_objection(config.worker_urls.deep_view(), config.enable_k8s_discovery) == Some(e),
        },
{
    if config.worker_urls.len() == 0 && !config.enable_k8s_discovery {
        return Err(ConfigError::NoWorkers);
    }
    match Router::new(&config.worker_urls, config.policy_config) {
        Err(e) => Err(ConfigError::BadWorkerUrl(e)),
        Ok(router) => {
            let discovery = if config.enable_k8s_discovery {
                config.k8s_discovery_config
            } else {
                None
            };
            Ok(
                StartupPlan {
                    state: AppState { router },
                    debug_log: config.verbose,
                    payload_mebibytes: config.max_payload_size / 1_048_576,
                    discovery,
                },
            )
        },
    }
}

} // verus!

use scp::circuit_breaker::{CircuitBreaker, CircuitState};
use scp::lifecycle::{LifecycleInfo, ServerState};

#[test]
fn test_circuit_breaker_opens_after_threshold() {
    let mut cb = CircuitBreaker::new(3, 30);
    assert!(!cb.is_open());
    cb.call_failed();
    cb.call_failed();
    assert!(!cb.is_open());
    cb.call_failed();
    assert!(cb.is_open());
}

#[test]
fn test_circuit_breaker_closes_on_success() {
    let mut cb = CircuitBreaker::new(3, 30);
    cb.call_failed();
    cb.call_failed();
    cb.call_failed();
    assert!(cb.is_open());
    cb.call_succeeded();
    assert!(!cb.is_open());
    assert_eq!(cb.get_state(), CircuitState::Closed);
}

#[test]
fn test_circuit_breaker_half_open_after_timeout() {
    let mut cb = CircuitBreaker::new(3, 0);
    cb.call_failed();
    cb.call_failed();
    cb.call_failed();
    assert!(!cb.is_open());
    assert_eq!(cb.get_state(), CircuitState::HalfOpen);
}

#[test]
fn test_circuit_breaker_half_open_failure_reopens() {
    let mut cb = CircuitBreaker::new(3, 0);
    cb.call_failed();
    cb.call_failed();
    cb.call_failed();
    assert!(!cb.is_open());
    assert_eq!(cb.get_state(), CircuitState::HalfOpen);
    cb.call_failed();
    match cb.get_state() {
        CircuitState::Open { .. } => {}
        _ => panic!("Expected Open state after probe failure"),
    }
}

#[test]
fn an_open_circuit_waits_for_its_timeout() {
    let mut cb = CircuitBreaker::new(1, 3600);
    cb.call_failed();
    assert!(cb.is_open_after(false));
    assert!(matches!(cb.get_state(), CircuitState::Open { .. }));
    assert!(!cb.is_open_after(true));
    assert_eq!(cb.get_state(), CircuitState::HalfOpen);
}

#[test]
fn test_server_state_is_healthy() {
    assert!(ServerState::Warm.is_healthy());
    assert!(ServerState::Hot.is_healthy());
    assert!(!ServerState::Cold.is_healthy());
    assert!(!ServerState::Failed.is_healthy());
}

#[test]
fn test_server_state_is_available() {
    assert!(ServerState::Warm.is_available());
    assert!(ServerState::Hot.is_available());
    assert!(ServerState::Cold.is_available());
    assert!(!ServerState::Disabled.is_available());
    assert!(!ServerState::Failed.is_available());
}

#[test]
fn test_lifecycle_info_transition() {
    let mut info = LifecycleInfo::new();
    assert_eq!(info.state, ServerState::Cold);

    info.transition_to(ServerState::Starting);
    assert_eq!(info.state, ServerState::Starting);

    info.transition_to(ServerState::Warm);
    assert_eq!(info.state, ServerState::Warm);
    assert_eq!(info.failure_count, 0);
}

#[test]
fn test_lifecycle_info_record_failure() {
    let mut info = LifecycleInfo::new();
    info.record_failure("Connection refused".to_string());
    assert_eq!(info.failure_count, 1);
    assert!(info.last_error.is_some());
    assert!(info.last_ping.is_some());
}

#[test]
fn warming_up_clears_failures() {
    let mut info = LifecycleInfo::new();
    info.record_failure("boom".to_string());
    info.transition_to(ServerState::Starting);
    assert_eq!(info.failure_count, 1);
    info.transition_to(ServerState::Hot);
    assert_eq!(info.failure_count, 0);
    assert!(info.last_error.is_none());
    info.record_failure("again".to_string());
    info.record_success();
    assert_eq!(info.failure_count, 0);
    assert_eq!(ServerState::Draining.to_display_string(), "draining");
    assert!(!ServerState::Starting.can_accept_requests());
}

#[test]
fn test_shared_pool_creation() {
    // The shared pool only carries a transport; there is nothing to build
    // without a backend process.
}

use scp::config::{ServerConfig, TimeoutConfig};
use scp::supervisor::{
    after_crash, after_failed_respawn, after_respawn, after_start, check_new_server, env_placeholder_names,
    expand_env_placeholders, next_env_placeholder, pool_access, start_kind, ManagerError, RecoveryStep, StartKind,
};
use std::collections::HashMap;

fn config(transport: &str, command: Option<&str>, url: Option<&str>) -> ServerConfig {
    ServerConfig {
        name: "test".to_string(),
        transport: transport.to_string(),
        command: command.map(|c| c.to_string()),
        args: vec![],
        url: url.map(|u| u.to_string()),
        sharing: "shared".to_string(),
        pool_size: None,
        priority: 100,
        tags: vec![],
        enabled: true,
        timeouts: TimeoutConfig { connect_secs: 10, request_secs: 30, health_check_secs: 5 },
        env: HashMap::new(),
        headers: HashMap::new(),
    }
}

fn message(r: Result<(), ManagerError>) -> String {
    match r {
        Ok(()) => String::new(),
        Err(e) => e.message(),
    }
}

#[test]
fn new_servers_are_checked_before_they_are_added() {
    assert!(check_new_server(false, &config("stdio", Some("echo"), None)).is_ok());
    assert!(check_new_server(false, &config("sse", None, Some("http://x"))).is_ok());
    assert_eq!(message(check_new_server(true, &config("stdio", Some("echo"), None))), "Server already exists: test");
    assert_eq!(
        message(check_new_server(false, &config("stdio", None, None))),
        "Invalid configuration: stdio transport requires command"
    );
    assert_eq!(
        message(check_new_server(false, &config("streamable_http", None, None))),
        "Invalid configuration: streamable_http transport requires url"
    );
    assert_eq!(
        message(check_new_server(false, &config("carrier-pigeon", None, None))),
        "Invalid configuration: Unknown transport: carrier-pigeon"
    );
}

#[test]
fn servers_start_by_spawning_or_not() {
    assert!(matches!(start_kind(&config("stdio", Some("echo"), None)), Ok(StartKind::SpawnStdio)));
    assert!(matches!(start_kind(&config("sse", None, Some("http://x"))), Ok(StartKind::Http)));
    assert!(matches!(start_kind(&config("stdio", None, None)), Err(ManagerError::InvalidConfig(_))));

    let mut info = LifecycleInfo::new();
    info.transition_to(ServerState::Starting);
    after_start(&mut info, true);
    assert_eq!(info.state, ServerState::Warm);
    after_start(&mut info, false);
    assert_eq!(info.state, ServerState::Cold);
}

#[test]
fn pools_are_handed_out_only_when_available() {
    assert_eq!(message(pool_access("x", None, true)), "Server not found: x");
    assert_eq!(message(pool_access("x", Some(ServerState::Disabled), true)), "Server is disabled");
    assert_eq!(message(pool_access("x", Some(ServerState::Failed), true)), "Server is disabled");
    assert_eq!(message(pool_access("x", Some(ServerState::Warm), false)), "Internal error: Pool not initialized");
    assert!(pool_access("x", Some(ServerState::Warm), true).is_ok());
}

#[test]
fn crashed_servers_are_respawned_then_given_up() {
    let mut info = LifecycleInfo::new();
    info.transition_to(ServerState::Warm);
    assert_eq!(after_crash(&mut info, Some(ServerState::Warm), 2), RecoveryStep::Respawn(1));
    assert_eq!(info.failure_count, 1);
    assert_eq!(info.last_error.as_deref(), Some("receive_loop exited — server crashed"));

    assert_eq!(after_failed_respawn(&mut info, 1, 2, "no such file"), RecoveryStep::Respawn(2));
    assert_eq!(info.last_error.as_deref(), Some("Spawn attempt 1 failed: no such file"));
    assert_eq!(info.state, ServerState::Warm);

    assert_eq!(after_failed_respawn(&mut info, 2, 2, "no such file"), RecoveryStep::GiveUp);
    assert_eq!(info.state, ServerState::Disabled);
    assert_eq!(info.failure_count, 3);
}

#[test]
fn removed_or_stopped_servers_are_left_alone() {
    let mut info = LifecycleInfo::new();
    assert_eq!(after_crash(&mut info, None, 3), RecoveryStep::Stop);
    assert_eq!(after_crash(&mut info, Some(ServerState::Disabled), 3), RecoveryStep::Stop);
    assert_eq!(after_crash(&mut info, Some(ServerState::Draining), 3), RecoveryStep::Stop);
    assert_eq!(info.state, ServerState::Cold);
    assert_eq!(after_crash(&mut info, Some(ServerState::Cold), 0), RecoveryStep::GiveUp);
    assert_eq!(info.state, ServerState::Disabled);

    after_respawn(&mut info);
    assert_eq!(info.state, ServerState::Warm);
    assert_eq!(info.failure_count, 0);
    assert!(info.last_error.is_none());
}

fn expand(s: &str, env: &[(&str, &str)]) -> String {
    let values: Vec<Option<String>> = env_placeholder_names(s)
        .iter()
        .map(|name| env.iter().find(|(k, _)| *k == name.as_str()).map(|(_, v)| v.to_string()))
        .collect();
    expand_env_placeholders(s, &values)
}

#[test]
fn env_placeholders_are_expanded_left_to_right() {
    assert_eq!(next_env_placeholder("--token={env:TOKEN}"), Some((8, "TOKEN".to_string())));
    assert_eq!(next_env_placeholder("no placeholder"), None);
    assert_eq!(next_env_placeholder("{env:UNCLOSED"), None);
    assert_eq!(
        env_placeholder_names("{env:A}/{env:B}/{env:MISSING}"),
        vec!["A".to_string(), "B".to_string(), "MISSING".to_string()]
    );
    // An unset variable's placeholder is left as it is.
    assert_eq!(expand("{env:A}/{env:B}/{env:MISSING}", &[("A", "1"), ("B", "2")]), "1/2/{env:MISSING}");
    assert_eq!(expand("ünï {env:A}", &[("A", "x")]), "ünï x");
    assert_eq!(expand("{env:A}{env:A}", &[("A", "{env:A}")]), "{env:A}{env:A}");
    assert_eq!(expand("{env:UNCLOSED", &[]), "{env:UNCLOSED");
}

use scp::pool::{pick_worker, PoolError};

#[test]
fn requests_go_to_the_least_busy_worker() {
    assert_eq!(pick_worker(&vec![3, 1, 1, 2], 10).ok(), Some(1));
    assert_eq!(pick_worker(&vec![0], 1).ok(), Some(0));
    assert!(matches!(pick_worker(&vec![], 10), Err(PoolError::ServerNotAvailable)));
    match pick_worker(&vec![5, 5], 5) {
        Err(e) => assert_eq!(e.message(), "Internal error: Pool queue depth exceeded"),
        Ok(_) => panic!("a full queue refuses the request"),
    }
    assert_eq!(PoolError::Timeout.message(), "Request timeout");
}

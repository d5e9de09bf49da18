use scp::config::{
    default_admin_port, default_budget_strategy, default_chunking_strategy, default_embedding_dimension,
    default_embedding_endpoint, default_embedding_model, default_enabled, default_fanout_timeout_secs,
    default_filter_enabled, default_listen_address, default_log_format, default_log_level, default_max_clients,
    default_max_requests_per_min, default_max_tools_exposed, default_max_tools_per_list, default_priority,
    default_progressive_disclosure_enabled, default_progressive_hint_text, default_relevance_engine,
    default_session_timeout_secs, default_short_circuit_below_tokens, default_tool_index_engine,
    default_transports, default_burst_size, default_connect_secs, default_request_secs,
    default_health_check_secs, validate_config, AdminConfig, Config, ConfigError, EmbeddingConfig, FilterConfig,
    HubConfig, HubDefaults, LoggingConfig, ServerConfig, TimeoutConfig, ToolIndexConfig,
};
use scp::interpolate::{env_var_references, interpolate_env_vars};
use scp::json::Json;
use scp::reload::diff_configs;
use scp::tool_call::{limit_response, response_text_of};
use std::collections::HashMap;

/// A configuration as a file with `[hub]`, `[hub.defaults]` (both budgets
/// given), `[admin]` (the port given) and the given servers reads: the
/// missing `[filter]`, `[tool_index]` and `[logging]` tables are empty.
fn base_config(listen_port: u16, admin_port: u16, servers: Vec<ServerConfig>) -> Config {
    Config {
        config_version: 1,
        hub: HubConfig {
            listen_address: default_listen_address(),
            listen_port,
            transports: default_transports(),
            max_clients: default_max_clients(),
            session_timeout_secs: default_session_timeout_secs(),
            defaults: HubDefaults {
                request_token_budget: 4000,
                session_token_budget: 32000,
                max_tools_exposed: default_max_tools_exposed(),
                fanout_timeout_secs: default_fanout_timeout_secs(),
                max_requests_per_min: default_max_requests_per_min(),
                burst_size: default_burst_size(),
            },
        },
        servers,
        filter: FilterConfig {
            enabled: false,
            budget_strategy: String::new(),
            chunking_strategy: String::new(),
            relevance_engine: String::new(),
            short_circuit_below_tokens: 0,
            progressive_disclosure_enabled: false,
            progressive_hint_text: String::new(),
            embedding: EmbeddingConfig { endpoint: String::new(), model: String::new(), dimension: 0 },
        },
        admin: AdminConfig { port: admin_port, auth_token: None },
        tool_index: ToolIndexConfig { engine: String::new(), max_tools_per_list: 0, always_include: vec![] },
        logging: LoggingConfig { level: String::new(), format: String::new(), file: None },
    }
}

/// The filter settings with every value at its default.
fn default_filter() -> FilterConfig {
    FilterConfig {
        enabled: default_filter_enabled(),
        budget_strategy: default_budget_strategy(),
        chunking_strategy: default_chunking_strategy(),
        relevance_engine: default_relevance_engine(),
        short_circuit_below_tokens: default_short_circuit_below_tokens(),
        progressive_disclosure_enabled: default_progressive_disclosure_enabled(),
        progressive_hint_text: default_progressive_hint_text(),
        embedding: EmbeddingConfig {
            endpoint: default_embedding_endpoint(),
            model: default_embedding_model(),
            dimension: default_embedding_dimension(),
        },
    }
}

/// A server as a `[[servers]]` table with name, transport, command, no
/// arguments and a sharing strategy gives it (no `timeouts` table: the
/// default timeouts).
fn listed_server(name: &str, transport: &str, sharing: &str) -> ServerConfig {
    ServerConfig {
        name: name.to_string(),
        transport: transport.to_string(),
        command: Some("echo".to_string()),
        args: vec![],
        url: None,
        sharing: sharing.to_string(),
        pool_size: None,
        priority: default_priority(),
        tags: vec![],
        enabled: default_enabled(),
        timeouts: TimeoutConfig {
            connect_secs: default_connect_secs(),
            request_secs: default_request_secs(),
            health_check_secs: default_health_check_secs(),
        },
        env: HashMap::new(),
        headers: HashMap::new(),
    }
}

#[test]
fn test_validation_duplicate_servers() {
    let config = base_config(
        3100,
        3101,
        vec![listed_server("server1", "stdio", "shared"), listed_server("server1", "stdio", "shared")],
    );
    let result = validate_config(&config);
    assert!(result.is_err());
    match result {
        Err(ConfigError::MultipleErrors(v)) => assert!(v.contains(&"Duplicate server name: server1".to_string())),
        _ => panic!("several rules fail"),
    }
    let mut fixed = config;
    fixed.filter = default_filter();
    match validate_config(&fixed) {
        Err(ConfigError::Validation(m)) => assert_eq!(m, "Duplicate server name: server1"),
        _ => panic!("one rule fails"),
    }
}

#[test]
fn test_validation_invalid_transport() {
    let config = base_config(3100, 3101, vec![listed_server("server1", "invalid", "shared")]);
    let result = validate_config(&config);
    assert!(result.is_err());
    let mut fixed = config;
    fixed.filter = default_filter();
    match validate_config(&fixed) {
        Err(ConfigError::Validation(m)) => assert_eq!(m, "Invalid transport for server server1: invalid"),
        _ => panic!("one rule fails"),
    }
}

#[test]
fn a_default_configuration_passes_validation() {
    let mut config = base_config(3100, 3101, vec![]);
    config.filter = default_filter();
    assert!(validate_config(&config).is_ok());
    assert_eq!(default_admin_port(), 3101);
}

#[test]
fn several_failed_rules_are_reported_in_order() {
    let mut config = base_config(0, 0, vec![listed_server("s", "sse", "weird")]);
    config.filter = default_filter();
    config.filter.relevance_engine = "magic".to_string();
    match validate_config(&config) {
        Err(ConfigError::MultipleErrors(v)) => assert_eq!(
            v,
            vec![
                "hub.listen_port must be > 0".to_string(),
                "admin.port must differ from hub.listen_port".to_string(),
                "Invalid sharing strategy for server s: weird".to_string(),
                "Server s with sse transport must have a url".to_string(),
                "Invalid relevance engine: magic".to_string(),
            ]
        ),
        _ => panic!("several rules fail"),
    }
}

/// Interpolates `content` with the variables in `env` set and all others unset.
fn interpolate_with(content: &str, env: &[(&str, &str)]) -> Result<String, ConfigError> {
    let refs = env_var_references(content).expect("the reference expression compiles");
    let values: Vec<Option<String>> = refs
        .iter()
        .map(|(_, name)| env.iter().find(|(k, _)| *k == name.as_str()).map(|(_, v)| v.to_string()))
        .collect();
    interpolate_env_vars(content, &refs, &values)
}

#[test]
fn test_env_var_interpolation() {
    let content = "test = \"${TEST_VAR}\"";
    let result = interpolate_with(content, &[("TEST_VAR", "test_value")]).expect("Failed to interpolate");
    assert_eq!(result, "test = \"test_value\"");
}

#[test]
fn test_missing_env_var() {
    let content = "test = \"${NONEXISTENT_VAR_XYZ}\"";
    let result = interpolate_with(content, &[]);
    assert!(result.is_err());
}

fn create_test_config(server_count: usize) -> Config {
    let mut servers = Vec::new();
    for i in 0..server_count {
        let mut s = listed_server(&format!("server{}", i), "stdio", "shared");
        s.priority = 100;
        servers.push(s);
    }
    let mut config = base_config(3100, 3101, servers);
    config.hub.transports = vec!["stdio".to_string()];
    config.hub.max_clients = 100;
    config.hub.session_timeout_secs = 3600;
    config.hub.defaults.max_tools_exposed = 20;
    config.hub.defaults.fanout_timeout_secs = 5;
    config.hub.defaults.max_requests_per_min = 100;
    config.hub.defaults.burst_size = 20;
    config
}

#[test]
fn test_diff_configs_added() {
    let old = create_test_config(1);
    let new = create_test_config(2);

    let result = diff_configs(&old, &new);
    assert_eq!(result.added.len(), 1);
    assert_eq!(result.removed.len(), 0);
}

#[test]
fn test_diff_configs_removed() {
    let old = create_test_config(2);
    let new = create_test_config(1);

    let result = diff_configs(&old, &new);
    assert_eq!(result.added.len(), 0);
    assert_eq!(result.removed.len(), 1);
}

fn to_value(j: &Json) -> serde_json::Value {
    match j {
        Json::Null => serde_json::Value::Null,
        Json::Bool(b) => serde_json::Value::Bool(*b),
        Json::Number(n) => serde_json::from_str(n).expect("a number"),
        Json::Str(s) => serde_json::Value::String(s.clone()),
        Json::Array(a) => serde_json::Value::Array(a.iter().map(to_value).collect()),
        Json::Object(o) => {
            let mut m = serde_json::Map::new();
            for (k, v) in o {
                m.insert(k.clone(), to_value(v));
            }
            serde_json::Value::Object(m)
        }
    }
}

fn text_response(text: &str) -> Json {
    Json::Object(vec![(
        "result".to_string(),
        Json::Object(vec![(
            "content".to_string(),
            Json::Array(vec![Json::Object(vec![
                ("type".to_string(), Json::Str("text".to_string())),
                ("text".to_string(), Json::Str(text.to_string())),
            ])]),
        )]),
    )])
}

/// The response limit as the router applies it.
fn maybe_truncate_response(limit: Option<usize>, response: Json) -> Json {
    let serialized_len = to_value(&response).to_string().len();
    limit_response(response, limit, serialized_len)
}

#[test]
fn test_response_truncated_when_exceeds_limit() {
    let large_text = "x".repeat(200);
    let response = text_response(&large_text);

    let truncated = maybe_truncate_response(Some(100), response);
    let text = response_text_of(&truncated).expect("text field missing");

    assert!(text.contains("[Response truncated:"), "Expected truncation notice, got: {text}");
    assert!(
        to_value(&truncated).to_string().len() < 200 + 300,
        "Response should be significantly smaller than original"
    );
}

#[test]
fn test_response_not_truncated_when_under_limit() {
    let small_text = "hello world";
    let response = text_response(small_text);

    let result = maybe_truncate_response(Some(1_048_576), response);
    let text = response_text_of(&result).expect("text field missing");

    assert_eq!(text, small_text, "Small response must not be truncated");
    assert!(!text.contains("[Response truncated:"), "No truncation notice expected");
}

#[test]
fn oversized_text_keeps_what_fits_with_the_notice() {
    let response = text_response(&"y".repeat(300));
    let serialized_len = to_value(&response).to_string().len();
    let limited = limit_response(response, Some(120), serialized_len);
    let notice = format!("\n\n[Response truncated: {} bytes exceeded 120 bytes limit]", serialized_len);
    let expected = format!("{}{}", "y".repeat(120 - notice.len()), notice);
    assert_eq!(response_text_of(&limited).unwrap(), &expected);
    assert_eq!(response_text_of(&limited).unwrap().len(), 120);
    // Without a limit, or with no text at the path, nothing changes.
    let other = Json::Object(vec![("result".to_string(), Json::Str("plain".to_string()))]);
    assert_eq!(limit_response(text_response("z"), None, 10_000), text_response("z"));
    assert_eq!(
        limit_response(Json::Object(vec![("result".to_string(), Json::Str("plain".to_string()))]), Some(1), 50),
        other
    );
}

#[test]
fn a_cut_inside_a_character_goes_back_to_its_start() {
    // Each 'é' takes two bytes; an odd number of kept bytes falls inside one.
    let response = text_response(&"é".repeat(100));
    let len = to_value(&response).to_string().len();
    for limit in 60..70usize {
        let notice = format!("\n\n[Response truncated: {} bytes exceeded {} bytes limit]", len, limit);
        let kept = limit - notice.len();
        let limited = limit_response(text_response(&"é".repeat(100)), Some(limit), len);
        let expected = format!("{}{}", "é".repeat(kept / 2), notice);
        assert_eq!(response_text_of(&limited).unwrap(), &expected);
        assert!(response_text_of(&limited).unwrap().len() <= limit);
    }
}

#[test]
fn defaults_are_the_documented_values() {
    assert_eq!(default_listen_address(), "127.0.0.1");
    assert_eq!(default_transports(), vec!["stdio".to_string()]);
    assert_eq!(default_max_clients(), 100);
    assert_eq!(default_session_timeout_secs(), 3600);
    assert_eq!(default_max_tools_exposed(), 20);
    assert_eq!(default_fanout_timeout_secs(), 30);
    assert_eq!(default_max_requests_per_min(), 100);
    assert_eq!(default_burst_size(), 20);
    assert_eq!(default_priority(), 100);
    assert!(default_enabled());
    assert_eq!((default_connect_secs(), default_request_secs(), default_health_check_secs()), (10, 30, 5));
    assert_eq!(default_embedding_endpoint(), "http://localhost:11434");
    assert_eq!(default_embedding_model(), "nomic-embed-text");
    assert_eq!(default_embedding_dimension(), 1536);
    assert_eq!(default_short_circuit_below_tokens(), 500);
    assert!(default_progressive_disclosure_enabled());
    assert_eq!(default_progressive_hint_text(), "[Content truncated for brevity]");
    assert!(default_filter_enabled());
    assert_eq!(default_budget_strategy(), "truncate");
    assert_eq!(default_chunking_strategy(), "paragraph");
    assert_eq!(default_relevance_engine(), "embedding");
    assert_eq!(default_tool_index_engine(), "embedding");
    assert_eq!(default_max_tools_per_list(), 20);
    assert_eq!(default_log_level(), "info");
    assert_eq!(default_log_format(), "pretty");
}

use scp::admin::{redact_headers, ServerStatus, ServerStatusResponse};
use scp::lifecycle::ServerState;
use scp::numfmt::u64_to_decimal;
use scp::session::{rate_limit_reset_at, retry_after_secs, ChunkCache, RateLimiter};
use scp::chunker::Chunk;
use std::time::{SystemTime, UNIX_EPOCH};

fn headers(pairs: &[(&str, &str)]) -> Vec<(String, String)> {
    pairs.iter().map(|(k, v)| (k.to_string(), v.to_string())).collect()
}

fn value<'a>(h: &'a [(String, String)], key: &str) -> &'a str {
    h.iter().find(|(k, _)| k == key).map(|(_, v)| v.as_str()).unwrap()
}

#[test]
fn test_redact_headers_sensitive_keys() {
    let h = headers(&[
        ("Authorization", "Bearer secret-token"),
        ("X-Api-Key", "my-api-key"),
        ("X-Token", "abc123"),
        ("Content-Type", "application/json"),
        ("Accept", "text/plain"),
    ]);
    let redacted = redact_headers(&h);
    assert_eq!(value(&redacted, "Authorization"), "[REDACTED]");
    assert_eq!(value(&redacted, "X-Api-Key"), "[REDACTED]");
    assert_eq!(value(&redacted, "X-Token"), "[REDACTED]");
    assert_eq!(value(&redacted, "Content-Type"), "application/json");
    assert_eq!(value(&redacted, "Accept"), "text/plain");
}

#[test]
fn test_redact_headers_case_insensitive() {
    let h = headers(&[
        ("AUTHORIZATION", "Bearer token"),
        ("x-api-key", "key-value"),
        ("My-Secret-Header", "shh"),
        ("my-password", "p@ss"),
    ]);
    let redacted = redact_headers(&h);
    assert_eq!(value(&redacted, "AUTHORIZATION"), "[REDACTED]");
    assert_eq!(value(&redacted, "x-api-key"), "[REDACTED]");
    assert_eq!(value(&redacted, "My-Secret-Header"), "[REDACTED]");
    assert_eq!(value(&redacted, "my-password"), "[REDACTED]");
}

#[test]
fn test_redact_headers_empty() {
    let h: Vec<(String, String)> = Vec::new();
    let redacted = redact_headers(&h);
    assert!(redacted.is_empty());
}

#[test]
fn test_redact_headers_no_sensitive() {
    let h = headers(&[("Content-Type", "application/json"), ("Accept", "*/*"), ("User-Agent", "scp/1.0")]);
    let redacted = redact_headers(&h);
    assert_eq!(value(&redacted, "Content-Type"), "application/json");
    assert_eq!(value(&redacted, "Accept"), "*/*");
    assert_eq!(value(&redacted, "User-Agent"), "scp/1.0");
}

#[test]
fn redaction_keeps_order_and_names() {
    let h = headers(&[("b", "1"), ("Api-Token", "2"), ("a", "3")]);
    let redacted = redact_headers(&h);
    assert_eq!(redacted, headers(&[("b", "1"), ("Api-Token", "[REDACTED]"), ("a", "3")]));
}

#[test]
fn test_rate_limit_headers_present() {
    let remaining = 42u32;
    let header_value = u64_to_decimal(remaining as u64);
    assert_eq!(header_value, "42");

    let now = SystemTime::now().duration_since(UNIX_EPOCH).unwrap().as_secs();
    let reset = rate_limit_reset_at(now);
    assert!(reset > now);
}

#[test]
fn status_responses_name_the_state() {
    let status = ServerStatus { name: "fs".to_string(), state: ServerState::Warm, tool_count: 3, enabled: true };
    let r = ServerStatusResponse::from_status(status);
    assert_eq!(r.name, "fs");
    assert_eq!(r.state, "warm");
    assert_eq!(r.tool_count, 3);
    assert!(r.enabled);
    assert!(r.headers.is_empty());
}

#[test]
fn the_bucket_admits_its_limit_per_minute() {
    let mut limiter = RateLimiter::new(2);
    let now = std::time::Instant::now();
    assert!(limiter.check_at(false, now));
    assert!(limiter.check_at(false, now));
    assert!(!limiter.check_at(false, now));
    assert_eq!(limiter.remaining(), 0);
    assert!(limiter.check_at(true, now));
    assert_eq!(limiter.remaining(), 1);
    assert!(limiter.check());
}

#[test]
fn refused_clients_wait_for_the_rest_of_the_minute() {
    assert_eq!(retry_after_secs(0), 60);
    assert_eq!(retry_after_secs(45), 15);
    assert_eq!(retry_after_secs(60), 1);
    assert_eq!(retry_after_secs(61), 1);
    assert_eq!(retry_after_secs(u64::MAX), 1);
}

#[test]
fn cached_chunks_are_found_by_request_id() {
    let mut cache = ChunkCache::new();
    for i in 0..52 {
        cache.store(format!("req-{}", i), vec![Chunk::new(format!("c{}", i), 0)]);
    }
    assert!(cache.get_chunks("req-0").is_none());
    assert!(cache.get_chunks("req-1").is_none());
    assert_eq!(cache.get_chunks("req-2").unwrap()[0].text, "c2");
    assert_eq!(cache.get_chunks("req-51").unwrap()[0].text, "c51");
    cache.store("req-51".to_string(), vec![]);
    assert!(cache.get_chunks("req-51").unwrap().is_empty());
}

#[test]
fn storing_an_id_again_keeps_the_cache_within_fifty_entries() {
    let mut cache = ChunkCache::new();
    cache.store("a".to_string(), vec![Chunk::new("a1".to_string(), 0)]);
    cache.store("a".to_string(), vec![Chunk::new("a2".to_string(), 0)]);
    assert_eq!(cache.len(), 1);
    for i in 0..49 {
        cache.store(format!("r{}", i), vec![Chunk::new(format!("t{}", i), 0)]);
    }
    assert_eq!(cache.len(), 50);
    cache.store("c".to_string(), vec![]);
    assert_eq!(cache.len(), 50);
    assert!(cache.get_chunks("a").is_none());
    cache.store("d".to_string(), vec![]);
    assert_eq!(cache.len(), 50);
    assert!(cache.get_chunks("r0").is_none());
    assert!(cache.get_chunks("r1").is_some());
    // Storing an id again makes it the most recently stored.
    cache.store("r1".to_string(), vec![]);
    cache.store("e".to_string(), vec![]);
    assert_eq!(cache.len(), 50);
    assert!(cache.get_chunks("r1").is_some());
    assert!(cache.get_chunks("r2").is_none());
}

#[test]
fn cached_text_stays_within_ten_mebibytes() {
    let mut cache = ChunkCache::new();
    let four_mib = "x".repeat(4 * 1024 * 1024);
    for i in 0..3 {
        cache.store(format!("req-{}", i), vec![Chunk::new(four_mib.clone(), 0)]);
    }
    // Three entries of 4 MiB are over the limit: the oldest went.
    assert!(cache.get_chunks("req-0").is_none());
    assert!(cache.get_chunks("req-1").is_some());
    assert!(cache.get_chunks("req-2").is_some());
    // Text that alone is over the limit is not cached at all.
    cache.store("huge".to_string(), vec![Chunk::new("y".repeat(11 * 1024 * 1024), 0)]);
    assert!(cache.get_chunks("huge").is_none());
    assert!(cache.get_chunks("req-2").is_some());
}

use scp::config::ConfigError;
use scp::interpolate::{env_var_references, interpolate_env_vars};

fn interpolate(content: &str, env: &[(&str, &str)]) -> Result<String, ConfigError> {
    let refs = env_var_references(content).expect("the reference expression compiles");
    let values: Vec<Option<String>> = refs
        .iter()
        .map(|(_, name)| env.iter().find(|(k, _)| *k == name.as_str()).map(|(_, v)| v.to_string()))
        .collect();
    interpolate_env_vars(content, &refs, &values)
}

#[test]
fn references_are_found_in_order() {
    let refs = env_var_references("a = \"${HOME}\"\nb = \"${X_1}${HOME}\" c = \"${lower}\" d = \"$PATH\"").unwrap();
    let names: Vec<&str> = refs.iter().map(|(_, n)| n.as_str()).collect();
    assert_eq!(names, vec!["HOME", "X_1", "HOME"]);
    assert_eq!(refs[0].0, "${HOME}");
}

#[test]
fn references_are_replaced_by_values() {
    let out = interpolate("url = \"${HOST}:${PORT}\"\nagain = \"${HOST}\"", &[("HOST", "example.com"), ("PORT", "8080")]);
    assert_eq!(out.ok().as_deref(), Some("url = \"example.com:8080\"\nagain = \"example.com\""));
    assert_eq!(interpolate("no references", &[]).ok().as_deref(), Some("no references"));
}

#[test]
fn a_missing_variable_is_an_error() {
    match interpolate("token = \"${TOKEN}\" other = \"${ALSO_MISSING}\"", &[]) {
        Err(ConfigError::MissingEnvVar(name)) => assert_eq!(name, "TOKEN"),
        _ => panic!("the first missing variable is reported"),
    }
}

use scp::admin::{list_tool_infos, tool_info};
use scp::registry::{ToolEntry, ToolRegistry};

fn admin_tool(name: &str, description: &str) -> ToolEntry {
    ToolEntry {
        original_name: name.to_string(),
        qualified_name: String::new(),
        server_name: String::new(),
        description: Some(description.to_string()),
        input_schema: "{}".to_string(),
        tags: vec!["test".to_string()],
        call_count: 0,
    }
}

fn fs_registry(search_description: &str) -> ToolRegistry {
    let mut registry = ToolRegistry::new();
    registry.register_tools(
        "fs",
        vec![
            admin_tool("read_file", "Read a file from the filesystem"),
            admin_tool("write_file", "Write a file to the filesystem"),
            admin_tool("search", search_description),
        ],
    );
    registry
}

#[test]
fn test_list_tools_empty() {
    let registry = ToolRegistry::new();
    assert!(list_tool_infos(&registry.all_tools(), None).is_empty());
}

#[test]
fn test_list_tools_with_registry() {
    let registry = fs_registry("Search for files");
    let tools = list_tool_infos(&registry.all_tools(), None);
    assert_eq!(tools.len(), 3);
    assert!(tools.iter().any(|t| t.name == "read_file"));
    assert!(tools.iter().any(|t| t.name == "write_file"));
    assert!(tools.iter().any(|t| t.name == "search"));
    assert!(tools.iter().all(|t| t.server == "fs" && t.tags == vec!["test".to_string()]));
}

#[test]
fn test_list_tools_with_filter() {
    let registry = fs_registry("Search for documents");
    let tools = list_tool_infos(&registry.all_tools(), Some("file"));
    assert_eq!(tools.len(), 2);
    assert!(tools.iter().any(|t| t.name == "read_file"));
    assert!(tools.iter().any(|t| t.name == "write_file"));
    assert!(!tools.iter().any(|t| t.name == "search"));
}

#[test]
fn test_list_tools_filter_by_description() {
    let registry = fs_registry("Search for files");
    let tools = list_tool_infos(&registry.all_tools(), Some("filesystem"));
    assert_eq!(tools.len(), 2);
    assert!(tools.iter().any(|t| t.name == "read_file"));
    assert!(tools.iter().any(|t| t.name == "write_file"));
}

#[test]
fn test_list_tools_case_insensitive_filter() {
    let registry = fs_registry("Search for documents");
    let tools = list_tool_infos(&registry.all_tools(), Some("FILE"));
    assert_eq!(tools.len(), 2);
    assert!(tools.iter().any(|t| t.name == "read_file"));
    assert!(tools.iter().any(|t| t.name == "write_file"));
}

#[test]
fn listed_names_split_at_slash_or_dot() {
    let mut e = admin_tool("x", "d");
    e.qualified_name = "srv.tool.v2".to_string();
    let i = tool_info(&e);
    assert_eq!((i.server.as_str(), i.name.as_str()), ("srv", "tool.v2"));
    e.qualified_name = "plain".to_string();
    e.description = None;
    let i = tool_info(&e);
    assert_eq!((i.server.as_str(), i.name.as_str(), i.description.as_str()), ("", "plain", ""));
}

use scp::interpolate::Pattern;

#[test]
fn only_valid_expressions_compile() {
    assert!(Pattern::compile(r"\$\{([A-Z_][A-Z0-9_]*)\}").is_some());
    assert!(Pattern::compile("(unclosed").is_none());
    assert!(env_var_references("no references here").unwrap().is_empty());
}

use scp::admin::health_status;

#[test]
fn health_is_ok_degraded_or_error() {
    assert_eq!(health_status(0, 0), "ok");
    assert_eq!(health_status(3, 3), "ok");
    assert_eq!(health_status(3, 1), "degraded");
    assert_eq!(health_status(3, 0), "error");
}

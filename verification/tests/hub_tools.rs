use scp::registry::{ToolEntry, ToolRegistry};
use scp::routing::ExtensionTool;
use scp::tool_cache::ToolCache;
use scp::tool_call::{
    listing_entries, needs_truncation, plan_tool_call, truncated_response_text, truncation_keep,
    truncation_notice_text, ListedTool, ToolCallPlan,
};
use std::time::{Duration, Instant};

fn cached_tool() -> ToolEntry {
    ToolEntry {
        original_name: "test_tool".to_string(),
        qualified_name: "server1/test_tool".to_string(),
        server_name: "server1".to_string(),
        description: Some("Test tool".to_string()),
        input_schema: "{}".to_string(),
        tags: vec![],
        call_count: 0,
    }
}

#[test]
fn test_cache_hit() {
    let mut cache = ToolCache::new(300);
    let tools = vec![cached_tool()];

    cache.set("server1", tools);
    let cached = cache.get("server1");

    assert!(cached.is_some());
    let cached_tools = cached.unwrap();
    assert_eq!(cached_tools.len(), 1);
    assert_eq!(cached_tools[0].original_name, "test_tool");
}

#[test]
fn test_cache_miss_after_ttl() {
    let mut cache = ToolCache::new(0);
    cache.set("server1", vec![cached_tool()]);

    let start = Instant::now();
    while start.elapsed() < Duration::from_millis(10) {}

    let cached = cache.get("server1");
    assert!(cached.is_none());
}

#[test]
fn test_cache_invalidate() {
    let mut cache = ToolCache::new(300);
    cache.set("server1", vec![cached_tool()]);
    assert!(cache.get("server1").is_some());

    cache.invalidate("server1");
    assert!(cache.get("server1").is_none());
}

#[test]
fn test_cache_ttl_not_expired() {
    let mut cache = ToolCache::new(300);
    cache.set("server1", vec![cached_tool()]);
    let cached = cache.get("server1");

    assert!(cached.is_some());
    assert_eq!(cached.unwrap().len(), 1);
}

#[test]
fn test_cache_invalidate_all() {
    let mut cache = ToolCache::new(300);
    cache.set("server1", vec![cached_tool()]);
    cache.set("server2", vec![cached_tool()]);

    assert!(cache.get("server1").is_some());
    assert!(cache.get("server2").is_some());

    cache.invalidate_all();

    assert!(cache.get("server1").is_none());
    assert!(cache.get("server2").is_none());
}

#[test]
fn unknown_servers_miss_the_cache() {
    let cache = ToolCache::new(300);
    assert!(cache.get("nowhere").is_none());
}

fn tool(name: &str) -> ToolEntry {
    ToolEntry {
        original_name: name.to_string(),
        qualified_name: String::new(),
        server_name: String::new(),
        description: None,
        input_schema: "{}".to_string(),
        tags: vec![],
        call_count: 0,
    }
}

#[test]
fn calls_are_planned_in_order_of_precedence() {
    let mut registry = ToolRegistry::new();
    registry.register_tools("memory-global", vec![tool("search_memory")]);

    match plan_tool_call(&registry, "memory-global/search_memory") {
        ToolCallPlan::Direct { server, tool } => {
            assert_eq!(server, "memory-global");
            assert_eq!(tool, "search_memory");
        },
        _ => panic!("qualified names go straight to their server"),
    }
    match plan_tool_call(&registry, "legacy.search") {
        ToolCallPlan::Direct { server, tool } => {
            assert_eq!(server, "legacy");
            assert_eq!(tool, "search");
        },
        _ => panic!("dot-qualified names go straight to their server"),
    }
    assert!(matches!(plan_tool_call(&registry, "scp_budget"), ToolCallPlan::Extension(ExtensionTool::Budget)));
    match plan_tool_call(&registry, "search_memory") {
        ToolCallPlan::Registered { server, tool } => {
            assert_eq!(server, "memory-global");
            assert_eq!(tool, "search_memory");
        },
        _ => panic!("bare names resolve through the registry"),
    }
    match plan_tool_call(&registry, "nonexistent_tool") {
        ToolCallPlan::NotFound { total, sample } => {
            assert_eq!(total, 1);
            assert_eq!(sample, vec!["memory-global/search_memory".to_string()]);
        },
        _ => panic!("unknown names are not found"),
    }
}

#[test]
fn not_found_samples_at_most_ten_names() {
    let mut registry = ToolRegistry::new();
    let names: Vec<String> = (0..12).map(|i| format!("t{}", i)).collect();
    registry.register_tools("s", names.iter().map(|n| tool(n)).collect());
    match plan_tool_call(&registry, "missing") {
        ToolCallPlan::NotFound { total, sample } => {
            assert_eq!(total, 12);
            assert_eq!(sample.len(), 10);
        },
        _ => panic!("unknown names are not found"),
    }
}

#[test]
fn listings_become_registry_entries() {
    let listed = vec![
        ListedTool {
            name: Some("read".to_string()),
            description: Some("reads".to_string()),
            input_schema: Some("{\"type\":\"object\"}".to_string()),
        },
        ListedTool { name: None, description: Some("nameless".to_string()), input_schema: None },
        ListedTool { name: Some("write".to_string()), description: None, input_schema: None },
    ];
    let entries = listing_entries("fs", listed);
    assert_eq!(entries.len(), 2);
    assert_eq!(entries[0].qualified_name, "fs/read");
    assert_eq!(entries[0].server_name, "fs");
    assert_eq!(entries[0].description.as_deref(), Some("reads"));
    assert_eq!(entries[0].input_schema, "{\"type\":\"object\"}");
    assert_eq!(entries[1].original_name, "write");
    assert_eq!(entries[1].input_schema, "{}");
    assert!(entries[1].tags.is_empty());
    assert_eq!(entries[1].call_count, 0);
}

#[test]
fn oversized_responses_are_cut_with_a_notice() {
    assert!(!needs_truncation(None, 10_000));
    assert!(!needs_truncation(Some(100), 100));
    assert!(needs_truncation(Some(100), 101));

    let notice = truncation_notice_text(250, 100);
    assert_eq!(notice, "\n\n[Response truncated: 250 bytes exceeded 100 bytes limit]");
    assert_eq!(truncation_keep(250, 100), 100 - notice.len());
    assert_eq!(truncation_keep(250, 10), 0);

    let text = "x".repeat(200);
    let cut = truncated_response_text(&text, 250, 100);
    assert_eq!(cut, format!("{}{}", "x".repeat(100 - notice.len()), notice));
    assert!(cut.contains("[Response truncated:"));

    let short = truncated_response_text("hi", 250, 100);
    assert_eq!(short, format!("hi{}", notice));
}

#[test]
fn a_stored_listing_is_given_unless_expired() {
    let mut cache = ToolCache::new(300);
    assert!(cache.listing("server1", false).is_none());
    cache.set("server1", vec![cached_tool()]);
    let fresh = cache.listing("server1", false).expect("stored and fresh");
    assert_eq!(fresh[0].qualified_name, "server1/test_tool");
    assert!(cache.listing("server1", true).is_none());
    assert!(cache.listing("server2", false).is_none());
}

#[test]
fn a_zero_ttl_entry_expires() {
    let entry = scp::tool_cache::CacheEntry { tools: vec![], fetched_at: Instant::now() - Duration::from_secs(5) };
    assert!(entry.is_expired(1));
    assert!(!entry.is_expired(3600));
}

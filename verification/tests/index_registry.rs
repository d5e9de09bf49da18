use scp::registry::{RegistryError, ToolEntry, ToolRegistry};

fn create_test_tool(name: &str) -> ToolEntry {
    ToolEntry {
        original_name: name.to_string(),
        qualified_name: String::new(),
        server_name: String::new(),
        description: Some(format!("Test tool: {}", name)),
        input_schema: "{}".to_string(),
        tags: vec![],
        call_count: 0,
    }
}

#[test]
fn test_registry_creation() {
    let registry = ToolRegistry::new();
    assert_eq!(registry.tool_count(), 0);
    assert_eq!(registry.server_count(), 0);
}

#[test]
fn test_register_tools() {
    let mut registry = ToolRegistry::new();
    let tools = vec![create_test_tool("search"), create_test_tool("index")];

    registry.register_tools("server1", tools);

    assert_eq!(registry.tool_count(), 2);
    assert_eq!(registry.server_count(), 1);

    assert!(registry.lookup("server1/search").is_some());
    assert!(registry.lookup("server1/index").is_some());

    assert!(registry.lookup("search").is_some());
    assert!(registry.lookup("index").is_some());
}

#[test]
fn test_collision_detection() {
    let mut registry = ToolRegistry::new();

    let tools1 = vec![create_test_tool("search")];
    registry.register_tools("server1", tools1);

    let tools2 = vec![create_test_tool("search")];
    registry.register_tools("server2", tools2);

    assert!(registry.lookup("server1/search").is_some());
    assert!(registry.lookup("server2/search").is_some());

    assert!(registry.lookup("search").is_none());
}

#[test]
fn test_unregister_server() {
    let mut registry = ToolRegistry::new();

    let tools = vec![create_test_tool("search")];
    registry.register_tools("server1", tools);

    assert_eq!(registry.tool_count(), 1);

    registry.unregister_server("server1");

    assert_eq!(registry.tool_count(), 0);
    assert_eq!(registry.server_count(), 0);
}

#[test]
fn test_strip_prefix() {
    assert_eq!(ToolRegistry::strip_prefix("server/tool"), "tool");
    assert_eq!(ToolRegistry::strip_prefix("tool"), "tool");
    assert_eq!(ToolRegistry::strip_prefix("a/b/c"), "b/c");
}

#[test]
fn test_list_tools_for_server() {
    let mut registry = ToolRegistry::new();

    let tools1 = vec![create_test_tool("search"), create_test_tool("index")];
    registry.register_tools("server1", tools1);

    let tools2 = vec![create_test_tool("read")];
    registry.register_tools("server2", tools2);

    let server1_tools = registry.list_tools_for_server("server1");
    assert_eq!(server1_tools.len(), 2);

    let server2_tools = registry.list_tools_for_server("server2");
    assert_eq!(server2_tools.len(), 1);
}

#[test]
fn test_rebuild_for_server_replaces_tools() {
    let mut registry = ToolRegistry::new();

    let initial_tools = vec![
        create_test_tool("search"),
        create_test_tool("index"),
        create_test_tool("delete"),
    ];
    registry.register_tools("serverA", initial_tools);
    assert_eq!(registry.tool_count(), 3);

    let new_tools = vec![create_test_tool("search"), create_test_tool("query")];
    registry.rebuild_for_server("serverA", "serverA", new_tools);

    assert_eq!(registry.tool_count(), 2);
    assert!(registry.lookup("serverA/search").is_some());
    assert!(registry.lookup("serverA/query").is_some());
    assert!(registry.lookup("serverA/index").is_none());
    assert!(registry.lookup("serverA/delete").is_none());

    let server_tools = registry.list_tools_for_server("serverA");
    assert_eq!(server_tools.len(), 2);
}

#[test]
fn test_qualified_names_are_prefixed_with_server() {
    let mut registry = ToolRegistry::new();
    let tools = vec![create_test_tool("search_memory"), create_test_tool("add_memory")];
    registry.register_tools("memory-global", tools);

    let entry = registry.lookup("memory-global/search_memory").unwrap();
    assert_eq!(entry.qualified_name, "memory-global/search_memory");
    assert_eq!(entry.server_name, "memory-global");
    assert_eq!(entry.original_name, "search_memory");

    let entry2 = registry.lookup("memory-global/add_memory").unwrap();
    assert_eq!(entry2.qualified_name, "memory-global/add_memory");
}

#[test]
fn test_bare_name_alias_works_when_no_collision() {
    let mut registry = ToolRegistry::new();
    let tools = vec![create_test_tool("search_memory")];
    registry.register_tools("memory-global", tools);

    let entry = registry.lookup("search_memory");
    assert!(entry.is_some(), "bare name lookup should succeed when no collision");
    assert_eq!(entry.unwrap().qualified_name, "memory-global/search_memory");
}

#[test]
fn test_bare_name_alias_removed_on_collision() {
    let mut registry = ToolRegistry::new();

    let tools1 = vec![create_test_tool("search_memory")];
    registry.register_tools("server-a", tools1);

    let tools2 = vec![create_test_tool("search_memory")];
    registry.register_tools("server-b", tools2);

    assert!(registry.lookup("server-a/search_memory").is_some());
    assert!(registry.lookup("server-b/search_memory").is_some());

    assert!(
        registry.lookup("search_memory").is_none(),
        "bare name lookup must fail when two servers have the same tool name"
    );
}

#[test]
fn a_bare_name_stays_unresolved_for_a_third_server() {
    let mut registry = ToolRegistry::new();
    for server in ["server1", "server2", "server3"] {
        registry.register_tools(server, vec![create_test_tool("search")]);
    }
    assert!(registry.lookup("search").is_none());
    assert!(registry.lookup("server1/search").is_some());
    assert!(registry.lookup("server2/search").is_some());
    assert!(registry.lookup("server3/search").is_some());
}

#[test]
fn test_tools_list_returns_qualified_names() {
    let mut registry = ToolRegistry::new();
    let tools = vec![create_test_tool("read_file"), create_test_tool("write_file")];
    registry.register_tools("fs-server", tools);

    let all = registry.all_tools();
    for entry in &all {
        assert!(
            entry.qualified_name.starts_with("fs-server/"),
            "qualified_name '{}' should start with 'fs-server/'",
            entry.qualified_name
        );
        assert!(entry.qualified_name.contains('/'), "qualified_name should use '/' separator");
    }

    let names: Vec<&str> = all.iter().map(|e| e.qualified_name.as_str()).collect();
    assert!(names.contains(&"fs-server/read_file"));
    assert!(names.contains(&"fs-server/write_file"));
}

#[test]
fn unregistering_one_side_of_a_collision_restores_the_bare_name() {
    let mut registry = ToolRegistry::new();
    registry.register_tools("server-a", vec![create_test_tool("search")]);
    registry.register_tools("server-b", vec![create_test_tool("search")]);
    assert!(registry.lookup("search").is_none());

    registry.unregister_server("server-b");
    let entry = registry.lookup("search").expect("alias restored");
    assert_eq!(entry.qualified_name, "server-a/search");
    assert!(registry.lookup("server-b/search").is_none());
    assert_eq!(registry.server_count(), 1);
}

#[test]
fn display_aliases_resolve_prefixed_names() {
    let mut registry = ToolRegistry::new();
    registry.rebuild_for_server("ssh-proxy", "proxy", vec![create_test_tool("exec")]);
    // A distinct display prefix leaves bare names alone.
    assert!(registry.lookup("exec").is_none());
    assert!(registry.lookup("proxy/exec").is_none());

    registry.register_display_aliases("ssh-proxy", "proxy");
    let entry = registry.lookup("proxy/exec").expect("display alias");
    assert_eq!(entry.qualified_name, "ssh-proxy/exec");
    assert_eq!(entry.server_name, "ssh-proxy");

    // Rebuilding drops the server's display aliases.
    registry.rebuild_for_server("ssh-proxy", "proxy", vec![create_test_tool("exec")]);
    assert!(registry.lookup("proxy/exec").is_none());
}

#[test]
fn list_tools_caps_the_count_and_keeps_registration_order() {
    let mut registry = ToolRegistry::new();
    registry.register_tools("s", vec![create_test_tool("a"), create_test_tool("b"), create_test_tool("c")]);
    let two: Vec<&str> = registry.list_tools(2).iter().map(|e| e.qualified_name.as_str()).collect();
    assert_eq!(two, vec!["s/a", "s/b"]);
    assert_eq!(registry.list_tools(10).len(), 3);
    assert!(registry.list_tools_for_server("unknown").is_empty());
}

#[test]
fn registry_error_messages() {
    assert_eq!(RegistryError::ToolNotFound("x".to_string()).message(), "Tool not found: x");
    assert_eq!(RegistryError::ServerNotFound("s".to_string()).message(), "Server not found: s");
    assert_eq!(RegistryError::Collision("c".to_string()).message(), "Collision detected: c");
}

use scp::select::select_ranked;
use scp::usage::UsageTracker;

/// The registered tools ranked by how often the profile called them, most
/// called first, ties in listing order (the scores' usage part).
fn ranked_by_usage(registry: &ToolRegistry, usage: &UsageTracker, profile: &str) -> Vec<String> {
    let mut names: Vec<(u64, usize, String)> = registry
        .all_tools()
        .iter()
        .enumerate()
        .map(|(i, t)| (usage.call_count(profile, &t.qualified_name), i, t.qualified_name.clone()))
        .collect();
    names.sort_by(|a, b| b.0.cmp(&a.0).then(a.1.cmp(&b.1)));
    names.into_iter().map(|(_, _, n)| n).collect()
}

fn select_tools(registry: &ToolRegistry, usage: &UsageTracker, max: usize, always_include: &[String]) -> Vec<String> {
    let ranked = ranked_by_usage(registry, usage, "profile1");
    select_ranked(&ranked, max, &always_include.to_vec()).into_iter().map(|i| ranked[i].clone()).collect()
}

#[test]
fn test_select_tools_respects_max_limit() {
    let mut registry = ToolRegistry::new();
    let tools = vec![
        create_test_tool("tool1"),
        create_test_tool("tool2"),
        create_test_tool("tool3"),
        create_test_tool("tool4"),
    ];
    registry.register_tools("server1", tools);

    let selected = select_tools(&registry, &UsageTracker::new(), 2, &[]);
    assert_eq!(selected.len(), 2);
}

#[test]
fn test_select_tools_includes_always_include_tools() {
    let mut registry = ToolRegistry::new();
    let tools = vec![create_test_tool("tool1"), create_test_tool("tool2"), create_test_tool("tool3")];
    registry.register_tools("server1", tools);

    let mut usage = UsageTracker::new();
    usage.record_call("profile1", "server1/tool1");
    usage.record_call("profile1", "server1/tool2");

    let always_include = vec!["server1/tool3".to_string()];
    let selected = select_tools(&registry, &usage, 2, &always_include);

    let has_tool3 = selected.iter().any(|t| t == "server1/tool3");
    assert!(has_tool3, "tool3 should be in results. Got: {:?}", selected);
}

#[test]
fn test_select_tools_respects_max() {
    let mut registry = ToolRegistry::new();
    let tools: Vec<ToolEntry> = (1..=10).map(|i| create_test_tool(&format!("tool{}", i))).collect();
    registry.register_tools("server1", tools);

    let selected = select_tools(&registry, &UsageTracker::new(), 3, &[]);
    assert_eq!(selected.len(), 3, "Should return exactly 3 tools when max=3");
}

#[test]
fn always_included_tools_follow_the_best_and_are_not_repeated() {
    let ranked: Vec<String> = ["a", "b", "c", "d", "b"].iter().map(|s| s.to_string()).collect();
    let always: Vec<String> = ["a", "d", "x", "b", "d"].iter().map(|s| s.to_string()).collect();
    // "a" is already shown, "x" is not ranked, "d" is listed twice and added twice.
    assert_eq!(select_ranked(&ranked, 2, &always), vec![0, 1, 3, 3]);
    assert_eq!(select_ranked(&ranked, 10, &always), vec![0, 1, 2, 3, 4]);
    assert_eq!(select_ranked(&ranked, 0, &always), vec![0, 3, 1, 3]);
}

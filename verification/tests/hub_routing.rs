use scp::chunker::Chunk;
use scp::config::{ServerConfig, TimeoutConfig};
use scp::lifecycle::ServerState;
use scp::reload::diff_servers;
use scp::routing::{
    budget_status, call_backend_kind, extension_tool, fanout_backend, negotiated_protocol_version, page_chunks,
    qualified_tool_name, route_method, split_qualified_name, tool_not_found_message, BackendKind, ExtensionTool,
    RouteMethod,
};
use std::collections::HashMap;

#[test]
fn methods_go_to_their_handlers() {
    assert_eq!(route_method("ping"), RouteMethod::Ping);
    assert_eq!(route_method("tools/list"), RouteMethod::ToolsList);
    assert_eq!(route_method("tools/call"), RouteMethod::ToolsCall);
    assert_eq!(route_method("initialize"), RouteMethod::Initialize);
    assert_eq!(route_method("unknown/method"), RouteMethod::Unknown);
}

#[test]
fn qualified_names_split_at_the_first_slash_or_dot() {
    assert_eq!(
        split_qualified_name("memory-global/search_memory"),
        Some(("memory-global".to_string(), "search_memory".to_string()))
    );
    assert_eq!(split_qualified_name("a.b/c"), Some(("a.b".to_string(), "c".to_string())));
    assert_eq!(split_qualified_name("srv.tool.x"), Some(("srv".to_string(), "tool.x".to_string())));
    assert_eq!(split_qualified_name("plain"), None);
    assert_eq!(qualified_tool_name("fs", "read_file"), "fs/read_file");
}

#[test]
fn hub_tools_are_recognised() {
    assert_eq!(extension_tool("scp_info"), Some(ExtensionTool::Info));
    assert_eq!(extension_tool("scp_budget"), Some(ExtensionTool::Budget));
    assert_eq!(extension_tool("scp_budget_reset"), Some(ExtensionTool::BudgetReset));
    assert_eq!(extension_tool("scp_get_more"), Some(ExtensionTool::GetMore));
    assert_eq!(extension_tool("scp_search"), Some(ExtensionTool::Search));
    assert_eq!(extension_tool("read_file"), None);
    assert_eq!(budget_status(300, 4000), (300, 4000, 3700));
    assert_eq!(budget_status(5000, 4000), (5000, 4000, 0));
}

#[test]
fn pages_of_cached_chunks() {
    let chunks: Vec<Chunk> = (0..5).map(|i| Chunk::new(format!("c{}", i), i)).collect();
    assert_eq!(page_chunks(&chunks, 1, 2), (vec!["c1".to_string(), "c2".to_string()], 5, true));
    assert_eq!(page_chunks(&chunks, 3, 10), (vec!["c3".to_string(), "c4".to_string()], 5, false));
    assert_eq!(page_chunks(&chunks, 9, 1), (vec![], 5, false));
}

#[test]
fn backends_are_reached_by_url_first() {
    assert_eq!(fanout_backend(ServerState::Warm, true, true), Some(BackendKind::Http));
    assert_eq!(fanout_backend(ServerState::Hot, false, true), Some(BackendKind::Stdio));
    assert_eq!(fanout_backend(ServerState::Cold, true, true), None);
    assert_eq!(fanout_backend(ServerState::Warm, false, false), None);
    assert_eq!(call_backend_kind(false, true), Some(BackendKind::Stdio));
    assert_eq!(call_backend_kind(false, false), None);
}

#[test]
fn unknown_tools_get_a_hint() {
    assert_eq!(
        tool_not_found_message("x", 0, &vec![]),
        "Tool not found: x (registry is empty — call tools/list first to discover available tools)"
    );
    assert_eq!(tool_not_found_message("x", 1, &vec!["a/b".to_string()]), "Tool not found: x (1 tool registered: a/b)");
    assert_eq!(
        tool_not_found_message("x", 12, &vec!["a/b".to_string(), "c/d".to_string()]),
        "Tool not found: x (12 tools registered: a/b, c/d)"
    );
    assert_eq!(negotiated_protocol_version(None), "2024-11-05");
    assert_eq!(negotiated_protocol_version(Some("2025-03-26")), "2025-03-26");
}

fn server(name: &str, command: Option<&str>, enabled: bool) -> ServerConfig {
    ServerConfig {
        name: name.to_string(),
        transport: "stdio".to_string(),
        command: command.map(|c| c.to_string()),
        args: vec![],
        url: None,
        sharing: "shared".to_string(),
        pool_size: None,
        priority: 100,
        tags: vec![],
        enabled,
        timeouts: TimeoutConfig { connect_secs: 10, request_secs: 30, health_check_secs: 60 },
        env: HashMap::new(),
        headers: HashMap::new(),
    }
}

#[test]
fn reloads_report_what_changed() {
    let old = vec![server("a", Some("echo"), true), server("b", Some("echo"), true), server("c", Some("echo"), true)];
    let new = vec![server("b", Some("cat"), true), server("c", Some("echo"), true), server("d", Some("echo"), true)];
    let r = diff_servers(&old, &new);
    assert_eq!(r.added, vec!["d".to_string()]);
    assert_eq!(r.removed, vec!["a".to_string()]);
    assert_eq!(r.updated, vec!["b".to_string()]);
    assert_eq!(r.unchanged, vec!["c".to_string()]);
    let r = diff_servers(&old[..1].to_vec(), &old[..2].to_vec());
    assert_eq!(r.added.len(), 1);
    assert_eq!(r.removed.len(), 0);
}

#[test]
fn any_changed_setting_makes_a_server_updated() {
    let old = vec![server("a", Some("echo"), true), server("b", Some("echo"), true), server("c", Some("echo"), true)];
    let mut new = old.clone();
    new[0].args.push("--verbose".to_string());
    new[1].tags.push("fast".to_string());
    new[1].env.insert("KEY".to_string(), "v".to_string());
    let r = diff_servers(&old, &new);
    assert_eq!(r.updated, vec!["a".to_string(), "b".to_string()]);
    assert_eq!(r.unchanged, vec!["c".to_string()]);
    assert!(r.added.is_empty() && r.removed.is_empty());
}

use scp::supervisor::{update_server_config, ManagerError};

#[test]
fn updating_a_server_replaces_its_configuration() {
    let mut configs = vec![server("a", Some("echo"), true), server("b", Some("echo"), true)];
    let r = update_server_config(&mut configs, "b", server("b", Some("cat"), false));
    assert!(r.is_ok());
    assert_eq!(configs[1].command.as_deref(), Some("cat"));
    assert!(!configs[1].enabled);
    assert_eq!(configs[0].command.as_deref(), Some("echo"));
    match update_server_config(&mut configs, "zzz", server("zzz", None, true)) {
        Err(ManagerError::ServerNotFound(n)) => assert_eq!(n, "zzz"),
        _ => panic!("an unknown server is not found"),
    }
    assert_eq!(configs.len(), 2);
}

//! Admin API payloads and the redaction of sensitive header values.
use std::collections::HashMap;
use vstd::prelude::*;
use vstd::string::*;
use crate::lifecycle::{ServerState, state_name};
use crate::registry::{ToolEntry, ToolEntryView, copy_strings};
use crate::routing::{qualifier_split, split_qualified_name};
use crate::text::{contains_str, has_substring, lowercase, to_lowercase};

verus! {

/// Overall health of the hub.
#[derive(Debug, Clone)]
pub struct HealthResponse {
    /// Overall status.
    pub status: String,
    /// Number of servers.
    pub servers: usize,
    /// Number of healthy servers.
    pub healthy: usize,
    /// Number of active sessions.
    pub sessions: usize,
}

/// The hub's overall status from its server count and how many of them are
/// healthy: `ok` with no servers or all healthy, `degraded` with some
/// healthy, `error` with none.
pub open spec fn spec_health_status(total: usize, healthy: usize) -> Seq<char> {
    if total == 0 || healthy == total {
        "ok"@
    } else if healthy > 0 {
        "degraded"@
    } else {
        "error"@
    }
}

/// The hub's overall status (see `spec_health_status`).
pub fn health_status(total: usize, healthy: usize) -> (s: String)
    ensures
        s@ == spec_health_status(total, healthy),
{
    if total == 0 || healthy == total {
        String::from_str("ok")
    } else if healthy > 0 {
        String::from_str("degraded")
    } else {
        String::from_str("error")
    }
}

/// The status of one backend server.
#[derive(Debug, Clone)]
pub struct ServerStatus {
    pub name: String,
    pub state: ServerState,
    pub tool_count: usize,
    pub enabled: bool,
}

/// A server's status as the admin API reports it.
#[derive(Debug, Clone)]
pub struct ServerStatusResponse {
    /// Server name.
    pub name: String,
    /// Server state, by its display name.
    pub state: String,
    /// Number of tools the server provides.
    pub tool_count: usize,
    /// Whether the server is enabled.
    pub enabled: bool,
    /// Configured HTTP headers, sensitive values redacted.
    pub headers: HashMap<String, String>,
}

/// The list of server statuses.
#[derive(Debug, Clone)]
pub struct ServerListResponse {
    pub servers: Vec<ServerStatusResponse>,
}

/// A tool as the admin API reports it.
#[derive(Debug, Clone)]
pub struct ToolInfo {
    /// Qualified tool name.
    pub qualified_name: String,
    /// Server providing the tool.
    pub server: String,
    /// Tool name.
    pub name: String,
    /// Tool description.
    pub description: String,
    /// Tool tags.
    pub tags: Vec<String>,
    /// Number of calls of the tool.
    pub call_count: u64,
}

impl ServerStatusResponse {
    /// The response for a server status: its state by display name, no
    /// headers.
    pub fn from_status(status: ServerStatus) -> (r: ServerStatusResponse)
        ensures
            r.name@ == status.name@,
            r.state@ == state_name(status.state),
            r.tool_count == status.tool_count,
            r.enabled == status.enabled,
            r.headers@ == Map::<String, String>::empty(),
    {
        ServerStatusResponse {
            name: status.name,
            state: status.state.to_display_string(),
            tool_count: status.tool_count,
            enabled: status.enabled,
            headers: HashMap::new(),
        }
    }
}

/// Lower-case fragments that make a header name sensitive.
pub open spec fn sensitive_patterns() -> Seq<Seq<char>> {
    seq![
        seq!['a', 'u', 't', 'h', 'o', 'r', 'i', 'z', 'a', 't', 'i', 'o', 'n'],
        seq!['x', '-', 'a', 'p', 'i', '-', 'k', 'e', 'y'],
        seq!['x', '-', 't', 'o', 'k', 'e', 'n'],
        seq!['t', 'o', 'k', 'e', 'n'],
        seq!['s', 'e', 'c', 'r', 'e', 't'],
        seq!['p', 'a', 's', 's', 'w', 'o', 'r', 'd'],
    ]
}

/// A header name is sensitive when its lower-case form contains one of the
/// sensitive fragments.
pub open spec fn is_sensitive_header(name: Seq<char>) -> bool {
    exists|i: int| 0 <= i < sensitive_patterns().len() && has_substring(lowercase(name), #[trigger] sensitive_patterns()[i])
}

/// `[REDACTED]`.
pub open spec fn redacted_text() -> Seq<char> {
    seq!['[', 'R', 'E', 'D', 'A', 'C', 'T', 'E', 'D', ']']
}

/// A header with its value redacted when its name is sensitive.
pub open spec fn redact_pair(h: (Seq<char>, Seq<char>)) -> (Seq<char>, Seq<char>) {
    (h.0, if is_sensitive_header(h.0) { redacted_text() } else { h.1 })
}

/// Whether the header name is sensitive.
fn sensitive_header(name: &str) -> (r: bool)
    ensures
        r == is_sensitive_header(name@),
{
    let lower = to_lowercase(name);
    let l = lower.as_str();
    let pats: [&str; 6] = ["authorization", "x-api-key", "x-token", "token", "secret", "password"];
    proof {
        reveal_strlit("authorization");
        reveal_strlit("x-api-key");
        reveal_strlit("x-token");
        reveal_strlit("token");
        reveal_strlit("secret");
        reveal_strlit("password");
        assert("authorization"@ =~= sensitive_patterns()[0]);
        assert("x-api-key"@ =~= sensitive_patterns()[1]);
        assert("x-token"@ =~= sensitive_patterns()[2]);
        assert("token"@ =~= sensitive_patterns()[3]);
        assert("secret"@ =~= sensitive_patterns()[4]);
        assert("password"@ =~= sensitive_patterns()[5]);
    }
    let mut i: usize = 0;
    while i < 6
        invariant
            i <= 6,
            l@ == lowercase(name@),
            pats@.len() == 6,
            forall|k: int| 0 <= k < 6 ==> (#[trigger] pats@[k])@ == sensitive_patterns()[k],
            forall|k: int| 0 <= k < i ==> !has_substring(lowercase(name@), #[trigger] sensitive_patterns()[k]),
        decreases 6 - i,
    {
        if contains_str(l, pats[i]) {
            assert(has_substring(lowercase(name@), sensitive_patterns()[i as int]));
            return true;
        }
        i = i + 1;
    }
    false
}

/// The headers with the values of sensitive ones (by name, ignoring case:
/// `authorization`, `x-api-key`, `x-token`, `token`, `secret`, `password`)
/// replaced by `[REDACTED]`; order and names are kept.
pub fn redact_headers(headers: &Vec<(String, String)>) -> (r: Vec<(String, String)>)
    ensures
        r@.map_values(|h: (String, String)| (h.0@, h.1@))
            == headers@.map_values(|h: (String, String)| redact_pair((h.0@, h.1@))),
{
    let mut r: Vec<(String, String)> = Vec::new();
    let mut i: usize = 0;
    while i < headers.len()
        invariant
            i <= headers.len(),
            r@.map_values(|h: (String, String)| (h.0@, h.1@))
                == headers@.take(i as int).map_values(|h: (String, String)| redact_pair((h.0@, h.1@))),
        decreases headers.len() - i,
    {
        let (k, v) = &headers[i];
        let value = if sensitive_header(k.as_str()) {
            let s = String::from_str("[REDACTED]");
            proof {
                reveal_strlit("[REDACTED]");
                assert("[REDACTED]"@ =~= redacted_text());
            }
            s
        } else {
            v.clone()
        };
        let ghost before = r@;
        r.push((k.clone(), value));
        proof {
            assert(headers@.take(i + 1) =~= headers@.take(i as int).push(headers@[i as int]));
            assert(r@.map_values(|h: (String, String)| (h.0@, h.1@))
                =~= before.map_values(|h: (String, String)| (h.0@, h.1@)).push((k@, value@)));
        }
        i = i + 1;
    }
    assert(headers@.take(i as int) =~= headers@);
    r
}

/// Whether a tool answers an admin listing query: there is no query, or
/// the lower-case query occurs in the tool's lower-case name or
/// description.
pub open spec fn answers_query(t: ToolEntryView, query: Option<Seq<char>>) -> bool {
    match query {
        None => true,
        Some(q) => has_substring(lowercase(t.original_name), lowercase(q)) || match t.description {
            Some(d) => has_substring(lowercase(d), lowercase(q)),
            None => false,
        },
    }
}

/// A tool as the admin listing shows it: the qualified name split at its
/// first `/` (or else its first `.`) into server and name (no server when
/// it has neither), the description or nothing, the tags and call count.
pub open spec fn info_of(t: ToolEntryView) -> (Seq<char>, Seq<char>, Seq<char>, Seq<char>, Seq<Seq<char>>, u64) {
    let q = t.qualified_name;
    let i = qualifier_split(q);
    (
        q,
        if i >= 0 { q.take(i) } else { Seq::empty() },
        if i >= 0 { q.skip(i + 1) } else { q },
        match t.description { Some(d) => d, None => Seq::empty() },
        t.tags,
        t.call_count,
    )
}

/// The value of a listed tool.
pub open spec fn info_view(i: ToolInfo) -> (Seq<char>, Seq<char>, Seq<char>, Seq<char>, Seq<Seq<char>>, u64) {
    (i.qualified_name@, i.server@, i.name@, i.description@, i.tags.deep_view(), i.call_count)
}

/// The listing of the tools that answer the query, in order.
pub open spec fn listed_infos(tools: Seq<ToolEntryView>, query: Option<Seq<char>>)
    -> Seq<(Seq<char>, Seq<char>, Seq<char>, Seq<char>, Seq<Seq<char>>, u64)>
    decreases tools.len(),
{
    if tools.len() == 0 {
        Seq::empty()
    } else if answers_query(tools.last(), query) {
        listed_infos(tools.drop_last(), query).push(info_of(tools.last()))
    } else {
        listed_infos(tools.drop_last(), query)
    }
}

/// Whether the tool answers the query.
pub fn tool_answers(entry: &ToolEntry, query: Option<&str>) -> (r: bool)
    ensures
        r == answers_query(entry.deep_view(), match query { Some(q) => Some(q@), None => None }),
{
    match query {
        None => true,
        Some(q) => {
            let lq = to_lowercase(q);
            let ln = to_lowercase(entry.original_name.as_str());
            if contains_str(ln.as_str(), lq.as_str()) {
                return true;
            }
            match &entry.description {
                Some(d) => {
                    let ld = to_lowercase(d.as_str());
                    contains_str(ld.as_str(), lq.as_str())
                },
                None => false,
            }
        },
    }
}

/// The tool as the admin listing shows it.
pub fn tool_info(entry: &ToolEntry) -> (r: ToolInfo)
    ensures
        info_view(r) == info_of(entry.deep_view()),
{
    let (server, name) = match split_qualified_name(entry.qualified_name.as_str()) {
        Some((s, n)) => (s, n),
        None => (String::new(), entry.qualified_name.clone()),
    };
    let description = match &entry.description {
        Some(d) => d.clone(),
        None => String::new(),
    };
    let tags = copy_strings(&entry.tags);
    ToolInfo {
        qualified_name: entry.qualified_name.clone(),
        server,
        name,
        description,
        tags,
        call_count: entry.call_count,
    }
}

/// The admin listing: the tools that answer the query, in order.
pub fn list_tool_infos(tools: &Vec<&ToolEntry>, query: Option<&str>) -> (r: Vec<ToolInfo>)
    ensures
        r@.map_values(|i: ToolInfo| info_view(i)) == listed_infos(tools.deep_view(),
            match query { Some(q) => Some(q@), None => None }),
{
    let ghost qv = match query { Some(q) => Some(q@), None => None };
    let mut r: Vec<ToolInfo> = Vec::new();
    let mut k: usize = 0;
    while k < tools.len()
        invariant
            k <= tools.len(),
            qv == match query { Some(q) => Some(q@), None => None::<Seq<char>> },
            r@.map_values(|i: ToolInfo| info_view(i)) == listed_infos(tools.deep_view().take(k as int), qv),
        decreases tools.len() - k,
    {
        let ghost before = r@.map_values(|i: ToolInfo| info_view(i));
        proof {
            assert(tools.deep_view().take(k + 1).drop_last() =~= tools.deep_view().take(k as int));
            assert(tools.deep_view().take(k + 1).last() == tools[k as int].deep_view());
        }
        if tool_answers(tools[k], query) {
            let info = tool_info(tools[k]);
            r.push(info);
            assert(r@.map_values(|i: ToolInfo| info_view(i)) =~= before.push(info_view(info)));
        }
        k = k + 1;
    }
    assert(tools.deep_view().take(tools.len() as int) =~= tools.deep_view());
    r
}

} // verus!

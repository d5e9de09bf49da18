//! Request routing decisions: which handler a method goes to, how a tool
//! name is qualified, what the hub's own tools answer.
use vstd::prelude::*;
use vstd::string::*;
use crate::chunker::Chunk;
use crate::lifecycle::ServerState;
use crate::numfmt::{digits, u64_to_decimal};
use crate::text::{to_chars, from_char_range, str_eq, concat};
use crate::textsplit::join_with;

verus! {

/// The handler a JSON-RPC method goes to.
#[derive(Debug, Clone, Copy, PartialEq, Eq, Structural)]
pub enum RouteMethod {
    Ping,
    ToolsList,
    ToolsCall,
    Initialize,
    Unknown,
}

/// The handler for a method name.
pub open spec fn spec_route_method(m: Seq<char>) -> RouteMethod {
    if m == seq!['p', 'i', 'n', 'g'] {
        RouteMethod::Ping
    } else if m == seq!['t', 'o', 'o', 'l', 's', '/', 'l', 'i', 's', 't'] {
        RouteMethod::ToolsList
    } else if m == seq!['t', 'o', 'o', 'l', 's', '/', 'c', 'a', 'l', 'l'] {
        RouteMethod::ToolsCall
    } else if m == seq!['i', 'n', 'i', 't', 'i', 'a', 'l', 'i', 'z', 'e'] {
        RouteMethod::Initialize
    } else {
        RouteMethod::Unknown
    }
}

/// The handler for a method: `ping`, `tools/list`, `tools/call`,
/// `initialize`, anything else unknown.
pub fn route_method(method: &str) -> (r: RouteMethod)
    ensures
        r == spec_route_method(method@),
{
    proof {
        reveal_strlit("ping");
        reveal_strlit("tools/list");
        reveal_strlit("tools/call");
        reveal_strlit("initialize");
        assert("ping"@ =~= seq!['p', 'i', 'n', 'g']);
        assert("tools/list"@ =~= seq!['t', 'o', 'o', 'l', 's', '/', 'l', 'i', 's', 't']);
        assert("tools/call"@ =~= seq!['t', 'o', 'o', 'l', 's', '/', 'c', 'a', 'l', 'l']);
        assert("initialize"@ =~= seq!['i', 'n', 'i', 't', 'i', 'a', 'l', 'i', 'z', 'e']);
    }
    if str_eq(method, "ping") {
        RouteMethod::Ping
    } else if str_eq(method, "tools/list") {
        RouteMethod::ToolsList
    } else if str_eq(method, "tools/call") {
        RouteMethod::ToolsCall
    } else if str_eq(method, "initialize") {
        RouteMethod::Initialize
    } else {
        RouteMethod::Unknown
    }
}

/// The position of the first `c` in `s`, or -1.
pub open spec fn first_index(s: Seq<char>, c: char) -> int
    decreases s.len(),
{
    if s.len() == 0 {
        -1
    } else if s[0] == c {
        0
    } else {
        let r = first_index(s.drop_first(), c);
        if r < 0 { -1 } else { r + 1 }
    }
}

/// Where a qualified tool name splits: the first `/`, or else the first `.`.
pub open spec fn qualifier_split(s: Seq<char>) -> int {
    if first_index(s, '/') >= 0 { first_index(s, '/') } else { first_index(s, '.') }
}

/// The position of the first `c` in `v`, if any.
pub(crate) fn find_char(v: &Vec<char>, c: char) -> (r: Option<usize>)
    ensures
        match r {
            Some(i) => i < v.len() && i == first_index(v@, c),
            None => first_index(v@, c) < 0,
        },
{
    let mut i: usize = 0;
    assert(v@.skip(0) =~= v@);
    while i < v.len()
        invariant
            i <= v.len(),
            first_index(v@, c) == if first_index(v@.skip(i as int), c) < 0 {
                -1
            } else {
                first_index(v@.skip(i as int), c) + i
            },
        decreases v.len() - i,
    {
        let ghost rest = v@.skip(i as int);
        assert(rest[0] == v@[i as int]);
        assert(rest.drop_first() =~= v@.skip(i + 1));
        if v[i] == c {
            return Some(i);
        }
        i = i + 1;
    }
    assert(v@.skip(i as int) =~= Seq::<char>::empty());
    None
}

/// Splits a qualified tool name (`server/tool`, or `server.tool`) at its
/// first `/`, or else its first `.`, into server and tool; `None` for a
/// name with neither.
pub fn split_qualified_name(tool_name: &str) -> (r: Option<(String, String)>)
    ensures
        match r {
            Some((server, tool)) => {
                let i = qualifier_split(tool_name@);
                &&& i >= 0
                &&& server@ == tool_name@.take(i)
                &&& tool@ == tool_name@.skip(i + 1)
            },
            None => qualifier_split(tool_name@) < 0,
        },
{
    let v = to_chars(tool_name);
    let pos = match find_char(&v, '/') {
        Some(i) => Some(i),
        None => find_char(&v, '.'),
    };
    match pos {
        Some(i) => {
            let server = from_char_range(&v, 0, i);
            let tool = from_char_range(&v, i + 1, v.len());
            assert(v@.subrange(0, i as int) =~= tool_name@.take(i as int));
            assert(v@.subrange(i + 1, v@.len() as int) =~= tool_name@.skip(i + 1));
            Some((server, tool))
        },
        None => None,
    }
}

/// `server/tool`, the name a tool is listed under.
pub open spec fn spec_qualified_name(server: Seq<char>, tool: Seq<char>) -> Seq<char> {
    server + seq!['/'] + tool
}

/// The name a backend's tool is listed under: `server/tool`.
pub fn qualified_tool_name(server: &str, tool: &str) -> (r: String)
    ensures
        r@ == spec_qualified_name(server@, tool@),
{
    let mut s = String::from_str(server);
    s.append("/");
    s.append(tool);
    proof {
        reveal_strlit("/");
        assert("/"@ =~= seq!['/']);
    }
    s
}

/// Splitting a listed name gives back the server and the tool, when the
/// server name holds neither `/` nor `.`.
pub proof fn lemma_split_qualified(server: Seq<char>, tool: Seq<char>)
    requires
        first_index(server, '/') < 0,
        first_index(server, '.') < 0,
    ensures
        qualifier_split(spec_qualified_name(server, tool)) == server.len(),
        spec_qualified_name(server, tool).take(server.len() as int) == server,
        spec_qualified_name(server, tool).skip(server.len() as int + 1) == tool,
{
    let q = spec_qualified_name(server, tool);
    lemma_first_index_after(server, seq!['/'] + tool, '/');
    assert(q =~= server + (seq!['/'] + tool));
    assert(first_index(seq!['/'] + tool, '/') == 0);
    assert(q.take(server.len() as int) =~= server);
    assert(q.skip(server.len() as int + 1) =~= tool);
}

/// The first `c` in `a + b`, when `a` has none, is in `b`.
pub(crate) proof fn lemma_first_index_after(a: Seq<char>, b: Seq<char>, c: char)
    requires
        first_index(a, c) < 0,
    ensures
        first_index(a + b, c) == if first_index(b, c) < 0 { -1 } else { first_index(b, c) + a.len() },
    decreases a.len(),
{
    if a.len() > 0 {
        assert((a + b).drop_first() =~= a.drop_first() + b);
        lemma_first_index_after(a.drop_first(), b, c);
    } else {
        assert(a + b =~= b);
    }
}

/// The hub's own tools.
#[derive(Debug, Clone, Copy, PartialEq, Eq, Structural)]
pub enum ExtensionTool {
    /// `scp_info`.
    Info,
    /// `scp_budget`.
    Budget,
    /// `scp_budget_reset`.
    BudgetReset,
    /// `scp_get_more`.
    GetMore,
    /// `scp_search`.
    Search,
}

/// The hub tool a name denotes, if any.
pub open spec fn spec_extension_tool(name: Seq<char>) -> Option<ExtensionTool> {
    if name == seq!['s', 'c', 'p', '_', 'i', 'n', 'f', 'o'] {
        Some(ExtensionTool::Info)
    } else if name == seq!['s', 'c', 'p', '_', 'b', 'u', 'd', 'g', 'e', 't'] {
        Some(ExtensionTool::Budget)
    } else if name == seq!['s', 'c', 'p', '_', 'b', 'u', 'd', 'g', 'e', 't', '_', 'r', 'e', 's', 'e', 't'] {
        Some(ExtensionTool::BudgetReset)
    } else if name == seq!['s', 'c', 'p', '_', 'g', 'e', 't', '_', 'm', 'o', 'r', 'e'] {
        Some(ExtensionTool::GetMore)
    } else if name == seq!['s', 'c', 'p', '_', 's', 'e', 'a', 'r', 'c', 'h'] {
        Some(ExtensionTool::Search)
    } else {
        None
    }
}

/// The hub tool called `name`, if it is one.
pub fn extension_tool(name: &str) -> (r: Option<ExtensionTool>)
    ensures
        r == spec_extension_tool(name@),
{
    proof {
        reveal_strlit("scp_info");
        reveal_strlit("scp_budget");
        reveal_strlit("scp_budget_reset");
        reveal_strlit("scp_get_more");
        reveal_strlit("scp_search");
        assert("scp_info"@ =~= seq!['s', 'c', 'p', '_', 'i', 'n', 'f', 'o']);
        assert("scp_budget"@ =~= seq!['s', 'c', 'p', '_', 'b', 'u', 'd', 'g', 'e', 't']);
        assert("scp_budget_reset"@ =~= seq!['s', 'c', 'p', '_', 'b', 'u', 'd', 'g', 'e', 't', '_', 'r', 'e', 's', 'e', 't']);
        assert("scp_get_more"@ =~= seq!['s', 'c', 'p', '_', 'g', 'e', 't', '_', 'm', 'o', 'r', 'e']);
        assert("scp_search"@ =~= seq!['s', 'c', 'p', '_', 's', 'e', 'a', 'r', 'c', 'h']);
    }
    if str_eq(name, "scp_info") {
        Some(ExtensionTool::Info)
    } else if str_eq(name, "scp_budget") {
        Some(ExtensionTool::Budget)
    } else if str_eq(name, "scp_budget_reset") {
        Some(ExtensionTool::BudgetReset)
    } else if str_eq(name, "scp_get_more") {
        Some(ExtensionTool::GetMore)
    } else if str_eq(name, "scp_search") {
        Some(ExtensionTool::Search)
    } else {
        None
    }
}

/// What `scp_budget` reports: remaining, total, and used (total less
/// remaining, at least 0).
pub fn budget_status(remaining: usize, total: usize) -> (r: (usize, usize, usize))
    ensures
        r.0 == remaining,
        r.1 == total,
        r.2 == if total >= remaining { total - remaining } else { 0 },
{
    (remaining, total, total.saturating_sub(remaining))
}

/// One page of cached chunks for `scp_get_more`: the texts of the chunks
/// from `offset` on, at most `limit` of them, the number of chunks, and
/// whether chunks remain after the page.
pub fn page_chunks(chunks: &Vec<Chunk>, offset: usize, limit: usize) -> (r: (Vec<String>, usize, bool))
    requires
        offset + limit <= usize::MAX,
    ensures
        r.0@.map_values(|s: String| s@) == chunks@.map_values(|c: Chunk| c.text@).skip(
            if offset <= chunks.len() { offset as int } else { chunks.len() as int },
        ).take(
            if offset + limit <= chunks.len() { limit as int }
            else if offset <= chunks.len() { chunks.len() - offset }
            else { 0 },
        ),
        r.1 == chunks.len(),
        r.2 == (offset + limit < chunks.len()),
{
    let total = chunks.len();
    let start = if offset <= total { offset } else { total };
    let end = if offset + limit <= total { offset + limit } else { total };
    let ghost texts = chunks@.map_values(|c: Chunk| c.text@);
    let mut items: Vec<String> = Vec::new();
    let mut i: usize = start;
    assert(texts.skip(start as int).take(0) =~= Seq::<Seq<char>>::empty());
    while i < end
        invariant
            start <= i <= end <= total,
            total == chunks.len(),
            texts == chunks@.map_values(|c: Chunk| c.text@),
            items@.map_values(|s: String| s@) == texts.skip(start as int).take(i - start),
        decreases end - i,
    {
        let ghost before = items@;
        items.push(chunks[i].text.clone());
        assert(items@.map_values(|s: String| s@) =~= before.map_values(|s: String| s@).push(chunks@[i as int].text@));
        assert(texts.skip(start as int).take(i + 1 - start) =~= texts.skip(start as int).take(i - start).push(texts[i as int]));
        i = i + 1;
    }
    (items, total, offset + limit < total)
}

/// How a backend is reached.
#[derive(Debug, Clone, Copy, PartialEq, Eq, Structural)]
pub enum BackendKind {
    /// Over HTTP, at the configured URL.
    Http,
    /// Through the stdio process pool.
    Stdio,
}

/// Whether and how a server takes part in a `tools/list` fan-out: only
/// warm or hot servers, over HTTP when they have a URL, else through stdio
/// when they have a command.
pub fn fanout_backend(state: ServerState, has_url: bool, has_command: bool) -> (r: Option<BackendKind>)
    ensures
        r == if !(state == ServerState::Warm || state == ServerState::Hot) {
            None
        } else if has_url {
            Some(BackendKind::Http)
        } else if has_command {
            Some(BackendKind::Stdio)
        } else {
            None
        },
{
    if !state.can_accept_requests() {
        None
    } else if has_url {
        Some(BackendKind::Http)
    } else if has_command {
        Some(BackendKind::Stdio)
    } else {
        None
    }
}

/// How a backend is called for one request: over HTTP when it has a URL,
/// else through stdio when it has a command; `None` when it has neither.
pub fn call_backend_kind(has_url: bool, has_command: bool) -> (r: Option<BackendKind>)
    ensures
        r == if has_url {
            Some(BackendKind::Http)
        } else if has_command {
            Some(BackendKind::Stdio)
        } else {
            None
        },
{
    if has_url {
        Some(BackendKind::Http)
    } else if has_command {
        Some(BackendKind::Stdio)
    } else {
        None
    }
}

/// The hint in a tool-not-found error: an empty registry asks for
/// `tools/list` first; otherwise the number of tools and a sample of names.
pub open spec fn not_found_hint(total: nat, sample: Seq<Seq<char>>) -> Seq<char> {
    if total == 0 {
        "registry is empty — call tools/list first to discover available tools"@
    } else {
        digits(total, 10) + seq![' '] + seq!['t', 'o', 'o', 'l'] + (if total == 1 { Seq::empty() } else { seq!['s'] })
            + seq![' ', 'r', 'e', 'g', 'i', 's', 't', 'e', 'r', 'e', 'd', ':', ' '] + join_with(sample, seq![',', ' '])
    }
}

/// The message of a tool-not-found error.
pub open spec fn not_found_message(tool: Seq<char>, total: nat, sample: Seq<Seq<char>>) -> Seq<char> {
    seq!['T', 'o', 'o', 'l', ' ', 'n', 'o', 't', ' ', 'f', 'o', 'u', 'n', 'd', ':', ' '] + tool + seq![' ', '(']
        + not_found_hint(total, sample) + seq![')']
}

/// The texts joined with `", "`.
fn join_comma(texts: &Vec<String>) -> (s: String)
    ensures
        s@ == join_with(texts@.map_values(|t: String| t@), seq![',', ' ']),
{
    let ghost tv = texts@.map_values(|t: String| t@);
    let mut s = String::new();
    let mut i: usize = 0;
    while i < texts.len()
        invariant
            i <= texts.len(),
            tv == texts@.map_values(|t: String| t@),
            s@ == join_with(tv.take(i as int), seq![',', ' ']),
        decreases texts.len() - i,
    {
        proof {
            reveal_strlit(", ");
            assert(", "@ =~= seq![',', ' ']);
            assert(tv.take(i + 1).drop_last() =~= tv.take(i as int));
            assert(tv.take(i + 1).last() == texts[i as int]@);
        }
        if i > 0 {
            s.append(", ");
        }
        s.append(texts[i].as_str());
        proof {
            if i == 0 {
                assert(tv.take(1) =~= seq![texts[0]@]);
            }
        }
        i = i + 1;
    }
    assert(tv.take(i as int) =~= tv);
    s
}

/// The error message for a tool the registry does not know, with a hint:
/// `Tool not found: NAME (HINT)`.
pub fn tool_not_found_message(tool_name: &str, total: usize, sample: &Vec<String>) -> (m: String)
    ensures
        m@ == not_found_message(tool_name@, total as nat, sample@.map_values(|t: String| t@)),
{
    let mut hint = String::new();
    if total == 0 {
        hint.append("registry is empty — call tools/list first to discover available tools");
    } else {
        let n = u64_to_decimal(total as u64);
        hint.append(n.as_str());
        hint.append(" tool");
        if total != 1 {
            hint.append("s");
        }
        hint.append(" registered: ");
        let joined = join_comma(sample);
        hint.append(joined.as_str());
    }
    let mut m = String::from_str("Tool not found: ");
    m.append(tool_name);
    m.append(" (");
    m.append(hint.as_str());
    m.append(")");
    proof {
        reveal_strlit(" tool");
        reveal_strlit("s");
        reveal_strlit(" registered: ");
        reveal_strlit("Tool not found: ");
        reveal_strlit(" (");
        reveal_strlit(")");
        assert(" tool"@ =~= seq![' '] + seq!['t', 'o', 'o', 'l']);
        assert("s"@ =~= seq!['s']);
        assert(" registered: "@ =~= seq![' ', 'r', 'e', 'g', 'i', 's', 't', 'e', 'r', 'e', 'd', ':', ' ']);
        assert("Tool not found: "@ =~= seq!['T', 'o', 'o', 'l', ' ', 'n', 'o', 't', ' ', 'f', 'o', 'u', 'n', 'd', ':', ' ']);
        assert(" ("@ =~= seq![' ', '(']);
        assert(")"@ =~= seq![')']);
        assert(hint@ =~= not_found_hint(total as nat, sample@.map_values(|t: String| t@)));
        assert(m@ =~= not_found_message(tool_name@, total as nat, sample@.map_values(|t: String| t@)));
    }
    m
}

/// The protocol version the hub answers `initialize` with: the client's,
/// or `2024-11-05` when it sent none.
pub fn negotiated_protocol_version(requested: Option<&str>) -> (v: String)
    ensures
        v@ == match requested {
            Some(r) => r@,
            None => "2024-11-05"@,
        },
{
    match requested {
        Some(r) => String::from_str(r),
        None => String::from_str("2024-11-05"),
    }
}

} // verus!

//! Hub configuration: the settings model, its defaults and its validation rules.
use std::collections::HashMap;
use vstd::prelude::*;
use vstd::string::*;
use crate::text::{concat, str_eq};

verus! {

/// Configuration version that the hub accepts.
pub const CONFIG_VERSION: u32 = 1;

/// Why a configuration was refused.
#[derive(Debug, Clone)]
pub enum ConfigError {
    /// The file could not be read (the message of the I/O error).
    Io(String),
    /// The text is not valid TOML for the configuration (the parser's message).
    TomlParse(String),
    /// A `${VAR}` placeholder names an unset environment variable.
    MissingEnvVar(String),
    /// `config_version` is not [`CONFIG_VERSION`].
    InvalidVersion(u32),
    /// Exactly one validation rule failed.
    Validation(String),
    /// Several validation rules failed, in the order they were checked.
    MultipleErrors(Vec<String>),
}

/// Hub listener settings.
#[derive(Debug, Clone)]
pub struct HubConfig {
    pub listen_address: String,
    pub listen_port: u16,
    pub transports: Vec<String>,
    pub max_clients: usize,
    pub session_timeout_secs: u64,
    pub defaults: HubDefaults,
}

/// Per-session defaults of the hub.
#[derive(Debug, Clone)]
pub struct HubDefaults {
    pub request_token_budget: usize,
    pub session_token_budget: usize,
    pub max_tools_exposed: usize,
    pub fanout_timeout_secs: u64,
    pub max_requests_per_min: u32,
    pub burst_size: u32,
}

/// Timeouts towards one backend server.
#[derive(Debug, Clone)]
pub struct TimeoutConfig {
    pub connect_secs: u64,
    pub request_secs: u64,
    pub health_check_secs: u64,
}

/// One backend server as the validation rules and the hub see it.
///
/// The retry policy (whose backoff factor is a float) is kept by the
/// application beside this record.
#[derive(Debug, Clone)]
pub struct ServerConfig {
    pub name: String,
    /// `"stdio"`, `"sse"` or `"streamable_http"`.
    pub transport: String,
    pub command: Option<String>,
    pub args: Vec<String>,
    pub url: Option<String>,
    /// `"shared"`, `"pooled"` or `"dedicated"`.
    pub sharing: String,
    pub pool_size: Option<usize>,
    pub priority: u32,
    pub tags: Vec<String>,
    pub enabled: bool,
    pub timeouts: TimeoutConfig,
    pub env: HashMap<String, String>,
    pub headers: HashMap<String, String>,
}

/// Embedding service settings.
#[derive(Debug, Clone)]
pub struct EmbeddingConfig {
    pub endpoint: String,
    pub model: String,
    pub dimension: usize,
}

/// Filter pipeline settings.
#[derive(Debug, Clone)]
pub struct FilterConfig {
    pub enabled: bool,
    /// `"truncate"`, `"summarize"` or `"hybrid"`.
    pub budget_strategy: String,
    /// `"paragraph"`, `"line"`, `"json_element"` or `"fixed_size"`.
    pub chunking_strategy: String,
    /// `"tags"`, `"tfidf"` or `"embedding"`.
    pub relevance_engine: String,
    pub short_circuit_below_tokens: usize,
    pub progressive_disclosure_enabled: bool,
    pub progressive_hint_text: String,
    pub embedding: EmbeddingConfig,
}

/// Admin API settings.
#[derive(Debug, Clone)]
pub struct AdminConfig {
    pub port: u16,
    pub auth_token: Option<String>,
}

/// Tool index settings.
#[derive(Debug, Clone)]
pub struct ToolIndexConfig {
    pub engine: String,
    pub max_tools_per_list: usize,
    pub always_include: Vec<String>,
}

/// Logging settings.
#[derive(Debug, Clone)]
pub struct LoggingConfig {
    pub level: String,
    /// `"json"` or `"pretty"`.
    pub format: String,
    pub file: Option<String>,
}

/// Authentication settings: the method and the profiles, each under its
/// name, in the order they are configured.
#[derive(Debug, Clone)]
pub struct AuthConfig {
    pub method: String,
    pub profiles: Vec<(String, AuthProfile)>,
}

/// One authentication profile.
#[derive(Debug, Clone)]
pub struct AuthProfile {
    /// The bearer token that selects this profile.
    pub token: Option<String>,
    pub token_budget_per_request: usize,
    pub rate_limit_per_minute: Option<u32>,
}

/// The name of the first profile whose token is `token`.
pub open spec fn profile_for_token(profiles: Seq<(String, AuthProfile)>, token: Seq<char>) -> Option<Seq<char>>
    decreases profiles.len(),
{
    if profiles.len() == 0 {
        None
    } else if profiles[0].1.token matches Some(t) && t@ == token {
        Some(profiles[0].0@)
    } else {
        profile_for_token(profiles.drop_first(), token)
    }
}

/// The whole configuration file.
#[derive(Debug, Clone)]
pub struct Config {
    pub config_version: u32,
    pub hub: HubConfig,
    pub servers: Vec<ServerConfig>,
    pub filter: FilterConfig,
    pub admin: AdminConfig,
    pub tool_index: ToolIndexConfig,
    pub logging: LoggingConfig,
}

impl AuthConfig {
    /// The name of the profile that a bearer token belongs to: the first
    /// configured profile with that token; `None` when none has it.
    pub fn resolve_profile(&self, token: &str) -> (r: Option<String>)
        ensures
            match r {
                Some(n) => profile_for_token(self.profiles@, token@) == Some(n@),
                None => profile_for_token(self.profiles@, token@) is None,
            },
    {
        let ghost ps = self.profiles@;
        let mut i: usize = 0;
        assert(ps.skip(0) =~= ps);
        while i < self.profiles.len()
            invariant
                ps == self.profiles@,
                i <= ps.len(),
                profile_for_token(ps, token@) == profile_for_token(ps.skip(i as int), token@),
            decreases ps.len() - i,
        {
            assert(ps.skip(i as int)[0] == ps[i as int]);
            assert(ps.skip(i as int).drop_first() =~= ps.skip(i + 1));
            if let Some(t) = &self.profiles[i].1.token {
                if str_eq(t.as_str(), token) {
                    return Some(self.profiles[i].0.clone());
                }
            }
            i = i + 1;
        }
        None
    }
}

pub fn default_listen_address() -> (s: String)
    ensures
        s@ == "127.0.0.1"@,
{
    String::from_str("127.0.0.1")
}

pub fn default_listen_port() -> (p: u16)
    ensures
        p == 3100,
{
    3100
}

pub fn default_transports() -> (v: Vec<String>)
    ensures
        v@.len() == 1,
        v@[0]@ == "stdio"@,
{
    let mut v = Vec::new();
    v.push(String::from_str("stdio"));
    v
}

pub fn default_max_clients() -> (n: usize)
    ensures
        n == 100,
{
    100
}

pub fn default_session_timeout_secs() -> (n: u64)
    ensures
        n == 3600,
{
    3600
}

pub fn default_request_token_budget() -> (n: usize)
    ensures
        n == 4000,
{
    4000
}

pub fn default_session_token_budget() -> (n: usize)
    ensures
        n == 32000,
{
    32000
}

pub fn default_max_tools_exposed() -> (n: usize)
    ensures
        n == 20,
{
    20
}

pub fn default_fanout_timeout_secs() -> (n: u64)
    ensures
        n == 30,
{
    30
}

pub fn default_max_requests_per_min() -> (n: u32)
    ensures
        n == 100,
{
    100
}

pub fn default_burst_size() -> (n: u32)
    ensures
        n == 20,
{
    20
}

pub fn default_priority() -> (n: u32)
    ensures
        n == 100,
{
    100
}

pub fn default_enabled() -> (b: bool)
    ensures
        b,
{
    true
}

pub fn default_connect_secs() -> (n: u64)
    ensures
        n == 10,
{
    10
}

pub fn default_request_secs() -> (n: u64)
    ensures
        n == 30,
{
    30
}

pub fn default_health_check_secs() -> (n: u64)
    ensures
        n == 5,
{
    5
}

pub fn default_max_attempts() -> (n: u32)
    ensures
        n == 3,
{
    3
}

pub fn default_initial_delay_ms() -> (n: u64)
    ensures
        n == 100,
{
    100
}

pub fn default_max_delay_ms() -> (n: u64)
    ensures
        n == 5000,
{
    5000
}

pub fn default_embedding_endpoint() -> (s: String)
    ensures
        s@ == "http://localhost:11434"@,
{
    String::from_str("http://localhost:11434")
}

pub fn default_embedding_model() -> (s: String)
    ensures
        s@ == "nomic-embed-text"@,
{
    String::from_str("nomic-embed-text")
}

pub fn default_embedding_dimension() -> (n: usize)
    ensures
        n == 1536,
{
    1536
}

pub fn default_short_circuit_below_tokens() -> (n: usize)
    ensures
        n == 500,
{
    500
}

pub fn default_progressive_disclosure_enabled() -> (b: bool)
    ensures
        b,
{
    true
}

pub fn default_progressive_hint_text() -> (s: String)
    ensures
        s@ == "[Content truncated for brevity]"@,
{
    String::from_str("[Content truncated for brevity]")
}

pub fn default_filter_enabled() -> (b: bool)
    ensures
        b,
{
    true
}

pub fn default_budget_strategy() -> (s: String)
    ensures
        s@ == "truncate"@,
{
    String::from_str("truncate")
}

pub fn default_chunking_strategy() -> (s: String)
    ensures
        s@ == "paragraph"@,
{
    String::from_str("paragraph")
}

pub fn default_relevance_engine() -> (s: String)
    ensures
        s@ == "embedding"@,
{
    String::from_str("embedding")
}

pub fn default_admin_port() -> (p: u16)
    ensures
        p == 3101,
{
    3101
}

pub fn default_tool_index_engine() -> (s: String)
    ensures
        s@ == "embedding"@,
{
    String::from_str("embedding")
}

pub fn default_max_tools_per_list() -> (n: usize)
    ensures
        n == 20,
{
    20
}

pub fn default_log_level() -> (s: String)
    ensures
        s@ == "info"@,
{
    String::from_str("info")
}

pub fn default_log_format() -> (s: String)
    ensures
        s@ == "pretty"@,
{
    String::from_str("pretty")
}

// ---------------------------------------------------------------------------
// Validation
// ---------------------------------------------------------------------------

/// Whether a server name occurs among the first `n` servers.
pub open spec fn name_taken(servers: Seq<ServerConfig>, n: int, name: Seq<char>) -> bool {
    exists|j: int| 0 <= j < n && (#[trigger] servers[j]).name@ == name
}

pub open spec fn valid_transport(t: Seq<char>) -> bool {
    t == "stdio"@ || t == "sse"@ || t == "streamable_http"@
}

pub open spec fn valid_sharing(s: Seq<char>) -> bool {
    s == "shared"@ || s == "pooled"@ || s == "dedicated"@
}

pub open spec fn valid_budget_strategy(s: Seq<char>) -> bool {
    s == "truncate"@ || s == "summarize"@ || s == "hybrid"@
}

pub open spec fn valid_chunking_strategy(s: Seq<char>) -> bool {
    s == "paragraph"@ || s == "line"@ || s == "json_element"@ || s == "fixed_size"@
}

pub open spec fn valid_relevance_engine(s: Seq<char>) -> bool {
    s == "tags"@ || s == "tfidf"@ || s == "embedding"@
}

/// `msg` followed by `Seq::empty()` when `cond` fails.
pub open spec fn err_if(cond: bool, msg: Seq<char>) -> Seq<Seq<char>> {
    if cond { seq![msg] } else { Seq::empty() }
}

/// The messages that server `i` adds, given the servers before it.
pub open spec fn server_errors(servers: Seq<ServerConfig>, i: int) -> Seq<Seq<char>> {
    let s = servers[i];
    err_if(name_taken(servers, i, s.name@), "Duplicate server name: "@ + s.name@)
    + err_if(!valid_transport(s.transport@),
        "Invalid transport for server "@ + s.name@ + ": "@ + s.transport@)
    + err_if(!valid_sharing(s.sharing@),
        "Invalid sharing strategy for server "@ + s.name@ + ": "@ + s.sharing@)
    + err_if(s.transport@ == "stdio"@ && s.command is None,
        "Server "@ + s.name@ + " with stdio transport must have a command"@)
    + err_if((s.transport@ == "sse"@ || s.transport@ == "streamable_http"@) && s.url is None,
        "Server "@ + s.name@ + " with "@ + s.transport@ + " transport must have a url"@)
}

/// The messages of the first `n` servers, in order.
pub open spec fn servers_errors(servers: Seq<ServerConfig>, n: int) -> Seq<Seq<char>>
    decreases n,
{
    if n <= 0 { Seq::empty() } else { servers_errors(servers, n - 1) + server_errors(servers, n - 1) }
}

/// Every validation message for `c`, in the order the rules are checked.
pub open spec fn validation_errors(c: Config) -> Seq<Seq<char>> {
    err_if(c.hub.listen_port == 0, "hub.listen_port must be > 0"@)
    + err_if(c.admin.port == c.hub.listen_port, "admin.port must differ from hub.listen_port"@)
    + servers_errors(c.servers@, c.servers@.len() as int)
    + err_if(!valid_budget_strategy(c.filter.budget_strategy@),
        "Invalid budget strategy: "@ + c.filter.budget_strategy@)
    + err_if(!valid_chunking_strategy(c.filter.chunking_strategy@),
        "Invalid chunking strategy: "@ + c.filter.chunking_strategy@)
    + err_if(!valid_relevance_engine(c.filter.relevance_engine@),
        "Invalid relevance engine: "@ + c.filter.relevance_engine@)
}

/// The views of a list of strings.
pub open spec fn strings_view(v: Seq<String>) -> Seq<Seq<char>> {
    v.map_values(|s: String| s@)
}

fn push_msg(errors: &mut Vec<String>, msg: String)
    ensures
        strings_view(final(errors)@) == strings_view(old(errors)@).push(msg@),
{
    errors.push(msg);
    assert(strings_view(errors@) =~= strings_view(old(errors)@).push(msg@));
}

fn is_one_of3(s: &str, a: &str, b: &str, c: &str) -> (r: bool)
    ensures
        r == (s@ == a@ || s@ == b@ || s@ == c@),
{
    str_eq(s, a) || str_eq(s, b) || str_eq(s, c)
}

fn name_taken_exec(servers: &Vec<ServerConfig>, n: usize, name: &String) -> (r: bool)
    requires
        n <= servers.len(),
    ensures
        r == name_taken(servers@, n as int, name@),
{
    let mut j: usize = 0;
    while j < n
        invariant
            j <= n <= servers.len(),
            forall|k: int| 0 <= k < j ==> (#[trigger] servers@[k]).name@ != name@,
        decreases n - j,
    {
        if str_eq(servers[j].name.as_str(), name.as_str()) {
            assert(servers@[j as int].name@ == name@);
            return true;
        }
        j = j + 1;
    }
    false
}

fn check_server(servers: &Vec<ServerConfig>, i: usize, errors: &mut Vec<String>)
    requires
        i < servers.len(),
    ensures
        strings_view(final(errors)@) == strings_view(old(errors)@) + server_errors(servers@, i as int),
{
    let ghost start = strings_view(errors@);
    let s = &servers[i];
    let name = s.name.as_str();
    let transport = s.transport.as_str();
    let sharing = s.sharing.as_str();
    let ghost sv = servers@[i as int];
    let ghost e1 = err_if(name_taken(servers@, i as int, sv.name@), "Duplicate server name: "@ + sv.name@);
    let ghost e2 = err_if(!valid_transport(sv.transport@),
        "Invalid transport for server "@ + sv.name@ + ": "@ + sv.transport@);
    let ghost e3 = err_if(!valid_sharing(sv.sharing@),
        "Invalid sharing strategy for server "@ + sv.name@ + ": "@ + sv.sharing@);
    let ghost e4 = err_if(sv.transport@ == "stdio"@ && sv.command is None,
        "Server "@ + sv.name@ + " with stdio transport must have a command"@);
    let ghost e5 = err_if((sv.transport@ == "sse"@ || sv.transport@ == "streamable_http"@) && sv.url is None,
        "Server "@ + sv.name@ + " with "@ + sv.transport@ + " transport must have a url"@);

    if name_taken_exec(servers, i, &s.name) {
        push_msg(errors, concat("Duplicate server name: ", name));
    }
    assert(strings_view(errors@) =~= start + e1);
    if !is_one_of3(transport, "stdio", "sse", "streamable_http") {
        let m = concat(concat(concat("Invalid transport for server ", name).as_str(), ": ").as_str(), transport);
        push_msg(errors, m);
    }
    assert(strings_view(errors@) =~= start + e1 + e2);
    if !is_one_of3(sharing, "shared", "pooled", "dedicated") {
        let m = concat(concat(concat("Invalid sharing strategy for server ", name).as_str(), ": ").as_str(), sharing);
        push_msg(errors, m);
    }
    assert(strings_view(errors@) =~= start + e1 + e2 + e3);
    if str_eq(transport, "stdio") && s.command.is_none() {
        let m = concat(concat("Server ", name).as_str(), " with stdio transport must have a command");
        push_msg(errors, m);
    }
    assert(strings_view(errors@) =~= start + e1 + e2 + e3 + e4);
    if (str_eq(transport, "sse") || str_eq(transport, "streamable_http")) && s.url.is_none() {
        let m = concat(concat(concat(concat("Server ", name).as_str(), " with ").as_str(), transport).as_str(),
            " transport must have a url");
        push_msg(errors, m);
    }
    assert(strings_view(errors@) =~= start + e1 + e2 + e3 + e4 + e5);
    assert(server_errors(servers@, i as int) == e1 + e2 + e3 + e4 + e5);
    assert(start + e1 + e2 + e3 + e4 + e5 =~= start + (e1 + e2 + e3 + e4 + e5));
}

/// Checks the configuration against the hub's rules.
///
/// Succeeds exactly when no rule fails; one failure is reported as
/// `Validation`, several as `MultipleErrors`, in the order the rules run.
pub fn validate_config(config: &Config) -> (r: Result<(), ConfigError>)
    ensures
        validation_errors(*config).len() == 0 <==> r is Ok,
        validation_errors(*config).len() == 1 <==> (r matches Err(ConfigError::Validation(m))
            && m@ == validation_errors(*config)[0]),
        validation_errors(*config).len() > 1 <==> (r matches Err(ConfigError::MultipleErrors(v))
            && strings_view(v@) == validation_errors(*config)),
{
    let mut errors: Vec<String> = Vec::new();
    let ghost c = *config;
    assert(strings_view(errors@) =~= Seq::<Seq<char>>::empty());

    if config.hub.listen_port == 0 {
        push_msg(&mut errors, String::from_str("hub.listen_port must be > 0"));
    }
    if config.admin.port == config.hub.listen_port {
        push_msg(&mut errors, String::from_str("admin.port must differ from hub.listen_port"));
    }
    let ghost head = strings_view(errors@);
    assert(head =~= err_if(c.hub.listen_port == 0, "hub.listen_port must be > 0"@)
        + err_if(c.admin.port == c.hub.listen_port, "admin.port must differ from hub.listen_port"@));

    let mut i: usize = 0;
    while i < config.servers.len()
        invariant
            i <= config.servers.len(),
            strings_view(errors@) == head + servers_errors(config.servers@, i as int),
        decreases config.servers.len() - i,
    {
        check_server(&config.servers, i, &mut errors);
        assert(head + servers_errors(config.servers@, i as int) + server_errors(config.servers@, i as int)
            =~= head + servers_errors(config.servers@, i + 1));
        i = i + 1;
    }
    let ghost mid = strings_view(errors@);

    let bs = config.filter.budget_strategy.as_str();
    if !is_one_of3(bs, "truncate", "summarize", "hybrid") {
        push_msg(&mut errors, concat("Invalid budget strategy: ", bs));
    }
    let cs = config.filter.chunking_strategy.as_str();
    if !(is_one_of3(cs, "paragraph", "line", "json_element") || str_eq(cs, "fixed_size")) {
        push_msg(&mut errors, concat("Invalid chunking strategy: ", cs));
    }
    let re = config.filter.relevance_engine.as_str();
    if !is_one_of3(re, "tags", "tfidf", "embedding") {
        push_msg(&mut errors, concat("Invalid relevance engine: ", re));
    }
    assert(strings_view(errors@) =~= validation_errors(c));

    if errors.len() == 0 {
        Ok(())
    } else if errors.len() == 1 {
        let m = errors.pop().unwrap();
        assert(strings_view(errors@.push(m))[0] == m@);
        Err(ConfigError::Validation(m))
    } else {
        Err(ConfigError::MultipleErrors(errors))
    }
}

/// Accepts the configuration when its version is [`CONFIG_VERSION`] and it
/// passes [`validate_config`], in that order.
pub fn check_config(config: &Config) -> (r: Result<(), ConfigError>)
    ensures
        config.config_version != CONFIG_VERSION ==> (r matches Err(ConfigError::InvalidVersion(v))
            && v == config.config_version),
        config.config_version == CONFIG_VERSION ==> (r is Ok <==> validation_errors(*config).len() == 0),
{
    if config.config_version != CONFIG_VERSION {
        return Err(ConfigError::InvalidVersion(config.config_version));
    }
    validate_config(config)
}

} // verus!

//! The decisions of the pool manager: admitting a server, starting it,
//! reaching its pool, supervising its process through crashes, and
//! expanding `{env:NAME}` placeholders in its command line.
use vstd::prelude::*;
use vstd::string::*;
use crate::config::ServerConfig;
use crate::reload::first_named;
use crate::lifecycle::{LifecycleInfo, ServerState};
use crate::numfmt::{digits, u64_to_decimal};
use crate::text::{from_char_range, str_eq, to_chars};

verus! {

/// Errors of the pool manager.
pub enum ManagerError {
    ServerNotFound(String),
    ServerAlreadyExists(String),
    TransportError(String),
    InvalidConfig(String),
    ServerDisabled,
    Internal(String),
}

impl ManagerError {
    /// The message shown for the error.
    pub fn message(&self) -> (m: String)
        ensures
            m@ == match self {
                ManagerError::ServerNotFound(n) => "Server not found: "@ + n@,
                ManagerError::ServerAlreadyExists(n) => "Server already exists: "@ + n@,
                ManagerError::TransportError(e) => "Transport error: "@ + e@,
                ManagerError::InvalidConfig(e) => "Invalid configuration: "@ + e@,
                ManagerError::ServerDisabled => "Server is disabled"@,
                ManagerError::Internal(e) => "Internal error: "@ + e@,
            },
    {
        match self {
            ManagerError::ServerNotFound(n) => {
                let mut m = String::from_str("Server not found: ");
                m.append(n.as_str());
                m
            },
            ManagerError::ServerAlreadyExists(n) => {
                let mut m = String::from_str("Server already exists: ");
                m.append(n.as_str());
                m
            },
            ManagerError::TransportError(e) => {
                let mut m = String::from_str("Transport error: ");
                m.append(e.as_str());
                m
            },
            ManagerError::InvalidConfig(e) => {
                let mut m = String::from_str("Invalid configuration: ");
                m.append(e.as_str());
                m
            },
            ManagerError::ServerDisabled => String::from_str("Server is disabled"),
            ManagerError::Internal(e) => {
                let mut m = String::from_str("Internal error: ");
                m.append(e.as_str());
                m
            },
        }
    }
}

/// Why a server cannot be added, if it cannot: its name is taken, or its
/// transport lacks what it needs (a command for `stdio`, a URL for `sse`
/// and `streamable_http`), or the transport is unknown.
pub open spec fn spec_admission(exists: bool, transport: Seq<char>, name: Seq<char>, has_command: bool, has_url: bool) -> Option<(nat, Seq<char>)> {
    if exists {
        Some((0, name))
    } else if transport == "stdio"@ {
        if has_command { None } else { Some((1, "stdio transport requires command"@)) }
    } else if transport == "sse"@ || transport == "streamable_http"@ {
        if has_url { None } else { Some((1, transport + " transport requires url"@)) }
    } else {
        Some((1, "Unknown transport: "@ + transport))
    }
}

/// Checks a server before it is added: `ServerAlreadyExists` when the name
/// is taken, `InvalidConfig` when its transport lacks a command or URL or
/// is unknown.
pub fn check_new_server(exists: bool, config: &ServerConfig) -> (r: Result<(), ManagerError>)
    ensures
        match spec_admission(exists, config.transport@, config.name@, config.command is Some, config.url is Some) {
            None => r is Ok,
            Some((kind, text)) => match r {
                Ok(_) => false,
                Err(ManagerError::ServerAlreadyExists(n)) => kind == 0 && n@ == text,
                Err(ManagerError::InvalidConfig(e)) => kind == 1 && e@ == text,
                Err(_) => false,
            },
        },
{
    if exists {
        return Err(ManagerError::ServerAlreadyExists(config.name.clone()));
    }
    let t = config.transport.as_str();
    if str_eq(t, "stdio") {
        if config.command.is_none() {
            return Err(ManagerError::InvalidConfig(String::from_str("stdio transport requires command")));
        }
        Ok(())
    } else if str_eq(t, "sse") || str_eq(t, "streamable_http") {
        if config.url.is_none() {
            let mut e = String::from_str(t);
            e.append(" transport requires url");
            return Err(ManagerError::InvalidConfig(e));
        }
        Ok(())
    } else {
        let mut e = String::from_str("Unknown transport: ");
        e.append(t);
        Err(ManagerError::InvalidConfig(e))
    }
}

/// How a server is started.
#[derive(Debug, Clone, Copy, PartialEq, Eq, Structural)]
pub enum StartKind {
    /// Spawn its command and talk over stdio.
    SpawnStdio,
    /// Nothing to spawn: HTTP transports connect per request.
    Http,
}

/// How to start a server, after it has moved to `Starting`: a `stdio`
/// server spawns its command (an `InvalidConfig` error when it has none);
/// any other transport needs no process.
pub fn start_kind(config: &ServerConfig) -> (r: Result<StartKind, ManagerError>)
    ensures
        config.transport@ == "stdio"@ && config.command is Some ==> r == Ok::<StartKind, ManagerError>(StartKind::SpawnStdio),
        config.transport@ == "stdio"@ && config.command is None ==> (r matches Err(ManagerError::InvalidConfig(e))
            && e@ == "stdio transport requires command"@),
        config.transport@ != "stdio"@ ==> r == Ok::<StartKind, ManagerError>(StartKind::Http),
{
    if str_eq(config.transport.as_str(), "stdio") {
        if config.command.is_none() {
            return Err(ManagerError::InvalidConfig(String::from_str("stdio transport requires command")));
        }
        Ok(StartKind::SpawnStdio)
    } else {
        Ok(StartKind::Http)
    }
}

/// The state after the first start: warm when the server came up (or
/// needed no process), cold when spawning failed.
pub fn after_start(info: &mut LifecycleInfo, started: bool)
    ensures
        final(info).state == if started { ServerState::Warm } else { ServerState::Cold },
        final(info).last_ping == old(info).last_ping,
        started ==> final(info).failure_count == 0 && final(info).last_error is None,
        !started ==> final(info).failure_count == old(info).failure_count && final(info).last_error == old(info).last_error,
{
    if started {
        info.transition_to(ServerState::Warm);
    } else {
        info.transition_to(ServerState::Cold);
    }
}

/// Replaces the configuration of the first server named `name` with
/// `config`; `ServerNotFound` when no server has that name, the list then
/// unchanged.
pub fn update_server_config(configs: &mut Vec<ServerConfig>, name: &str, config: ServerConfig) -> (r: Result<(), ManagerError>)
    ensures
        match r {
            Ok(()) => {
                &&& first_named(old(configs)@, name@) >= 0
                &&& final(configs)@ == old(configs)@.update(first_named(old(configs)@, name@), config)
            },
            Err(e) => {
                &&& first_named(old(configs)@, name@) < 0
                &&& final(configs)@ == old(configs)@
                &&& e matches ManagerError::ServerNotFound(n) && n@ == name@
            },
        },
{
    let ghost s = configs@;
    let mut i: usize = 0;
    assert(s.skip(0) =~= s);
    while i < configs.len()
        invariant
            s == configs@,
            s == old(configs)@,
            i <= configs.len(),
            first_named(s, name@) == if first_named(s.skip(i as int), name@) < 0 {
                -1
            } else {
                first_named(s.skip(i as int), name@) + i
            },
        decreases configs.len() - i,
    {
        let ghost rest = s.skip(i as int);
        assert(rest[0] == s[i as int]);
        assert(rest.drop_first() =~= s.skip(i + 1));
        if str_eq(configs[i].name.as_str(), name) {
            assert(rest[0].name@ == name@);
            assert(first_named(rest, name@) == 0);
            assert(first_named(s, name@) == i);
            configs.set(i, config);
            return Ok(());
        }
        i = i + 1;
    }
    assert(s.skip(i as int) =~= Seq::<ServerConfig>::empty());
    Err(ManagerError::ServerNotFound(String::from_str(name)))
}

/// Whether a server's pool may be handed out: `ServerNotFound` for an
/// unknown server, `ServerDisabled` for one disabled or failed, `Internal`
/// when it has no pool.
pub fn pool_access(name: &str, state: Option<ServerState>, has_pool: bool) -> (r: Result<(), ManagerError>)
    ensures
        match state {
            None => r matches Err(ManagerError::ServerNotFound(n)) && n@ == name@,
            Some(s) => if s == ServerState::Disabled || s == ServerState::Failed {
                r matches Err(ManagerError::ServerDisabled)
            } else if !has_pool {
                r matches Err(ManagerError::Internal(e)) && e@ == "Pool not initialized"@
            } else {
                r is Ok
            },
        },
{
    match state {
        None => Err(ManagerError::ServerNotFound(String::from_str(name))),
        Some(s) => {
            if !s.is_available() {
                Err(ManagerError::ServerDisabled)
            } else if !has_pool {
                Err(ManagerError::Internal(String::from_str("Pool not initialized")))
            } else {
                Ok(())
            }
        },
    }
}

/// What the supervisor of a crashed server does next.
#[derive(Debug, Clone, Copy, PartialEq, Eq, Structural)]
pub enum RecoveryStep {
    /// Leave the server alone: it was removed, disabled, or is draining.
    Stop,
    /// Wait the backoff of this attempt (numbered from 1), then spawn again.
    Respawn(u32),
    /// No attempt is left; the server has been disabled.
    GiveUp,
}

/// After a server's receive loop ended: the crash is recorded; a server no
/// longer registered (`current` is the state of the registered entry), or
/// disabled or draining, is left alone; otherwise respawning begins with
/// attempt 1, or, when no attempt is allowed, the server is disabled.
pub fn after_crash(info: &mut LifecycleInfo, current: Option<ServerState>, max_attempts: u32) -> (step: RecoveryStep)
    requires
        old(info).failure_count < u32::MAX,
    ensures
        final(info).failure_count == old(info).failure_count + 1,
        final(info).last_error matches Some(e) && e@ == "receive_loop exited — server crashed"@,
        final(info).last_ping is Some,
        step == match current {
            None => RecoveryStep::Stop,
            Some(s) => if s == ServerState::Disabled || s == ServerState::Draining {
                RecoveryStep::Stop
            } else if max_attempts == 0 {
                RecoveryStep::GiveUp
            } else {
                RecoveryStep::Respawn(1)
            },
        },
        final(info).state == if step == RecoveryStep::GiveUp { ServerState::Disabled } else { old(info).state },
{
    info.record_failure(String::from_str("receive_loop exited — server crashed"));
    let stop = match current {
        None => true,
        Some(s) => s == ServerState::Disabled || s == ServerState::Draining,
    };
    if stop {
        return RecoveryStep::Stop;
    }
    if max_attempts == 0 {
        info.transition_to(ServerState::Disabled);
        return RecoveryStep::GiveUp;
    }
    RecoveryStep::Respawn(1)
}

/// The error recorded when respawn attempt `attempt` failed with `error`.
pub open spec fn respawn_failure(attempt: u32, error: Seq<char>) -> Seq<char> {
    "Spawn attempt "@ + digits(attempt as nat, 10) + " failed: "@ + error
}

/// After respawn attempt `attempt` failed: the failure is recorded; the
/// next attempt follows while attempts are left, else the server is
/// disabled.
pub fn after_failed_respawn(info: &mut LifecycleInfo, attempt: u32, max_attempts: u32, error: &str) -> (step: RecoveryStep)
    requires
        old(info).failure_count < u32::MAX,
        1 <= attempt <= max_attempts,
    ensures
        final(info).failure_count == old(info).failure_count + 1,
        final(info).last_error matches Some(e) && e@ == respawn_failure(attempt, error@),
        final(info).last_ping is Some,
        step == if attempt < max_attempts { RecoveryStep::Respawn((attempt + 1) as u32) } else { RecoveryStep::GiveUp },
        final(info).state == if attempt < max_attempts { old(info).state } else { ServerState::Disabled },
{
    let mut e = String::from_str("Spawn attempt ");
    let n = u64_to_decimal(attempt as u64);
    e.append(n.as_str());
    e.append(" failed: ");
    e.append(error);
    info.record_failure(e);
    if attempt < max_attempts {
        RecoveryStep::Respawn(attempt + 1)
    } else {
        info.transition_to(ServerState::Disabled);
        RecoveryStep::GiveUp
    }
}

/// After a respawn succeeded: the failures are cleared and the server is
/// warm again.
pub fn after_respawn(info: &mut LifecycleInfo)
    ensures
        final(info).state == ServerState::Warm,
        final(info).failure_count == 0,
        final(info).last_error is None,
        final(info).last_ping is Some,
{
    info.record_success();
    info.transition_to(ServerState::Warm);
}

/// The first position at which `pat` occurs in `s`, or -1.
pub open spec fn find_seq(s: Seq<char>, pat: Seq<char>) -> int
    decreases s.len(),
{
    if s.len() >= pat.len() && s.take(pat.len() as int) == pat {
        0
    } else if s.len() == 0 {
        -1
    } else {
        let r = find_seq(s.drop_first(), pat);
        if r < 0 { -1 } else { r + 1 }
    }
}

/// A sequence shorter than the pattern holds no match.
proof fn lemma_find_seq_short(s: Seq<char>, pat: Seq<char>)
    requires
        s.len() < pat.len(),
    ensures
        find_seq(s, pat) < 0,
    decreases s.len(),
{
    if s.len() > 0 {
        lemma_find_seq_short(s.drop_first(), pat);
    }
}

/// The placeholder opener `{env:`.
pub open spec fn env_open() -> Seq<char> {
    seq!['{', 'e', 'n', 'v', ':']
}

/// The next placeholder of `s` to expand: where the first `{env:` starts
/// and the name up to the first `}` after it; none when there is no
/// `{env:`, or no `}` after the first one.
pub open spec fn spec_next_placeholder(s: Seq<char>) -> Option<(int, Seq<char>)> {
    let start = find_seq(s, env_open());
    if start < 0 {
        None
    } else {
        let rest = s.skip(start + 5);
        let end = find_seq(rest, seq!['}']);
        if end < 0 {
            None
        } else {
            Some((start, rest.take(end)))
        }
    }
}

/// The position of the first occurrence of `pat` in `v` at or after
/// `from`, if any.
fn find_from(v: &Vec<char>, pat: &Vec<char>, from: usize) -> (r: Option<usize>)
    requires
        from <= v.len(),
    ensures
        match r {
            Some(i) => from <= i && i as int == from + find_seq(v@.skip(from as int), pat@),
            None => find_seq(v@.skip(from as int), pat@) < 0,
        },
{
    let mut i: usize = from;
    while v.len() - i >= pat.len()
        invariant
            from <= i <= v.len(),
            find_seq(v@.skip(from as int), pat@) == if find_seq(v@.skip(i as int), pat@) < 0 {
                -1
            } else {
                find_seq(v@.skip(i as int), pat@) + (i - from)
            },
        decreases v.len() - i,
    {
        let ghost rest = v@.skip(i as int);
        let mut k: usize = 0;
        let mut same = true;
        while k < pat.len()
            invariant
                i + pat.len() <= v.len(),
                k <= pat.len(),
                same == forall|m: int| 0 <= m < k ==> v@[i + m] == pat@[m],
            decreases pat.len() - k,
        {
            if v[i + k] != pat[k] {
                same = false;
            }
            k = k + 1;
        }
        if same {
            assert(rest.take(pat@.len() as int) =~= pat@);
            return Some(i);
        }
        assert(rest.take(pat@.len() as int) != pat@) by {
            let m = choose|m: int| 0 <= m < pat.len() && v@[i + m] != pat@[m];
            assert(rest.take(pat@.len() as int)[m] == v@[i + m]);
        }
        assert(rest.drop_first() =~= v@.skip(i + 1));
        i = i + 1;
    }
    proof {
        lemma_find_seq_short(v@.skip(i as int), pat@);
    }
    None
}

/// The next `{env:NAME}` placeholder of `s`: where it starts (in
/// characters) and the name.
pub fn next_env_placeholder(s: &str) -> (r: Option<(usize, String)>)
    ensures
        match r {
            Some((start, name)) => spec_next_placeholder(s@) == Some((start as int, name@)),
            None => spec_next_placeholder(s@) is None,
        },
{
    let v = to_chars(s);
    let open: Vec<char> = vec!['{', 'e', 'n', 'v', ':'];
    let close: Vec<char> = vec!['}'];
    assert(open@ =~= env_open());
    assert(close@ =~= seq!['}']);
    assert(v@.skip(0) =~= v@);
    match find_from(&v, &open, 0) {
        None => None,
        Some(start) => {
            proof {
                lemma_find_seq_fits(v@, env_open());
            }
            let after = start + 5;
            match find_from(&v, &close, after) {
                None => None,
                Some(end) => {
                    proof {
                        lemma_find_seq_fits(v@.skip(after as int), seq!['}']);
                    }
                    let name = from_char_range(&v, after, end);
                    assert(name@ =~= s@.skip(after as int).take(end - after));
                    Some((start, name))
                },
            }
        },
    }
}

/// A match lies within the sequence.
proof fn lemma_find_seq_fits(s: Seq<char>, pat: Seq<char>)
    ensures
        find_seq(s, pat) >= 0 ==> find_seq(s, pat) + pat.len() <= s.len(),
    decreases s.len(),
{
    if !(s.len() >= pat.len() && s.take(pat.len() as int) == pat) && s.len() > 0 {
        lemma_find_seq_fits(s.drop_first(), pat);
    }
}

/// Where the text after the next placeholder of `s` begins, when there is
/// one: past its closing `}`.
pub open spec fn placeholder_end(s: Seq<char>) -> int {
    match spec_next_placeholder(s) {
        Some((start, name)) => start + 6 + name.len(),
        None => s.len() as int,
    }
}

/// The names of the placeholders of `s`, from left to right, each search
/// resuming after the previous placeholder.
pub open spec fn placeholder_names(s: Seq<char>) -> Seq<Seq<char>>
    decreases s.len(),
{
    match spec_next_placeholder(s) {
        Some((start, name)) => if 0 < placeholder_end(s) <= s.len() {
            seq![name] + placeholder_names(s.skip(placeholder_end(s)))
        } else {
            Seq::empty()
        },
        None => Seq::empty(),
    }
}

/// `s` with its placeholders (see `placeholder_names`) replaced from left
/// to right: the `i`-th by `values[i]` when that is set; a placeholder
/// without a value is left as it is.
pub open spec fn expanded(s: Seq<char>, values: Seq<Option<Seq<char>>>) -> Seq<char>
    decreases s.len(),
{
    match spec_next_placeholder(s) {
        Some((start, name)) => if 0 < placeholder_end(s) <= s.len() {
            let fill = if values.len() > 0 && values[0] is Some {
                values[0].unwrap()
            } else {
                s.subrange(start, placeholder_end(s))
            };
            let later = if values.len() > 0 { values.drop_first() } else { values };
            s.take(start) + fill + expanded(s.skip(placeholder_end(s)), later)
        } else {
            s
        },
        None => s,
    }
}

/// The abstract value of an optional string.
pub open spec fn opt_view(o: Option<String>) -> Option<Seq<char>> {
    match o {
        Some(v) => Some(v@),
        None => None,
    }
}

/// A placeholder lies within the text and is not empty.
proof fn lemma_placeholder_fits(s: Seq<char>)
    ensures
        spec_next_placeholder(s) is Some ==> {
            let (start, name) = spec_next_placeholder(s).unwrap();
            0 <= start && 0 < placeholder_end(s) <= s.len()
        },
{
    lemma_find_seq_fits(s, env_open());
    let start = find_seq(s, env_open());
    if start >= 0 {
        lemma_find_seq_fits(s.skip(start + 5), seq!['}']);
        lemma_find_seq_nonneg(s, env_open());
        lemma_find_seq_nonneg(s.skip(start + 5), seq!['}']);
    }
}

/// A search result is -1 or a position.
proof fn lemma_find_seq_nonneg(s: Seq<char>, pat: Seq<char>)
    ensures
        find_seq(s, pat) >= -1,
    decreases s.len(),
{
    if !(s.len() >= pat.len() && s.take(pat.len() as int) == pat) && s.len() > 0 {
        lemma_find_seq_nonneg(s.drop_first(), pat);
    }
}

/// One step through `s`: the next placeholder's start and name, and the
/// text after it; `None` when there is none.
fn split_at_placeholder(s: &str) -> (r: Option<(String, String, String)>)
    ensures
        match r {
            Some((head, name, tail)) => spec_next_placeholder(s@) is Some && {
                let (start, n) = spec_next_placeholder(s@).unwrap();
                &&& head@ == s@.take(start)
                &&& name@ == n
                &&& tail@ == s@.skip(placeholder_end(s@))
            },
            None => spec_next_placeholder(s@) is None,
        },
{
    match next_env_placeholder(s) {
        None => None,
        Some((start, name)) => {
            proof {
                lemma_placeholder_fits(s@);
            }
            let v = to_chars(s);
            let nlen = to_chars(name.as_str()).len();
            assert(nlen == name@.len());
            assert(placeholder_end(s@) == start + 6 + nlen);
            let head = from_char_range(&v, 0, start);
            let tail = from_char_range(&v, start + 6 + nlen, v.len());
            assert(head@ =~= s@.take(start as int));
            assert(tail@ =~= s@.skip(placeholder_end(s@)));
            Some((head, name, tail))
        },
    }
}

/// The names of the `{env:NAME}` placeholders of `s`, from left to right.
pub fn env_placeholder_names(s: &str) -> (r: Vec<String>)
    ensures
        r@.map_values(|x: String| x@) == placeholder_names(s@),
{
    let mut r: Vec<String> = Vec::new();
    let mut rest = String::from_str(s);
    assert(r@.map_values(|x: String| x@) + placeholder_names(rest@) =~= placeholder_names(s@));
    loop
        invariant
            r@.map_values(|x: String| x@) + placeholder_names(rest@) == placeholder_names(s@),
        decreases rest@.len(),
    {
        let ghost rv = rest@;
        match split_at_placeholder(rest.as_str()) {
            None => {
                assert(placeholder_names(rv) =~= Seq::<Seq<char>>::empty());
                assert(r@.map_values(|x: String| x@) =~= placeholder_names(s@));
                return r;
            },
            Some((_head, name, tail)) => {
                proof {
                    lemma_placeholder_fits(rv);
                }
                let ghost before = r@.map_values(|x: String| x@);
                let ghost nv = name@;
                r.push(name);
                assert(r@.map_values(|x: String| x@) =~= before.push(nv));
                assert(placeholder_names(rv) == seq![nv] + placeholder_names(tail@));
                assert(before.push(nv) + placeholder_names(tail@) =~= before + (seq![nv] + placeholder_names(tail@)));
                rest = tail;
            },
        }
    }
}

/// `s` with its `{env:NAME}` placeholders replaced from left to right by
/// `values` (one per name of `env_placeholder_names`, in order); a
/// placeholder without a value is left as it is.
pub fn expand_env_placeholders(s: &str, values: &Vec<Option<String>>) -> (r: String)
    ensures
        r@ == expanded(s@, values@.map_values(|o: Option<String>| opt_view(o))),
{
    let ghost vals = values@.map_values(|o: Option<String>| opt_view(o));
    let mut done = String::new();
    let mut rest = String::from_str(s);
    let mut i: usize = 0;
    assert(vals.skip(0) =~= vals);
    loop
        invariant
            vals == values@.map_values(|o: Option<String>| opt_view(o)),
            i <= values.len(),
            done@ + expanded(rest@, vals.skip(i as int)) == expanded(s@, vals),
        decreases rest@.len(),
    {
        let ghost rv = rest@;
        let ghost vs = vals.skip(i as int);
        match split_at_placeholder(rest.as_str()) {
            None => {
                assert(expanded(rv, vs) == rv);
                done.append(rest.as_str());
                return done;
            },
            Some((head, name, tail)) => {
                proof {
                    lemma_placeholder_fits(rv);
                }
                let ghost st = spec_next_placeholder(rv).unwrap().0;
                let ghost fill = if vs.len() > 0 && vs[0] is Some {
                    vs[0].unwrap()
                } else {
                    rv.subrange(st, placeholder_end(rv))
                };
                let ghost d0 = done@;
                done.append(head.as_str());
                if i < values.len() && values[i].is_some() {
                    let v = values[i].as_ref().unwrap();
                    assert(vs[0] == vals[i as int]);
                    done.append(v.as_str());
                } else {
                    proof {
                        reveal_strlit("{env:");
                        reveal_strlit("}");
                        if i < values.len() {
                            assert(vs[0] == vals[i as int]);
                        }
                    }
                    done.append("{env:");
                    done.append(name.as_str());
                    done.append("}");
                    assert(rv.subrange(st, placeholder_end(rv)) =~= "{env:"@ + name@ + "}"@) by {
                        lemma_placeholder_text(rv);
                    }
                }
                assert(done@ =~= d0 + rv.take(st) + fill);
                if i < values.len() {
                    assert(vals.skip(i + 1) =~= vs.drop_first());
                    i = i + 1;
                }
                assert(d0 + expanded(rv, vs) =~= d0 + rv.take(st) + fill + expanded(tail@, vals.skip(i as int)));
                rest = tail;
            },
        }
    }
}

/// The text of the next placeholder is `{env:`, its name and `}`.
proof fn lemma_placeholder_text(s: Seq<char>)
    requires
        spec_next_placeholder(s) is Some,
    ensures
        ({
            let (start, name) = spec_next_placeholder(s).unwrap();
            s.subrange(start, placeholder_end(s)) == env_open() + name + seq!['}']
        }),
{
    lemma_placeholder_fits(s);
    let start = find_seq(s, env_open());
    let rest = s.skip(start + 5);
    let end = find_seq(rest, seq!['}']);
    lemma_find_seq_match(s, env_open());
    lemma_find_seq_match(rest, seq!['}']);
    lemma_find_seq_nonneg(s, env_open());
    lemma_find_seq_nonneg(rest, seq!['}']);
    lemma_find_seq_fits(rest, seq!['}']);
    let t = s.subrange(start, placeholder_end(s));
    let w = env_open() + rest.take(end) + seq!['}'];
    assert(t.len() == w.len());
    assert forall|k: int| 0 <= k < t.len() implies t[k] == w[k] by {
        if k < 5 {
            assert(s.subrange(start, start + 5)[k] == env_open()[k]);
        } else if k < 5 + end {
            assert(rest[k - 5] == s[start + k]);
        } else {
            assert(rest.subrange(end, end + 1)[0] == '}');
            assert(rest[end] == s[start + 5 + end]);
        }
    }
    assert(t =~= w);
}

/// Where the search finds the pattern, the pattern is there.
proof fn lemma_find_seq_match(s: Seq<char>, pat: Seq<char>)
    ensures
        find_seq(s, pat) >= 0 ==> s.subrange(find_seq(s, pat), find_seq(s, pat) + pat.len()) == pat,
    decreases s.len(),
{
    lemma_find_seq_fits(s, pat);
    if s.len() >= pat.len() && s.take(pat.len() as int) == pat {
        assert(s.subrange(0, pat.len() as int) =~= s.take(pat.len() as int));
    } else if s.len() > 0 {
        lemma_find_seq_match(s.drop_first(), pat);
        let r = find_seq(s.drop_first(), pat);
        if r >= 0 {
            lemma_find_seq_fits(s.drop_first(), pat);
            assert(s.subrange(r + 1, r + 1 + pat.len()) =~= s.drop_first().subrange(r, r + pat.len()));
        }
    }
}

} // verus!

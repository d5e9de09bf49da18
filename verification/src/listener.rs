//! Decisions of the client-facing HTTP listener: who is let in, with
//! which limits, and how the answer is shaped.
use vstd::prelude::*;
use vstd::string::*;
use crate::config::{AuthConfig, AuthProfile, profile_for_token};
use crate::text::{to_chars, from_char_range, str_eq, contains_str, has_substring, concat};

verus! {

/// Token budget per request when no profile says otherwise.
pub const DEFAULT_REQUEST_BUDGET: usize = 4000;

/// Requests per minute when no profile says otherwise.
pub const DEFAULT_RATE_LIMIT: u32 = 60;

/// The token budget and rate limit of a session: those of its profile
/// (60 requests a minute when the profile sets no limit), or 4000 tokens
/// and 60 requests without a profile.
pub fn profile_limits(profile: Option<&AuthProfile>) -> (r: (usize, u32))
    ensures
        r == match profile {
            Some(p) => (p.token_budget_per_request, match p.rate_limit_per_minute {
                Some(l) => l,
                None => 60u32,
            }),
            None => (4000usize, 60u32),
        },
{
    match profile {
        Some(p) => {
            let limit = match p.rate_limit_per_minute {
                Some(l) => l,
                None => DEFAULT_RATE_LIMIT,
            };
            (p.token_budget_per_request, limit)
        },
        None => (DEFAULT_REQUEST_BUDGET, DEFAULT_RATE_LIMIT),
    }
}

/// The outcome of authenticating a request.
#[derive(Debug, Clone, PartialEq, Eq)]
pub enum AuthDecision {
    /// Let in, under this profile.
    Allow(String),
    /// Refused with 401 and this message.
    Deny(String),
}

/// `"Bearer "`.
pub open spec fn bearer_prefix() -> Seq<char> {
    seq!['B', 'e', 'a', 'r', 'e', 'r', ' ']
}

/// The token of an `Authorization` header: what follows `Bearer `, or
/// nothing.
pub open spec fn bearer_token_of(header: Seq<char>) -> Seq<char> {
    if header.len() >= 7 && header.take(7) == bearer_prefix() { header.skip(7) } else { Seq::empty() }
}

/// The token an `Authorization` header carries.
pub fn bearer_token(header: &str) -> (t: String)
    ensures
        t@ == bearer_token_of(header@),
{
    let v = to_chars(header);
    let p = to_chars("Bearer ");
    proof {
        reveal_strlit("Bearer ");
        assert(p@ =~= bearer_prefix());
    }
    if v.len() < 7 {
        return String::new();
    }
    let mut i: usize = 0;
    while i < 7
        invariant
            i <= 7,
            v.len() >= 7,
            v@ == header@,
            p@ == bearer_prefix(),
            forall|j: int| 0 <= j < i ==> v@[j] == p@[j],
        decreases 7 - i,
    {
        if v[i] != p[i] {
            assert(v@.take(7)[i as int] != bearer_prefix()[i as int]);
            return String::new();
        }
        i = i + 1;
    }
    assert(v@.take(7) =~= bearer_prefix());
    let t = from_char_range(&v, 7, v.len());
    assert(v@.subrange(7, v@.len() as int) =~= header@.skip(7));
    t
}

/// How a request is authenticated: with a configured bearer token the
/// whole `Authorization` header must be exactly `Bearer <token>`; a
/// `bearer` method needs a token that resolves to a profile, and the
/// request runs under that profile; anything else runs under the `default`
/// profile.
pub open spec fn spec_authorize(auth: Option<AuthConfig>, expected: Option<Seq<char>>, header: Seq<char>) -> (bool, Seq<char>) {
    let token = bearer_token_of(header);
    match auth {
        None => (true, "default"@),
        Some(cfg) => if expected is Some && header != bearer_prefix() + expected.unwrap() {
            (false, "Unauthorized"@)
        } else if cfg.method@ == "bearer"@ {
            if token.len() == 0 {
                (false, "Bearer token required"@)
            } else {
                match profile_for_token(cfg.profiles@, token) {
                    Some(p) => (true, p),
                    None => (false, "Invalid bearer token"@),
                }
            }
        } else {
            (true, "default"@)
        },
    }
}

/// Authenticates a request from its `Authorization` header; `expected` is
/// the configured bearer token, if any. Profiles are resolved with
/// [`AuthConfig::resolve_profile`].
pub fn authorize(auth: Option<&AuthConfig>, expected: Option<&str>, header: &str) -> (d: AuthDecision)
    ensures
        ({
            let (ok, text) = spec_authorize(
                match auth { Some(a) => Some(*a), None => None },
                match expected { Some(e) => Some(e@), None => None },
                header@,
            );
            match d {
                AuthDecision::Allow(p) => ok && p@ == text,
                AuthDecision::Deny(m) => !ok && m@ == text,
            }
        }),
{
    match auth {
        None => AuthDecision::Allow(String::from_str("default")),
        Some(cfg) => {
            if let Some(e) = expected {
                let wanted = concat("Bearer ", e);
                proof {
                    reveal_strlit("Bearer ");
                    assert("Bearer "@ =~= bearer_prefix());
                }
                if !str_eq(header, wanted.as_str()) {
                    return AuthDecision::Deny(String::from_str("Unauthorized"));
                }
            }
            let token = bearer_token(header);
            if str_eq(cfg.method.as_str(), "bearer") {
                if token.as_str().unicode_len() == 0 {
                    return AuthDecision::Deny(String::from_str("Bearer token required"));
                }
                match cfg.resolve_profile(token.as_str()) {
                    Some(p) => AuthDecision::Allow(p),
                    None => AuthDecision::Deny(String::from_str("Invalid bearer token")),
                }
            } else {
                AuthDecision::Allow(String::from_str("default"))
            }
        },
    }
}

/// Whether the client asked for a server-sent event stream.
pub fn wants_event_stream(accept: Option<&str>) -> (r: bool)
    ensures
        r == match accept {
            Some(a) => has_substring(a@, "text/event-stream"@),
            None => false,
        },
{
    match accept {
        Some(a) => contains_str(a, "text/event-stream"),
        None => false,
    }
}

/// The HTTP status of a routed answer: 202 when it carries no id, else 200.
pub fn answer_status(has_id: bool) -> (s: u16)
    ensures
        s == if has_id { 200u16 } else { 202u16 },
{
    if has_id { 200 } else { 202 }
}

} // verus!

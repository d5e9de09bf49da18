//! Lifecycle of a backend server: its state and failure bookkeeping.
use vstd::prelude::*;
use vstd::string::*;
use std::time::Instant;
use crate::clock::instant_now;

verus! {

/// The lifecycle state of a backend server.
#[derive(Debug, Clone, Copy, PartialEq, Eq, Structural)]
pub enum ServerState {
    /// Not connected, no process running.
    Cold,
    /// Connection or process being established.
    Starting,
    /// Connected and idle.
    Warm,
    /// Processing requests.
    Hot,
    /// Taking no new requests; waiting for those in flight.
    Draining,
    /// Switched off by an administrator; its tools are hidden.
    Disabled,
    /// Too many consecutive failures.
    Failed,
}

/// The name a state is displayed with.
pub open spec fn state_name(s: ServerState) -> Seq<char> {
    match s {
        ServerState::Cold => seq!['c', 'o', 'l', 'd'],
        ServerState::Starting => seq!['s', 't', 'a', 'r', 't', 'i', 'n', 'g'],
        ServerState::Warm => seq!['w', 'a', 'r', 'm'],
        ServerState::Hot => seq!['h', 'o', 't'],
        ServerState::Draining => seq!['d', 'r', 'a', 'i', 'n', 'i', 'n', 'g'],
        ServerState::Disabled => seq!['d', 'i', 's', 'a', 'b', 'l', 'e', 'd'],
        ServerState::Failed => seq!['f', 'a', 'i', 'l', 'e', 'd'],
    }
}

impl ServerState {
    /// Warm or hot: the server is healthy.
    pub fn is_healthy(&self) -> (r: bool)
        ensures
            r == (*self == ServerState::Warm || *self == ServerState::Hot),
    {
        match self {
            ServerState::Warm | ServerState::Hot => true,
            _ => false,
        }
    }

    /// Neither disabled nor failed.
    pub fn is_available(&self) -> (r: bool)
        ensures
            r == !(*self == ServerState::Disabled || *self == ServerState::Failed),
    {
        match self {
            ServerState::Disabled | ServerState::Failed => false,
            _ => true,
        }
    }

    /// Warm or hot: the server takes new requests.
    pub fn can_accept_requests(&self) -> (r: bool)
        ensures
            r == (*self == ServerState::Warm || *self == ServerState::Hot),
    {
        match self {
            ServerState::Warm | ServerState::Hot => true,
            _ => false,
        }
    }

    /// The state's display name (`cold`, `starting`, `warm`, `hot`,
    /// `draining`, `disabled`, `failed`).
    pub fn to_display_string(&self) -> (s: String)
        ensures
            s@ == state_name(*self),
    {
        let s = match self {
            ServerState::Cold => String::from_str("cold"),
            ServerState::Starting => String::from_str("starting"),
            ServerState::Warm => String::from_str("warm"),
            ServerState::Hot => String::from_str("hot"),
            ServerState::Draining => String::from_str("draining"),
            ServerState::Disabled => String::from_str("disabled"),
            ServerState::Failed => String::from_str("failed"),
        };
        proof {
            reveal_strlit("cold");
            reveal_strlit("starting");
            reveal_strlit("warm");
            reveal_strlit("hot");
            reveal_strlit("draining");
            reveal_strlit("disabled");
            reveal_strlit("failed");
            assert("cold"@ =~= state_name(ServerState::Cold));
            assert("starting"@ =~= state_name(ServerState::Starting));
            assert("warm"@ =~= state_name(ServerState::Warm));
            assert("hot"@ =~= state_name(ServerState::Hot));
            assert("draining"@ =~= state_name(ServerState::Draining));
            assert("disabled"@ =~= state_name(ServerState::Disabled));
            assert("failed"@ =~= state_name(ServerState::Failed));
        }
        s
    }
}

/// Lifecycle information of a backend server.
#[derive(Debug)]
pub struct LifecycleInfo {
    pub state: ServerState,
    pub failure_count: u32,
    pub last_ping: Option<Instant>,
    pub last_error: Option<String>,
}

impl LifecycleInfo {
    /// A cold server with no failures, no ping and no error.
    pub fn new() -> (info: LifecycleInfo)
        ensures
            info.state == ServerState::Cold,
            info.failure_count == 0,
            info.last_ping is None,
            info.last_error is None,
    {
        LifecycleInfo { state: ServerState::Cold, failure_count: 0, last_ping: None, last_error: None }
    }

    /// Moves to `new_state`; reaching warm or hot clears the failures and
    /// the last error.
    pub fn transition_to(&mut self, new_state: ServerState)
        ensures
            final(self).state == new_state,
            final(self).last_ping == old(self).last_ping,
            if new_state == ServerState::Warm || new_state == ServerState::Hot {
                final(self).failure_count == 0 && final(self).last_error is None
            } else {
                final(self).failure_count == old(self).failure_count && final(self).last_error == old(self).last_error
            },
    {
        self.state = new_state;
        if new_state == ServerState::Warm || new_state == ServerState::Hot {
            self.failure_count = 0;
            self.last_error = None;
        }
    }

    /// Records a failure with its message; the ping time is now.
    pub fn record_failure(&mut self, error: String)
        requires
            old(self).failure_count < u32::MAX,
        ensures
            final(self).failure_count == old(self).failure_count + 1,
            final(self).last_error matches Some(e) && e@ == error@,
            final(self).last_ping is Some,
            final(self).state == old(self).state,
    {
        self.failure_count = self.failure_count + 1;
        self.last_error = Some(error);
        self.last_ping = Some(instant_now());
    }

    /// Records a successful ping: no failures, no error, ping time now.
    pub fn record_success(&mut self)
        ensures
            final(self).failure_count == 0,
            final(self).last_error is None,
            final(self).last_ping is Some,
            final(self).state == old(self).state,
    {
        self.failure_count = 0;
        self.last_error = None;
        self.last_ping = Some(instant_now());
    }
}

} // verus!

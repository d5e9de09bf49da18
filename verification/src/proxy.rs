//! The one-backend proxy: what each message between a client and its
//! backend leads to. Client requests go to the backend under fresh
//! internal ids; backend responses go back under the client's own id.
use vstd::prelude::*;
use vstd::string::*;
use crate::id_map::{IdMap, InternalId, internal_id_text};
use crate::protocol::{RequestId, RequestIdView};
use crate::text::str_eq;

verus! {

/// A message that arrived, or a side that went away.
pub enum ProxyEvent {
    /// A request from the client, with its method and id.
    ClientRequest { method: String, id: Option<RequestId> },
    /// A notification from the client.
    ClientNotification,
    /// A response from the client (none is expected).
    ClientResponse,
    /// The client went away.
    ClientClosed,
    /// A response from the backend, with its id.
    BackendResponse { id: Option<RequestId> },
    /// A notification from the backend.
    BackendNotification,
    /// A request from the backend (none is expected).
    BackendRequest,
    /// The backend went away.
    BackendClosed,
}

/// What the proxy does about an event.
pub enum ProxyAction {
    /// Answer the client's ping at once, with an empty result under this id.
    AnswerPing(RequestId),
    /// Send the client's request to the backend under this internal id.
    ForwardRequest(InternalId),
    /// Pass the notification on to the backend unchanged.
    NotifyBackend,
    /// Pass the notification on to the client unchanged.
    NotifyClient,
    /// Send the backend's response to the client under this client id.
    ForwardResponse(RequestId),
    /// Send nothing; the message is dropped.
    Drop,
    /// The proxy ends normally.
    Finish,
    /// The proxy ends with this error.
    Fail(String),
}

/// What the proxy does about `event`, updating the id mapping: a ping is
/// answered directly; another request is forwarded under a fresh internal
/// id (a request without id ends the proxy); a backend response whose id
/// is a known internal id goes back under the client's id and the mapping
/// is dropped; notifications pass through; unexpected messages and
/// responses with unknown ids are dropped; the client leaving ends the
/// proxy, the backend leaving ends it with an error.
pub fn proxy_step(ids: &mut IdMap, event: ProxyEvent) -> (action: ProxyAction)
    ensures
        old(ids).wf() && old(ids).next_count() < u64::MAX ==> final(ids).wf(),
        old(ids).wf() && old(ids).consistent() ==> final(ids).consistent(),
        match event {
            ProxyEvent::ClientRequest { method, id } => if method@ == "ping"@ {
                &&& action matches ProxyAction::AnswerPing(r)
                &&& r@ == match id { Some(i) => i@, None => RequestIdView::Null }
                &&& final(ids).internal_map() == old(ids).internal_map()
                &&& final(ids).client_map() == old(ids).client_map()
            } else {
                match id {
                    None => {
                        &&& action matches ProxyAction::Fail(e)
                        &&& e@ == "Request missing id"@
                        &&& final(ids).internal_map() == old(ids).internal_map()
                        &&& final(ids).client_map() == old(ids).client_map()
                    },
                    Some(c) => {
                        &&& action matches ProxyAction::ForwardRequest(iid)
                        &&& iid.0@ == internal_id_text(old(ids).next_count())
                        &&& old(ids).wf() ==> !old(ids).internal_map().contains_key(iid.0@)
                        &&& final(ids).internal_map() == (if old(ids).client_map().contains_key(c@) {
                            old(ids).internal_map().remove(old(ids).client_map()[c@])
                        } else {
                            old(ids).internal_map()
                        }).insert(iid.0@, c@)
                        &&& final(ids).client_map() == old(ids).client_map().insert(c@, iid.0@)
                    },
                }
            },
            ProxyEvent::BackendResponse { id } => match id {
                Some(RequestId::String(s)) => if old(ids).internal_map().contains_key(s@) {
                    &&& action matches ProxyAction::ForwardResponse(c)
                    &&& c@ == old(ids).internal_map()[s@]
                    &&& final(ids).internal_map() == old(ids).internal_map().remove(s@)
                    &&& final(ids).client_map() == old(ids).client_map().remove(c@)
                } else {
                    &&& action matches ProxyAction::Drop
                    &&& final(ids).internal_map() == old(ids).internal_map()
                    &&& final(ids).client_map() == old(ids).client_map()
                },
                _ => {
                    &&& action matches ProxyAction::Drop
                    &&& final(ids).internal_map() == old(ids).internal_map()
                    &&& final(ids).client_map() == old(ids).client_map()
                },
            },
            ProxyEvent::ClientNotification => action matches ProxyAction::NotifyBackend
                && final(ids).internal_map() == old(ids).internal_map() && final(ids).client_map() == old(ids).client_map(),
            ProxyEvent::BackendNotification => action matches ProxyAction::NotifyClient
                && final(ids).internal_map() == old(ids).internal_map() && final(ids).client_map() == old(ids).client_map(),
            ProxyEvent::ClientResponse | ProxyEvent::BackendRequest => action matches ProxyAction::Drop
                && final(ids).internal_map() == old(ids).internal_map() && final(ids).client_map() == old(ids).client_map(),
            ProxyEvent::ClientClosed => action matches ProxyAction::Finish
                && final(ids).internal_map() == old(ids).internal_map() && final(ids).client_map() == old(ids).client_map(),
            ProxyEvent::BackendClosed => (action matches ProxyAction::Fail(e) && e@ == "Backend disconnected"@)
                && final(ids).internal_map() == old(ids).internal_map() && final(ids).client_map() == old(ids).client_map(),
        },
{
    match event {
        ProxyEvent::ClientRequest { method, id } => {
            if str_eq(method.as_str(), "ping") {
                let r = match id {
                    Some(i) => i,
                    None => RequestId::Null,
                };
                return ProxyAction::AnswerPing(r);
            }
            match id {
                None => ProxyAction::Fail(String::from_str("Request missing id")),
                Some(c) => {
                    let iid = ids.generate(c);
                    ProxyAction::ForwardRequest(iid)
                },
            }
        },
        ProxyEvent::ClientNotification => ProxyAction::NotifyBackend,
        ProxyEvent::ClientResponse => ProxyAction::Drop,
        ProxyEvent::ClientClosed => ProxyAction::Finish,
        ProxyEvent::BackendResponse { id } => match id {
            Some(RequestId::String(s)) => {
                let iid = InternalId(s);
                match ids.remove(&iid) {
                    Some(c) => ProxyAction::ForwardResponse(c),
                    None => ProxyAction::Drop,
                }
            },
            _ => ProxyAction::Drop,
        },
        ProxyEvent::BackendNotification => ProxyAction::NotifyClient,
        ProxyEvent::BackendRequest => ProxyAction::Drop,
        ProxyEvent::BackendClosed => ProxyAction::Fail(String::from_str("Backend disconnected")),
    }
}

/// Where a client's handshake stands.
pub enum HandshakeState {
    /// No `initialize` request yet.
    AwaitingInitialize,
    /// The `initialize` request with this id was answered; the next message
    /// ends the handshake.
    AwaitingInitialized(RequestId),
}

/// A message from the client during the handshake, or its leaving.
pub enum HandshakeEvent {
    Request { method: String, id: Option<RequestId> },
    Notification { method: String },
    Response,
    Closed,
}

/// What the hub does about a handshake event.
pub enum HandshakeAction {
    /// Answer the `initialize` request under this id with the hub's
    /// capabilities, and wait for the next message.
    Accept(RequestId),
    /// Answer under this id with an invalid-request error: `initialize`
    /// must come first.
    Refuse(RequestId),
    /// Keep waiting.
    Ignore,
    /// The handshake is over; the client's `initialize` had this id.
    Done(RequestId),
    /// The handshake fails with this message.
    Fail(String),
}

/// The id of a request, `null` when it has none.
pub open spec fn id_or_null(id: Option<RequestId>) -> RequestIdView {
    match id {
        Some(i) => i@,
        None => RequestIdView::Null,
    }
}

/// One step of the client handshake. Before `initialize`: an `initialize`
/// request with an id is accepted (without an id the handshake fails),
/// another request is refused under its id (or `null`), other messages are
/// ignored, and the client leaving fails the handshake. After it, whatever
/// comes next (the `initialized` notification or not) ends the handshake.
pub fn handshake_step(state: HandshakeState, event: HandshakeEvent) -> (r: (HandshakeState, HandshakeAction))
    ensures
        match state {
            HandshakeState::AwaitingInitialize => match event {
                HandshakeEvent::Request { method, id } => if method@ == "initialize"@ {
                    match id {
                        Some(i) => (r.0 matches HandshakeState::AwaitingInitialized(j) && j@ == i@)
                            && (r.1 matches HandshakeAction::Accept(k) && k@ == i@),
                        None => r.1 matches HandshakeAction::Fail(m) && m@ == "Initialize request missing id"@,
                    }
                } else {
                    r.0 is AwaitingInitialize && (r.1 matches HandshakeAction::Refuse(k) && k@ == id_or_null(id))
                },
                HandshakeEvent::Closed => r.1 matches HandshakeAction::Fail(m)
                    && m@ == "Client disconnected before initialize"@,
                _ => r.0 is AwaitingInitialize && r.1 is Ignore,
            },
            HandshakeState::AwaitingInitialized(i) => r.1 matches HandshakeAction::Done(k) && k@ == i@,
        },
{
    match state {
        HandshakeState::AwaitingInitialize => match event {
            HandshakeEvent::Request { method, id } => {
                if str_eq(method.as_str(), "initialize") {
                    match id {
                        Some(i) => {
                            let j = i.duplicate();
                            (HandshakeState::AwaitingInitialized(i), HandshakeAction::Accept(j))
                        },
                        None => (
                            HandshakeState::AwaitingInitialize,
                            HandshakeAction::Fail(String::from_str("Initialize request missing id")),
                        ),
                    }
                } else {
                    let k = match id {
                        Some(i) => i,
                        None => RequestId::Null,
                    };
                    (HandshakeState::AwaitingInitialize, HandshakeAction::Refuse(k))
                }
            },
            HandshakeEvent::Closed => (
                HandshakeState::AwaitingInitialize,
                HandshakeAction::Fail(String::from_str("Client disconnected before initialize")),
            ),
            _ => (HandshakeState::AwaitingInitialize, HandshakeAction::Ignore),
        },
        HandshakeState::AwaitingInitialized(i) => {
            let j = i.duplicate();
            (HandshakeState::AwaitingInitialized(i), HandshakeAction::Done(j))
        },
    }
}

} // verus!

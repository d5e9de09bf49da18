use scp::id_map::IdMap;
use scp::protocol::{classify_message, MessageKind, RequestId};
use std::collections::HashSet;

#[test]
fn test_generate_and_lookup() {
    let mut id_map = IdMap::new("test-session".to_string());
    let client_id = RequestId::Number(1);
    let internal_id = id_map.generate(client_id.clone());

    assert_eq!(id_map.get_client(&internal_id), Some(&client_id));
    assert_eq!(id_map.get_internal(&client_id), Some(&internal_id));
}

#[test]
fn test_multiple_ids() {
    let mut id_map = IdMap::new("test-session".to_string());
    let client_id_1 = RequestId::Number(1);
    let client_id_2 = RequestId::String("test".to_string());

    let internal_id_1 = id_map.generate(client_id_1.clone());
    let internal_id_2 = id_map.generate(client_id_2.clone());

    assert_ne!(internal_id_1, internal_id_2);
    assert_eq!(id_map.get_client(&internal_id_1), Some(&client_id_1));
    assert_eq!(id_map.get_client(&internal_id_2), Some(&client_id_2));
}

#[test]
fn test_remove() {
    let mut id_map = IdMap::new("test-session".to_string());
    let client_id = RequestId::Number(1);
    let internal_id = id_map.generate(client_id.clone());

    let removed = id_map.remove(&internal_id);
    assert_eq!(removed, Some(client_id.clone()));
    assert_eq!(id_map.get_client(&internal_id), None);
    assert_eq!(id_map.get_internal(&client_id), None);
}

#[test]
fn test_collision_free() {
    let mut id_map = IdMap::new("test-session".to_string());
    let mut internal_ids = Vec::new();

    for i in 0..100 {
        let client_id = RequestId::Number(i);
        let internal_id = id_map.generate(client_id);
        internal_ids.push(internal_id);
    }

    let mut seen = HashSet::new();
    for id in &internal_ids {
        assert!(seen.insert(id.clone()), "Duplicate ID found: {}", id.as_str());
    }
}

#[test]
fn test_request_id_string() {
    let id = RequestId::String("test".to_string());
    assert_eq!(id.to_display_string(), "test");
}

#[test]
fn test_request_id_number() {
    let id = RequestId::Number(42);
    assert_eq!(id.to_display_string(), "42");
}

#[test]
fn test_request_id_null() {
    let id = RequestId::Null;
    assert_eq!(id.to_display_string(), "null");
}

#[test]
fn internal_ids_have_the_documented_shape() {
    let mut id_map = IdMap::new("s".to_string());
    let first = id_map.generate(RequestId::Null);
    assert_eq!(first.as_str(), "scp-00000000-0000");
    let second = id_map.generate(RequestId::Null);
    // 0x9e3779b97f4a7c15 has the leading hex digits 9e3779b9.
    assert_eq!(second.as_str(), "scp-9e3779b9-0001");
}

#[test]
fn negative_request_ids_are_displayed_with_a_sign() {
    assert_eq!(RequestId::Number(-7).to_display_string(), "-7");
    assert_eq!(RequestId::Number(i64::MIN).to_display_string(), "-9223372036854775808");
}

#[test]
fn regenerating_for_a_client_id_points_it_at_the_new_internal_id() {
    let mut id_map = IdMap::new("s".to_string());
    let client = RequestId::String("c".to_string());
    let a = id_map.generate(client.clone());
    let b = id_map.generate(client.clone());
    assert_eq!(id_map.get_internal(&client), Some(&b));
    // The older internal id no longer maps back to the client.
    assert_eq!(id_map.get_client(&a), None);
    assert_eq!(id_map.remove(&a), None);
    assert_eq!(id_map.get_client(&b), Some(&client));
    assert_eq!(id_map.remove(&b), Some(client.clone()));
    assert_eq!(id_map.get_internal(&client), None);
}

#[test]
fn removing_an_unknown_id_changes_nothing() {
    let mut id_map = IdMap::new("s".to_string());
    let a = id_map.generate(RequestId::Number(3));
    let mut other = IdMap::new("t".to_string());
    let b = other.generate(RequestId::Number(4));
    let b2 = other.generate(RequestId::Number(5));
    assert_eq!(id_map.remove(&b2), None);
    assert_eq!(id_map.get_client(&a), Some(&RequestId::Number(3)));
    let _ = b;
}

#[test]
fn messages_are_classified_by_their_members() {
    assert_eq!(classify_message(true, true, false, false), Some(MessageKind::Request));
    assert_eq!(classify_message(true, false, true, false), Some(MessageKind::Response));
    assert_eq!(classify_message(true, false, false, true), Some(MessageKind::Response));
    assert_eq!(classify_message(false, true, false, false), Some(MessageKind::Notification));
    assert_eq!(classify_message(true, false, false, false), None);
    assert_eq!(classify_message(false, false, true, false), None);
}

use scp::proxy::{proxy_step, ProxyAction, ProxyEvent};

#[test]
fn proxied_requests_come_back_under_the_client_id() {
    let mut ids = IdMap::new("session".to_string());
    let a = proxy_step(&mut ids, ProxyEvent::ClientRequest { method: "tools/list".to_string(), id: Some(RequestId::Number(7)) });
    let b = proxy_step(&mut ids, ProxyEvent::ClientRequest { method: "tools/call".to_string(), id: Some(RequestId::String("x".to_string())) });
    let (ia, ib) = match (a, b) {
        (ProxyAction::ForwardRequest(ia), ProxyAction::ForwardRequest(ib)) => (ia, ib),
        _ => panic!("requests are forwarded"),
    };
    assert_ne!(ia, ib);

    match proxy_step(&mut ids, ProxyEvent::BackendResponse { id: Some(RequestId::String(ib.0.clone())) }) {
        ProxyAction::ForwardResponse(c) => assert_eq!(c, RequestId::String("x".to_string())),
        _ => panic!("the response goes back"),
    }
    match proxy_step(&mut ids, ProxyEvent::BackendResponse { id: Some(RequestId::String(ia.0.clone())) }) {
        ProxyAction::ForwardResponse(c) => assert_eq!(c, RequestId::Number(7)),
        _ => panic!("the response goes back"),
    }
    // A second response for the same id is dropped.
    assert!(matches!(
        proxy_step(&mut ids, ProxyEvent::BackendResponse { id: Some(RequestId::String(ia.0.clone())) }),
        ProxyAction::Drop
    ));
}

#[test]
fn the_proxy_answers_pings_and_passes_notifications() {
    let mut ids = IdMap::new("s".to_string());
    match proxy_step(&mut ids, ProxyEvent::ClientRequest { method: "ping".to_string(), id: Some(RequestId::Number(1)) }) {
        ProxyAction::AnswerPing(r) => assert_eq!(r, RequestId::Number(1)),
        _ => panic!("pings are answered"),
    }
    match proxy_step(&mut ids, ProxyEvent::ClientRequest { method: "ping".to_string(), id: None }) {
        ProxyAction::AnswerPing(r) => assert_eq!(r, RequestId::Null),
        _ => panic!("pings are answered"),
    }
    match proxy_step(&mut ids, ProxyEvent::ClientRequest { method: "x".to_string(), id: None }) {
        ProxyAction::Fail(e) => assert_eq!(e, "Request missing id"),
        _ => panic!("requests need an id"),
    }
    assert!(matches!(proxy_step(&mut ids, ProxyEvent::ClientNotification), ProxyAction::NotifyBackend));
    assert!(matches!(proxy_step(&mut ids, ProxyEvent::BackendNotification), ProxyAction::NotifyClient));
    assert!(matches!(proxy_step(&mut ids, ProxyEvent::BackendRequest), ProxyAction::Drop));
    assert!(matches!(proxy_step(&mut ids, ProxyEvent::BackendResponse { id: Some(RequestId::Number(3)) }), ProxyAction::Drop));
    assert!(matches!(proxy_step(&mut ids, ProxyEvent::ClientClosed), ProxyAction::Finish));
    match proxy_step(&mut ids, ProxyEvent::BackendClosed) {
        ProxyAction::Fail(e) => assert_eq!(e, "Backend disconnected"),
        _ => panic!("a lost backend is an error"),
    }
}

use scp::json::Json;
use scp::protocol::{incoming_kind, JsonRpcError, JsonRpcResponse, INTERNAL_ERROR};

#[test]
fn test_response_success() {
    let resp = JsonRpcResponse::success(
        RequestId::Number(1),
        Json::Object(vec![("result".to_string(), Json::Str("ok".to_string()))]),
    );
    assert!(resp.result.is_some());
    assert!(resp.error.is_none());
    assert_eq!(resp.jsonrpc, "2.0");
}

#[test]
fn test_response_error() {
    let err = JsonRpcError::new(INTERNAL_ERROR, "Something went wrong".to_string());
    let resp = JsonRpcResponse::error(RequestId::Number(1), err);
    assert!(resp.result.is_none());
    assert!(resp.error.is_some());
    assert_eq!(resp.error.unwrap().code, -32603);
}

#[test]
fn incoming_values_are_sorted_by_their_members() {
    let member = |k: &str| (k.to_string(), Json::Null);
    let obj = |ks: &[&str]| Json::Object(ks.iter().map(|k| member(k)).collect());
    assert_eq!(incoming_kind(&obj(&["jsonrpc", "id", "method", "params"])), Some(MessageKind::Request));
    assert_eq!(incoming_kind(&obj(&["jsonrpc", "id", "result"])), Some(MessageKind::Response));
    assert_eq!(incoming_kind(&obj(&["jsonrpc", "method", "params"])), Some(MessageKind::Notification));
    assert_eq!(incoming_kind(&obj(&["jsonrpc", "params"])), None);
    assert_eq!(incoming_kind(&Json::Str("x".to_string())), None);
}

use scp::proxy::{handshake_step, HandshakeAction, HandshakeEvent, HandshakeState};

#[test]
fn the_handshake_waits_for_initialize() {
    let req = |m: &str, id: Option<RequestId>| HandshakeEvent::Request { method: m.to_string(), id };
    let (s, a) = handshake_step(HandshakeState::AwaitingInitialize, req("tools/list", Some(RequestId::Number(3))));
    assert!(matches!(s, HandshakeState::AwaitingInitialize));
    assert!(matches!(a, HandshakeAction::Refuse(RequestId::Number(3))));
    let (_, a) = handshake_step(HandshakeState::AwaitingInitialize, req("tools/list", None));
    assert!(matches!(a, HandshakeAction::Refuse(RequestId::Null)));
    let (_, a) = handshake_step(
        HandshakeState::AwaitingInitialize,
        HandshakeEvent::Notification { method: "x".to_string() },
    );
    assert!(matches!(a, HandshakeAction::Ignore));
    let (s, a) = handshake_step(HandshakeState::AwaitingInitialize, req("initialize", Some(RequestId::Number(1))));
    assert!(matches!(a, HandshakeAction::Accept(RequestId::Number(1))));
    let (_, a) = handshake_step(s, HandshakeEvent::Notification { method: "notifications/initialized".to_string() });
    assert!(matches!(a, HandshakeAction::Done(RequestId::Number(1))));
    match handshake_step(HandshakeState::AwaitingInitialize, req("initialize", None)).1 {
        HandshakeAction::Fail(m) => assert_eq!(m, "Initialize request missing id"),
        _ => panic!("an initialize without id fails"),
    }
    match handshake_step(HandshakeState::AwaitingInitialize, HandshakeEvent::Closed).1 {
        HandshakeAction::Fail(m) => assert_eq!(m, "Client disconnected before initialize"),
        _ => panic!("the client leaving fails the handshake"),
    }
}

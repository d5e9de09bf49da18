//! JSON-RPC 2.0 request identifiers and message classification.
use vstd::prelude::*;
use vstd::string::*;
use crate::numfmt::{i64_to_decimal, signed_decimal};
use crate::json::{Json, JsonView, json_view, members_view, member_of, find_member};
use crate::text::str_eq;

verus! {

/// A JSON-RPC 2.0 request id: a string, a number or null.
#[derive(Debug, Clone, PartialEq, Eq, Hash)]
pub enum RequestId {
    String(String),
    Number(i64),
    Null,
}

/// The mathematical value of a [`RequestId`].
pub enum RequestIdView {
    Text(Seq<char>),
    Number(int),
    Null,
}

impl View for RequestId {
    type V = RequestIdView;

    open spec fn view(&self) -> RequestIdView {
        match self {
            RequestId::String(s) => RequestIdView::Text(s@),
            RequestId::Number(n) => RequestIdView::Number(*n as int),
            RequestId::Null => RequestIdView::Null,
        }
    }
}

/// How a request id is written: the string itself, the decimal number, or `null`.
pub open spec fn request_id_text(id: RequestIdView) -> Seq<char> {
    match id {
        RequestIdView::Text(s) => s,
        RequestIdView::Number(n) => signed_decimal(n),
        RequestIdView::Null => seq!['n', 'u', 'l', 'l'],
    }
}

impl RequestId {
    /// The id as it is displayed.
    pub fn to_display_string(&self) -> (s: String)
        ensures
            s@ == request_id_text(self@),
    {
        match self {
            RequestId::String(s) => s.clone(),
            RequestId::Number(n) => i64_to_decimal(*n),
            RequestId::Null => {
                let s = String::from_str("null");
                proof {
                    reveal_strlit("null");
                }
                s
            },
        }
    }

    /// Whether two ids are the same id.
    pub fn same_as(&self, other: &RequestId) -> (r: bool)
        ensures
            r == (self@ == other@),
    {
        match (self, other) {
            (RequestId::String(a), RequestId::String(b)) => *a == *b,
            (RequestId::Number(a), RequestId::Number(b)) => *a == *b,
            (RequestId::Null, RequestId::Null) => true,
            _ => false,
        }
    }

    /// A copy of the id.
    pub fn duplicate(&self) -> (r: RequestId)
        ensures
            r@ == self@,
    {
        match self {
            RequestId::String(s) => RequestId::String(s.clone()),
            RequestId::Number(n) => RequestId::Number(*n),
            RequestId::Null => RequestId::Null,
        }
    }
}

/// A JSON-RPC 2.0 request.
pub struct JsonRpcRequest {
    pub jsonrpc: String,
    pub id: Option<RequestId>,
    pub method: String,
    pub params: Option<Json>,
}

impl JsonRpcRequest {
    /// A `2.0` request with an id.
    pub fn new(id: RequestId, method: String, params: Option<Json>) -> (r: JsonRpcRequest)
        ensures
            r.jsonrpc@ == "2.0"@,
            r.id == Some(id),
            r.method == method,
            r.params == params,
    {
        JsonRpcRequest { jsonrpc: String::from_str("2.0"), id: Some(id), method, params }
    }
}

/// A JSON-RPC 2.0 error object.
pub struct JsonRpcError {
    pub code: i32,
    pub message: String,
    pub data: Option<Json>,
}

/// Parse error.
pub const PARSE_ERROR: i32 = -32700;
/// Invalid request.
pub const INVALID_REQUEST: i32 = -32600;
/// Method not found.
pub const METHOD_NOT_FOUND: i32 = -32601;
/// Invalid parameters.
pub const INVALID_PARAMS: i32 = -32602;
/// Internal error.
pub const INTERNAL_ERROR: i32 = -32603;
/// A backend failed.
pub const BACKEND_ERROR: i32 = -32000;

impl JsonRpcError {
    /// An error without data.
    pub fn new(code: i32, message: String) -> (e: JsonRpcError)
        ensures
            e.code == code,
            e.message == message,
            e.data is None,
    {
        JsonRpcError { code, message, data: None }
    }

    /// An error with data.
    pub fn with_data(code: i32, message: String, data: Json) -> (e: JsonRpcError)
        ensures
            e.code == code,
            e.message == message,
            e.data == Some(data),
    {
        JsonRpcError { code, message, data: Some(data) }
    }
}

/// A JSON-RPC 2.0 response: a result or an error.
pub struct JsonRpcResponse {
    pub jsonrpc: String,
    pub id: Option<RequestId>,
    pub result: Option<Json>,
    pub error: Option<JsonRpcError>,
}

impl JsonRpcResponse {
    /// A `2.0` response carrying `result`.
    pub fn success(id: RequestId, result: Json) -> (r: JsonRpcResponse)
        ensures
            r.jsonrpc@ == "2.0"@,
            r.id == Some(id),
            r.result == Some(result),
            r.error is None,
    {
        JsonRpcResponse { jsonrpc: String::from_str("2.0"), id: Some(id), result: Some(result), error: None }
    }

    /// A `2.0` response carrying `error`.
    pub fn error(id: RequestId, error: JsonRpcError) -> (r: JsonRpcResponse)
        ensures
            r.jsonrpc@ == "2.0"@,
            r.id == Some(id),
            r.result is None,
            r.error == Some(error),
    {
        JsonRpcResponse { jsonrpc: String::from_str("2.0"), id: Some(id), result: None, error: Some(error) }
    }
}

/// A JSON-RPC 2.0 notification.
pub struct JsonRpcNotification {
    pub jsonrpc: String,
    pub method: String,
    pub params: Option<Json>,
}

impl JsonRpcNotification {
    /// A `2.0` notification.
    pub fn new(method: String, params: Option<Json>) -> (n: JsonRpcNotification)
        ensures
            n.jsonrpc@ == "2.0"@,
            n.method == method,
            n.params == params,
    {
        JsonRpcNotification { jsonrpc: String::from_str("2.0"), method, params }
    }
}

/// An incoming message of one of the three kinds.
pub enum IncomingMessage {
    Request(JsonRpcRequest),
    Response(JsonRpcResponse),
    Notification(JsonRpcNotification),
}

/// The three shapes of an incoming JSON-RPC message.
#[derive(Debug, Clone, Copy, PartialEq, Eq, Structural)]
pub enum MessageKind {
    Request,
    Response,
    Notification,
}

/// The kind of a message with the given members, `None` for an invalid message.
pub open spec fn spec_message_kind(has_id: bool, has_method: bool, has_result: bool, has_error: bool) -> Option<MessageKind> {
    if has_method && has_id {
        Some(MessageKind::Request)
    } else if has_id && (has_result || has_error) {
        Some(MessageKind::Response)
    } else if has_method && !has_id {
        Some(MessageKind::Notification)
    } else {
        None
    }
}

/// Decides what an incoming object is from which of `id`, `method`,
/// `result` and `error` it holds: a request has a method and an id, a
/// response an id and a result or error, a notification a method and no id.
pub fn classify_message(has_id: bool, has_method: bool, has_result: bool, has_error: bool) -> (k: Option<MessageKind>)
    ensures
        k == spec_message_kind(has_id, has_method, has_result, has_error),
{
    if has_method && has_id {
        Some(MessageKind::Request)
    } else if has_id && (has_result || has_error) {
        Some(MessageKind::Response)
    } else if has_method && !has_id {
        Some(MessageKind::Notification)
    } else {
        None
    }
}

/// Whether `ms` has a member named `k`.
pub open spec fn has_member(ms: Seq<(Seq<char>, JsonView)>, k: Seq<char>) -> bool {
    member_of(ms, k) is Some
}

/// The kind of an incoming JSON value: `None` for a value that is no
/// object or whose members fit no kind (see `spec_message_kind`).
pub open spec fn spec_incoming_kind(v: JsonView) -> Option<MessageKind> {
    match v {
        JsonView::Object(ms) => spec_message_kind(
            has_member(ms, seq!['i', 'd']),
            has_member(ms, seq!['m', 'e', 't', 'h', 'o', 'd']),
            has_member(ms, seq!['r', 'e', 's', 'u', 'l', 't']),
            has_member(ms, seq!['e', 'r', 'r', 'o', 'r']),
        ),
        _ => None,
    }
}

/// What an incoming JSON value is, by the members it holds; `None` when it
/// is not an object or fits no kind.
pub fn incoming_kind(v: &Json) -> (k: Option<MessageKind>)
    ensures
        k == spec_incoming_kind(json_view(*v)),
{
    match v {
        Json::Object(ms) => {
            assert(json_view(*v)->Object_0 =~= members_view(ms@));
            assert(json_view(*v) == JsonView::Object(members_view(ms@)));
            proof {
                reveal_strlit("id");
                reveal_strlit("method");
                reveal_strlit("result");
                reveal_strlit("error");
                assert("id"@ =~= seq!['i', 'd']);
                assert("method"@ =~= seq!['m', 'e', 't', 'h', 'o', 'd']);
                assert("result"@ =~= seq!['r', 'e', 's', 'u', 'l', 't']);
                assert("error"@ =~= seq!['e', 'r', 'r', 'o', 'r']);
            }
            let has_id = find_member(ms, "id").is_some();
            let has_method = find_member(ms, "method").is_some();
            let has_result = find_member(ms, "result").is_some();
            let has_error = find_member(ms, "error").is_some();
            classify_message(has_id, has_method, has_result, has_error)
        },
        Json::Str(x) => {
            assert(json_view(*v) == JsonView::Str(x@));
            None
        },
        Json::Array(_) => {
            assert(json_view(*v) is Array);
            None
        },
        Json::Number(n) => {
            assert(json_view(*v) == JsonView::Number(n@));
            None
        },
        Json::Null => None,
        Json::Bool(_) => None,
    }
}

} // verus!

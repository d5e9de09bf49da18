//! Deciding where a `tools/call` goes, turning a backend's tool listing
//! into registry entries, and shortening oversized backend responses.
use vstd::prelude::*;
use vstd::string::*;
use vstd::utf8::*;
use crate::json::{
    Json, JsonView, items_view, json_view, lemma_items_update, lemma_member_index_bounds, lemma_members_update,
    member_index, member_position, members_view,
};
use crate::numfmt::{digits, u64_to_decimal};
use crate::budget::{boundary_at_or_below, boundary_below, lemma_boundary_is_boundary};
use crate::registry::{ToolEntry, ToolEntryView, ToolRegistry, distinct_registered, spec_lookup};
use crate::routing::{
    ExtensionTool, extension_tool, qualified_tool_name, qualifier_split, spec_extension_tool,
    spec_qualified_name, split_qualified_name,
};

verus! {

/// Where a `tools/call` for a name goes.
pub enum ToolCallPlan {
    /// A qualified name: call `tool` on `server` directly.
    Direct { server: String, tool: String },
    /// One of the hub's own tools.
    Extension(ExtensionTool),
    /// A name the registry resolves: call `tool` on `server`.
    Registered { server: String, tool: String },
    /// An unknown name; `total` tools are registered, `sample` names some.
    NotFound { total: usize, sample: Vec<String> },
}

/// Decides where a call of `tool_name` goes: a name with `/` (or else `.`)
/// is routed to the server before it; then the hub's own tools; then the
/// registry, by qualified name, display alias or bare name.
pub fn plan_tool_call(registry: &ToolRegistry, tool_name: &str) -> (r: ToolCallPlan)
    requires
        registry.wf(),
    ensures
        match r {
            ToolCallPlan::Direct { server, tool } => {
                let i = qualifier_split(tool_name@);
                &&& i >= 0
                &&& server@ == tool_name@.take(i)
                &&& tool@ == tool_name@.skip(i + 1)
            },
            ToolCallPlan::Extension(e) => qualifier_split(tool_name@) < 0 && spec_extension_tool(tool_name@) == Some(e),
            ToolCallPlan::Registered { server, tool } => {
                &&& qualifier_split(tool_name@) < 0
                &&& spec_extension_tool(tool_name@) is None
                &&& spec_lookup(registry.model(), tool_name@) matches Some(t)
                &&& server@ == t.server_name
                &&& tool@ == t.original_name
            },
            ToolCallPlan::NotFound { total, sample } => {
                let tools = registry.model().tools;
                let names = sample@.map_values(|s: String| s@);
                &&& qualifier_split(tool_name@) < 0
                &&& spec_extension_tool(tool_name@) is None
                &&& spec_lookup(registry.model(), tool_name@) is None
                &&& total == tools.len()
                &&& sample.len() == if tools.len() < 10 { tools.len() } else { 10 }
                &&& forall|i: int| 0 <= i < names.len() ==> tools.contains_key(#[trigger] names[i])
                &&& forall|i: int, j: int| 0 <= i < names.len() && 0 <= j < names.len() && i != j ==> #[trigger] names[i] != #[trigger] names[j]
            },
        },
{
    if let Some((server, tool)) = split_qualified_name(tool_name) {
        return ToolCallPlan::Direct { server, tool };
    }
    if let Some(e) = extension_tool(tool_name) {
        return ToolCallPlan::Extension(e);
    }
    match registry.lookup(tool_name) {
        Some(t) => ToolCallPlan::Registered { server: t.server_name.clone(), tool: t.original_name.clone() },
        None => {
            let total = registry.tool_count();
            let listed = registry.list_tools(10);
            let ghost lv = listed.deep_view();
            let mut sample: Vec<String> = Vec::new();
            let mut i: usize = 0;
            while i < listed.len()
                invariant
                    lv == listed.deep_view(),
                    i <= listed.len(),
                    sample.len() == i,
                    forall|j: int| 0 <= j < i ==> (#[trigger] sample@[j])@ == lv[j].qualified_name,
                decreases listed.len() - i,
            {
                sample.push(listed[i].qualified_name.clone());
                i = i + 1;
            }
            let ghost names = sample@.map_values(|s: String| s@);
            assert forall|a: int| 0 <= a < names.len() implies names[a] == lv[a].qualified_name by {}
            ToolCallPlan::NotFound { total, sample }
        },
    }
}

/// A tool as a backend lists it: its name, if it has a string one, its
/// description, and its input schema as JSON text, if it has one.
pub struct ListedTool {
    pub name: Option<String>,
    pub description: Option<String>,
    pub input_schema: Option<String>,
}

/// The registry entry for a listed tool of `server` that has a name.
pub open spec fn listed_entry(server: Seq<char>, name: Seq<char>, description: Option<Seq<char>>, schema: Option<Seq<char>>) -> ToolEntryView {
    ToolEntryView {
        original_name: name,
        qualified_name: spec_qualified_name(server, name),
        server_name: server,
        description: description,
        input_schema: match schema {
            Some(s) => s,
            None => seq!['{', '}'],
        },
        tags: Seq::empty(),
        call_count: 0,
    }
}

/// The entries for a backend's listing: one per listed tool with a name,
/// in listing order; tools without a name are skipped.
pub open spec fn listing_entries_spec(server: Seq<char>, listed: Seq<(Option<Seq<char>>, Option<Seq<char>>, Option<Seq<char>>)>) -> Seq<ToolEntryView>
    decreases listed.len(),
{
    if listed.len() == 0 {
        Seq::empty()
    } else {
        let rest = listing_entries_spec(server, listed.drop_last());
        match listed.last().0 {
            Some(n) => rest.push(listed_entry(server, n, listed.last().1, listed.last().2)),
            None => rest,
        }
    }
}

/// The values of the listed tools.
pub open spec fn listed_views(listed: Seq<ListedTool>) -> Seq<(Option<Seq<char>>, Option<Seq<char>>, Option<Seq<char>>)> {
    listed.map_values(|t: ListedTool| (t.name.deep_view(), t.description.deep_view(), t.input_schema.deep_view()))
}

/// Registry entries for the tools a backend listed: named ones only, each
/// under `server/name`, with the schema `{}` when none was given.
pub fn listing_entries(server: &str, listed: Vec<ListedTool>) -> (r: Vec<ToolEntry>)
    ensures
        r.deep_view() == listing_entries_spec(server@, listed_views(listed@)),
{
    let ghost lv = listed_views(listed@);
    let ghost items = listed@;
    let mut r: Vec<ToolEntry> = Vec::new();
    assert(lv.take(0) =~= Seq::<(Option<Seq<char>>, Option<Seq<char>>, Option<Seq<char>>)>::empty());
    assert(r.deep_view() =~= listing_entries_spec(server@, lv.take(0)));
    for t in it: listed.into_iter()
        invariant
            it.seq() == items,
            lv == listed_views(items),
            r.deep_view() == listing_entries_spec(server@, lv.take(it.index() as int)),
    {
        let ghost i = it.index() as int;
        assert(lv.take(i + 1).drop_last() =~= lv.take(i));
        assert(lv.take(i + 1).last() == lv[i]);
        assert(lv[i] == (t.name.deep_view(), t.description.deep_view(), t.input_schema.deep_view()));
        let ListedTool { name, description, input_schema } = t;
        if let Some(n) = name {
            let schema = match input_schema {
                Some(s) => s,
                None => {
                    let s = String::from_str("{}");
                    proof {
                        reveal_strlit("{}");
                    }
                    assert(s@ =~= seq!['{', '}']);
                    s
                },
            };
            let qualified = qualified_tool_name(server, n.as_str());
            let entry = ToolEntry {
                original_name: n,
                qualified_name: qualified,
                server_name: String::from_str(server),
                description: description,
                input_schema: schema,
                tags: Vec::new(),
                call_count: 0,
            };
            assert(entry.tags.deep_view() =~= Seq::<Seq<char>>::empty());
            let ghost r0 = r.deep_view();
            r.push(entry);
            assert(r.deep_view() =~= r0.push(entry.deep_view()));
        }
    }
    assert(lv.take(lv.len() as int) =~= lv);
    r
}

/// The notice appended to a shortened response text.
pub open spec fn truncation_notice(serialized_len: nat, limit: nat) -> Seq<char> {
    "\n\n[Response truncated: "@ + digits(serialized_len, 10) + " bytes exceeded "@ + digits(limit, 10) + " bytes limit]"@
}

/// Whether a response of `serialized_len` bytes is shortened: only when a
/// limit is set and the response exceeds it.
pub open spec fn spec_needs_truncation(limit: Option<usize>, serialized_len: nat) -> bool {
    match limit {
        Some(l) => serialized_len > l,
        None => false,
    }
}

/// Whether a response of `serialized_len` bytes must be shortened.
pub fn needs_truncation(limit: Option<usize>, serialized_len: usize) -> (r: bool)
    ensures
        r == spec_needs_truncation(limit, serialized_len as nat),
{
    match limit {
        Some(l) => serialized_len > l,
        None => false,
    }
}

/// The notice appended to a response text of `serialized_len` bytes cut to
/// fit `limit` bytes.
pub fn truncation_notice_text(serialized_len: usize, limit: usize) -> (s: String)
    ensures
        s@ == truncation_notice(serialized_len as nat, limit as nat),
{
    let mut s = String::from_str("\n\n[Response truncated: ");
    let a = u64_to_decimal(serialized_len as u64);
    s.append(a.as_str());
    s.append(" bytes exceeded ");
    let b = u64_to_decimal(limit as u64);
    s.append(b.as_str());
    s.append(" bytes limit]");
    s
}

/// How many bytes of the text a shortened response keeps: the limit less
/// the notice's length, at least 0.
pub open spec fn kept_bytes(serialized_len: nat, limit: nat) -> nat {
    let n = truncation_notice(serialized_len, limit).len();
    if limit > n { (limit - n) as nat } else { 0 }
}

/// The number of text bytes kept when a response of `serialized_len` bytes
/// is cut to `limit`.
pub fn truncation_keep(serialized_len: usize, limit: usize) -> (k: usize)
    ensures
        k == kept_bytes(serialized_len as nat, limit as nat),
{
    let notice = truncation_notice_text(serialized_len, limit);
    proof {
        lemma_notice_ascii(serialized_len as nat, limit as nat);
    }
    let n = notice.as_str().as_bytes().len();
    assert(n == notice@.len());
    limit.saturating_sub(n)
}

/// The notice is ASCII, so its byte length is its length.
proof fn lemma_notice_ascii(serialized_len: nat, limit: nat)
    ensures
        encode_utf8(truncation_notice(serialized_len, limit)).len() == truncation_notice(serialized_len, limit).len(),
{
    let a = "\n\n[Response truncated: "@;
    let b = " bytes exceeded "@;
    let c = " bytes limit]"@;
    reveal_strlit("\n\n[Response truncated: ");
    reveal_strlit(" bytes exceeded ");
    reveal_strlit(" bytes limit]");
    let d1 = digits(serialized_len, 10);
    let d2 = digits(limit, 10);
    crate::numfmt::lemma_digits_ascii(serialized_len, 10);
    crate::numfmt::lemma_digits_ascii(limit, 10);
    assert(is_ascii_chars(a));
    assert(is_ascii_chars(b));
    assert(is_ascii_chars(c));
    is_ascii_chars_concat(a + d1, a, d1);
    is_ascii_chars_concat(a + d1 + b, a + d1, b);
    is_ascii_chars_concat(a + d1 + b + d2, a + d1 + b, d2);
    is_ascii_chars_concat(a + d1 + b + d2 + c, a + d1 + b + d2, c);
    is_ascii_chars_encode_utf8(truncation_notice(serialized_len, limit));
}

/// The shortened text of a response of `serialized_len` bytes over `limit`:
/// its first `kept_bytes` bytes, cut back to the last character boundary
/// (all of it when shorter), followed by the notice.
pub open spec fn spec_truncated_text(text: Seq<char>, serialized_len: nat, limit: nat) -> Seq<char> {
    let b = encode_utf8(text);
    let k = kept_bytes(serialized_len, limit);
    if k < b.len() {
        decode_utf8(b.take(boundary_at_or_below(b, k as int))) + truncation_notice(serialized_len, limit)
    } else {
        text + truncation_notice(serialized_len, limit)
    }
}

/// The text of an oversized response, cut to make room for the notice (back
/// to the last character boundary) and followed by it.
pub fn truncated_response_text(text: &str, serialized_len: usize, limit: usize) -> (r: String)
    ensures
        r@ == spec_truncated_text(text@, serialized_len as nat, limit as nat),
{
    let notice = truncation_notice_text(serialized_len, limit);
    let keep = truncation_keep(serialized_len, limit);
    let ghost b = text.spec_bytes();
    if keep < text.as_bytes().len() {
        let cut = boundary_below(text, keep);
        proof {
            broadcast use encode_utf8_valid_utf8;

            lemma_boundary_is_boundary(b, keep as int);
        }
        let (head, _tail) = text.split_at(cut);
        let mut t = String::from_str(head);
        t.append(notice.as_str());
        proof {
            broadcast use encode_utf8_decode_utf8;

            assert(head.spec_bytes() =~= b.take(cut as int));
            assert(head@ == decode_utf8(encode_utf8(head@)));
        }
        t
    } else {
        let mut t = String::from_str(text);
        t.append(notice.as_str());
        t
    }
}

/// The value of the first member of `ms` named `k`, if any.
pub open spec fn named(ms: Seq<(Seq<char>, JsonView)>, k: Seq<char>) -> Option<JsonView> {
    let i = member_index(ms, k);
    if 0 <= i < ms.len() { Some(ms[i].1) } else { None }
}

/// The string `text` member of a content item, if any.
pub open spec fn item_text(item: JsonView) -> Option<Seq<char>> {
    match item {
        JsonView::Object(fs) => match named(fs, "text"@) {
            Some(JsonView::Str(t)) => Some(t),
            _ => None,
        },
        _ => None,
    }
}

/// The text of the first item of a `content` array, if any.
pub open spec fn content_text(content: JsonView) -> Option<Seq<char>> {
    match content {
        JsonView::Array(items) => if items.len() > 0 { item_text(items[0]) } else { None },
        _ => None,
    }
}

/// The text at `content[0].text` of a result object, if any.
pub open spec fn result_text(result: JsonView) -> Option<Seq<char>> {
    match result {
        JsonView::Object(rs) => match named(rs, "content"@) {
            Some(c) => content_text(c),
            None => None,
        },
        _ => None,
    }
}

/// The text at `result.content[0].text` of a response, if any.
pub open spec fn response_text(response: JsonView) -> Option<Seq<char>> {
    match response {
        JsonView::Object(ms) => match named(ms, "result"@) {
            Some(r) => result_text(r),
            None => None,
        },
        _ => None,
    }
}

/// A content item with its string `text` shortened.
pub open spec fn cut_item(item: JsonView, serialized_len: nat, limit: nat) -> JsonView {
    match item {
        JsonView::Object(fs) => {
            let t = member_index(fs, "text"@);
            if 0 <= t < fs.len() && fs[t].1 is Str {
                JsonView::Object(fs.update(t, (fs[t].0, JsonView::Str(
                    spec_truncated_text(fs[t].1->Str_0, serialized_len, limit)))))
            } else {
                item
            }
        },
        _ => item,
    }
}

/// A `content` array with its first item's text shortened.
pub open spec fn cut_content(content: JsonView, serialized_len: nat, limit: nat) -> JsonView {
    match content {
        JsonView::Array(items) => if items.len() > 0 {
            JsonView::Array(items.update(0, cut_item(items[0], serialized_len, limit)))
        } else {
            content
        },
        _ => content,
    }
}

/// A result object with the text at `content[0].text` shortened.
pub open spec fn cut_result(result: JsonView, serialized_len: nat, limit: nat) -> JsonView {
    match result {
        JsonView::Object(rs) => {
            let j = member_index(rs, "content"@);
            if 0 <= j < rs.len() {
                JsonView::Object(rs.update(j, (rs[j].0, cut_content(rs[j].1, serialized_len, limit))))
            } else {
                result
            }
        },
        _ => result,
    }
}

/// A response with the text at `result.content[0].text` shortened.
pub open spec fn cut_response(response: JsonView, serialized_len: nat, limit: nat) -> JsonView {
    match response {
        JsonView::Object(ms) => {
            let i = member_index(ms, "result"@);
            if 0 <= i < ms.len() {
                JsonView::Object(ms.update(i, (ms[i].0, cut_result(ms[i].1, serialized_len, limit))))
            } else {
                response
            }
        },
        _ => response,
    }
}

/// A response after the size limit: unchanged unless a limit is set and the
/// serialized response exceeds it; then its `result.content[0].text`, when
/// that is a string, is cut to make room for the notice and followed by it.
pub open spec fn spec_limited_response(response: JsonView, limit: Option<usize>, serialized_len: nat) -> JsonView {
    if spec_needs_truncation(limit, serialized_len) {
        cut_response(response, serialized_len, limit.unwrap() as nat)
    } else {
        response
    }
}

fn cut_item_exec(item: Json, serialized_len: usize, limit: usize) -> (r: Json)
    ensures
        json_view(r) == cut_item(json_view(item), serialized_len as nat, limit as nat),
{
    match item {
        Json::Object(mut fs) => {
            let ghost mv = members_view(fs@);
            assert(json_view(Json::Object(fs))->Object_0 =~= mv);
            proof {
                reveal_strlit("text");
                lemma_member_index_bounds(mv, "text"@);
            }
            match member_position(&fs, "text") {
                Some(t) => {
                    assert(mv[t as int] == (fs@[t as int].0@, json_view(fs@[t as int].1)));
                    let ghost f0 = fs@;
                    let (name, value) = fs.remove(t);
                    match value {
                        Json::Str(s) => {
                            assert(json_view(Json::Str(s)) == JsonView::Str(s@));
                            let cut = truncated_response_text(s.as_str(), serialized_len, limit);
                            let m = (name, Json::Str(cut));
                            fs.insert(t, m);
                            proof {
                                assert(fs@ =~= f0.update(t as int, m));
                                lemma_members_update(f0, t as int, m);
                                assert(json_view(m.1) == JsonView::Str(cut@));
                            }
                            let r = Json::Object(fs);
                            assert(json_view(r)->Object_0 =~= members_view(fs@));
                            r
                        },
                        other => {
                            fs.insert(t, (name, other));
                            assert(fs@ =~= f0);
                            let r = Json::Object(fs);
                            assert(json_view(r)->Object_0 =~= members_view(fs@));
                            r
                        },
                    }
                },
                None => Json::Object(fs),
            }
        },
        other => other,
    }
}

fn cut_content_exec(content: Json, serialized_len: usize, limit: usize) -> (r: Json)
    ensures
        json_view(r) == cut_content(json_view(content), serialized_len as nat, limit as nat),
{
    match content {
        Json::Array(mut items) => {
            let ghost a0 = items@;
            assert(json_view(Json::Array(items))->Array_0 =~= items_view(a0));
            if items.len() > 0 {
                assert(items_view(a0)[0] == json_view(a0[0]));
                let first = items.remove(0);
                let cut = cut_item_exec(first, serialized_len, limit);
                items.insert(0, cut);
                proof {
                    assert(items@ =~= a0.update(0, cut));
                    lemma_items_update(a0, 0, cut);
                }
                let r = Json::Array(items);
                assert(json_view(r)->Array_0 =~= items_view(items@));
                r
            } else {
                Json::Array(items)
            }
        },
        other => other,
    }
}

fn cut_result_exec(result: Json, serialized_len: usize, limit: usize) -> (r: Json)
    ensures
        json_view(r) == cut_result(json_view(result), serialized_len as nat, limit as nat),
{
    match result {
        Json::Object(mut rs) => {
            let ghost mv = members_view(rs@);
            assert(json_view(Json::Object(rs))->Object_0 =~= mv);
            proof {
                reveal_strlit("content");
                lemma_member_index_bounds(mv, "content"@);
            }
            match member_position(&rs, "content") {
                Some(j) => {
                    assert(mv[j as int] == (rs@[j as int].0@, json_view(rs@[j as int].1)));
                    let ghost r0 = rs@;
                    let (name, value) = rs.remove(j);
                    let cut = cut_content_exec(value, serialized_len, limit);
                    let m = (name, cut);
                    rs.insert(j, m);
                    proof {
                        assert(rs@ =~= r0.update(j as int, m));
                        lemma_members_update(r0, j as int, m);
                    }
                    let r = Json::Object(rs);
                    assert(json_view(r)->Object_0 =~= members_view(rs@));
                    r
                },
                None => Json::Object(rs),
            }
        },
        other => other,
    }
}

/// Applies the response size limit: when a limit is set and the serialized
/// response (`serialized_len` bytes) exceeds it, the string at
/// `result.content[0].text` is cut so that the text and the notice fit the
/// limit, and the notice is appended; anything else comes back unchanged.
/// The cut goes back to the last character boundary.
pub fn limit_response(response: Json, limit: Option<usize>, serialized_len: usize) -> (r: Json)
    ensures
        json_view(r) == spec_limited_response(json_view(response), limit, serialized_len as nat),
{
    if !needs_truncation(limit, serialized_len) {
        return response;
    }
    let l = match limit {
        Some(l) => l,
        None => return response,
    };
    match response {
        Json::Object(mut ms) => {
            let ghost mv = members_view(ms@);
            assert(json_view(Json::Object(ms))->Object_0 =~= mv);
            proof {
                reveal_strlit("result");
                lemma_member_index_bounds(mv, "result"@);
            }
            match member_position(&ms, "result") {
                Some(i) => {
                    assert(mv[i as int] == (ms@[i as int].0@, json_view(ms@[i as int].1)));
                    let ghost m0 = ms@;
                    let (name, value) = ms.remove(i);
                    let cut = cut_result_exec(value, serialized_len, l);
                    let m = (name, cut);
                    ms.insert(i, m);
                    proof {
                        assert(ms@ =~= m0.update(i as int, m));
                        lemma_members_update(m0, i as int, m);
                    }
                    let r = Json::Object(ms);
                    assert(json_view(r)->Object_0 =~= members_view(ms@));
                    r
                },
                None => Json::Object(ms),
            }
        },
        other => other,
    }
}

/// The value of the first member named `k`, by reference.
fn named_ref<'a>(ms: &'a Vec<(String, Json)>, k: &str) -> (r: Option<&'a Json>)
    ensures
        match r {
            Some(j) => named(members_view(ms@), k@) == Some(json_view(*j)),
            None => named(members_view(ms@), k@) is None,
        },
{
    proof {
        lemma_member_index_bounds(members_view(ms@), k@);
    }
    match member_position(ms, k) {
        Some(i) => {
            assert(members_view(ms@)[i as int] == (ms@[i as int].0@, json_view(ms@[i as int].1)));
            Some(&ms[i].1)
        },
        None => None,
    }
}

/// The string at `result.content[0].text` of a response, if any.
pub fn response_text_of(response: &Json) -> (r: Option<&String>)
    ensures
        match r {
            Some(t) => response_text(json_view(*response)) == Some(t@),
            None => response_text(json_view(*response)) is None,
        },
{
    proof {
        reveal_strlit("result");
        reveal_strlit("content");
        reveal_strlit("text");
    }
    let ms = match response {
        Json::Object(ms) => ms,
        _ => return None,
    };
    assert(json_view(*response)->Object_0 =~= members_view(ms@));
    let rs = match named_ref(ms, "result") {
        Some(Json::Object(rs)) => rs,
        _ => return None,
    };
    assert(json_view(Json::Object(*rs))->Object_0 =~= members_view(rs@));
    let items = match named_ref(rs, "content") {
        Some(Json::Array(items)) => items,
        _ => return None,
    };
    assert(json_view(Json::Array(*items))->Array_0 =~= items_view(items@));
    if items.len() == 0 {
        return None;
    }
    assert(items_view(items@)[0] == json_view(items@[0]));
    let fs = match &items[0] {
        Json::Object(fs) => fs,
        _ => return None,
    };
    assert(json_view(Json::Object(*fs))->Object_0 =~= members_view(fs@));
    match named_ref(fs, "text") {
        Some(Json::Str(t)) => Some(t),
        _ => None,
    }
}

/// The encoding of two texts one after the other is their encodings one
/// after the other.
proof fn lemma_encode_concat(a: Seq<char>, b: Seq<char>)
    ensures
        encode_utf8(a + b) == encode_utf8(a) + encode_utf8(b),
    decreases a.len(),
{
    if a.len() == 0 {
        assert(a + b =~= b);
    } else {
        lemma_encode_concat(a.drop_first(), b);
        assert((a + b).drop_first() =~= a.drop_first() + b);
        assert((a + b)[0] == a[0]);
        assert(encode_utf8(a + b) =~= encode_scalar(a[0] as u32) + (encode_utf8(a.drop_first()) + encode_utf8(b)));
    }
}

/// A cut response text fits the limit: when the text is longer than what
/// is kept, the shortened text is a prefix of the original, ending on the
/// last character boundary at or below the kept bytes, followed by the
/// notice; it takes at most `limit` bytes, or just the notice's bytes when
/// the limit leaves no room beside it.
pub proof fn lemma_truncated_text_fits(text: Seq<char>, serialized_len: nat, limit: nat)
    requires
        kept_bytes(serialized_len, limit) < encode_utf8(text).len(),
    ensures
        ({
            let n = truncation_notice(serialized_len, limit).len();
            let b = encode_utf8(text);
            let cut = boundary_at_or_below(b, kept_bytes(serialized_len, limit) as int);
            let r = spec_truncated_text(text, serialized_len, limit);
            &&& encode_utf8(r).len() == cut + n
            &&& encode_utf8(r).len() <= if limit > n { limit } else { n }
            &&& text.take(r.len() - n) == r.take(r.len() - n)
            &&& r.skip(r.len() - n) == truncation_notice(serialized_len, limit)
        }),
{
    broadcast use encode_utf8_valid_utf8, decode_utf8_encode_utf8;

    let b = encode_utf8(text);
    let k = kept_bytes(serialized_len, limit) as int;
    crate::budget::lemma_boundary_is_boundary(b, k);
    let cut = boundary_at_or_below(b, k);
    let notice = truncation_notice(serialized_len, limit);
    let p = decode_utf8(b.take(cut));
    valid_utf8_split(b, cut);
    assert(b.subrange(0, cut) =~= b.take(cut));
    assert(encode_utf8(p) == b.take(cut));
    lemma_encode_concat(p, notice);
    lemma_notice_ascii(serialized_len, limit);
    let r = p + notice;
    assert(r.take(r.len() - notice.len()) =~= p);
    assert(r.skip(r.len() - notice.len()) =~= notice);
    crate::budget::lemma_decoded_prefix(text, cut);
}

} // verus!

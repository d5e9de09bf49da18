//! Classification of tool response content.
use vstd::prelude::*;
use vstd::string::*;
use crate::text::{to_chars, str_eq};
use crate::json::{Json, JsonView, json_view, members_view, items_view, member_of, find_member};

verus! {

/// The kind of a tool response's content.
#[derive(Debug, Clone, Copy, PartialEq, Eq, Structural)]
pub enum ContentType {
    /// Plain text.
    Text,
    /// A JSON object or array.
    StructuredJson,
    /// A base64 image or a data URI.
    Image,
    /// A raw binary blob.
    Binary,
    /// Text and images interleaved (MCP mixed content arrays).
    Mixed,
}

/// What classification reads of one element of a content array.
pub enum ElementShape {
    /// A JSON string.
    Str,
    /// A JSON object: whether it has a `type` member, and that member's
    /// text when it is a string.
    Object { has_type: bool, type_tag: Option<String> },
    /// Any other JSON value.
    Other,
}

/// What classification reads of a content value.
pub enum ContentShape {
    /// `null`, a boolean or a number.
    Scalar,
    /// A JSON string.
    Str(String),
    /// A JSON object.
    Object,
    /// A JSON array.
    Array(Vec<ElementShape>),
}

/// Router that classifies response content.
pub struct ContentTypeRouter;

/// Whether `c` may occur in base64 text: ASCII letters and digits, `+`,
/// `/` and `=`.
pub open spec fn is_base64_char(c: char) -> bool {
    ('a' <= c <= 'z') || ('A' <= c <= 'Z') || ('0' <= c <= '9') || c == '+' || c == '/' || c == '='
}

/// A non-empty string of base64 characters only.
pub open spec fn spec_is_base64(s: Seq<char>) -> bool {
    s.len() > 0 && forall|i: int| 0 <= i < s.len() ==> is_base64_char(#[trigger] s[i])
}

/// `"data:image/"`.
pub open spec fn data_image_prefix() -> Seq<char> {
    seq!['d', 'a', 't', 'a', ':', 'i', 'm', 'a', 'g', 'e', '/']
}

/// A string is an image when it is a data URI of an image, or base64 of
/// more than 1024 bytes; otherwise text.
pub open spec fn spec_classify_string(s: Seq<char>) -> ContentType {
    if s.len() >= 11 && s.take(11) == data_image_prefix() {
        ContentType::Image
    } else if spec_is_base64(s) && s.len() > 1024 {
        ContentType::Image
    } else {
        ContentType::Text
    }
}

/// The type name of an element of an MCP content array, when it is a
/// string.
pub open spec fn element_type(e: ElementShape) -> Option<Seq<char>> {
    match e {
        ElementShape::Object { type_tag: Some(t), .. } => Some(t@),
        _ => None,
    }
}

/// The MCP content kind an element names: 1 for `"text"`, 2 for
/// `"image"`, 3 for `"resource"`, 0 for anything else.
pub open spec fn mcp_kind(e: ElementShape) -> u8 {
    match element_type(e) {
        Some(n) => if n == seq!['t', 'e', 'x', 't'] {
            1
        } else if n == seq!['i', 'm', 'a', 'g', 'e'] {
            2
        } else if n == seq!['r', 'e', 's', 'o', 'u', 'r', 'c', 'e'] {
            3
        } else {
            0
        },
        None => 0,
    }
}

/// Whether some element names MCP content kind `k`.
pub open spec fn has_kind(elems: Seq<ElementShape>, k: u8) -> bool {
    exists|i: int| 0 <= i < elems.len() && #[trigger] mcp_kind(elems[i]) == k
}

/// An MCP content array: a resource makes it structured, text and image
/// together mixed, then text, then image, text by default.
pub open spec fn spec_classify_mcp(elems: Seq<ElementShape>) -> ContentType {
    if has_kind(elems, 3) {
        ContentType::StructuredJson
    } else if has_kind(elems, 1) && has_kind(elems, 2) {
        ContentType::Mixed
    } else if has_kind(elems, 1) {
        ContentType::Text
    } else if has_kind(elems, 2) {
        ContentType::Image
    } else {
        ContentType::Text
    }
}

/// Whether an element is an object with a `type` member.
pub open spec fn typed_object(e: ElementShape) -> bool {
    e matches ElementShape::Object { has_type: true, .. }
}

/// An array: empty is text; all typed objects is an MCP content array;
/// strings and objects together are mixed; anything else structured.
pub open spec fn spec_classify_array(elems: Seq<ElementShape>) -> ContentType {
    if elems.len() == 0 {
        ContentType::Text
    } else if forall|i: int| 0 <= i < elems.len() ==> typed_object(#[trigger] elems[i]) {
        spec_classify_mcp(elems)
    } else if (exists|i: int| 0 <= i < elems.len() && #[trigger] elems[i] is Str)
        && (exists|i: int| 0 <= i < elems.len() && #[trigger] elems[i] is Object) {
        ContentType::Mixed
    } else {
        ContentType::StructuredJson
    }
}

/// The classification of a content value.
pub open spec fn spec_classify(content: ContentShape) -> ContentType {
    match content {
        ContentShape::Scalar => ContentType::Text,
        ContentShape::Str(s) => spec_classify_string(s@),
        ContentShape::Object => ContentType::StructuredJson,
        ContentShape::Array(elems) => spec_classify_array(elems@),
    }
}

/// Extending the scanned prefix by one element.
proof fn lemma_has_kind_step(elems: Seq<ElementShape>, i: int, k: u8)
    requires
        0 <= i < elems.len(),
    ensures
        has_kind(elems.take(i + 1), k) == (has_kind(elems.take(i), k) || mcp_kind(elems[i]) == k),
{
    let t = elems.take(i);
    let t1 = elems.take(i + 1);
    if has_kind(t1, k) {
        let j = choose|j: int| 0 <= j < t1.len() && #[trigger] mcp_kind(t1[j]) == k;
        if j < i {
            assert(t[j] == t1[j]);
        }
    }
    if has_kind(t, k) {
        let j = choose|j: int| 0 <= j < t.len() && #[trigger] mcp_kind(t[j]) == k;
        assert(t1[j] == t[j]);
    }
    if mcp_kind(elems[i]) == k {
        assert(t1[i] == elems[i]);
    }
}

/// The MCP content kind an element names.
fn element_kind(e: &ElementShape) -> (k: u8)
    ensures
        k == mcp_kind(*e),
{
    match e {
        ElementShape::Object { type_tag: Some(name), .. } => {
            let s = name.as_str();
            proof {
                reveal_strlit("text");
                reveal_strlit("image");
                reveal_strlit("resource");
                assert("text"@ =~= seq!['t', 'e', 'x', 't']);
                assert("image"@ =~= seq!['i', 'm', 'a', 'g', 'e']);
                assert("resource"@ =~= seq!['r', 'e', 's', 'o', 'u', 'r', 'c', 'e']);
            }
            if str_eq(s, "text") {
                1
            } else if str_eq(s, "image") {
                2
            } else if str_eq(s, "resource") {
                3
            } else {
                0
            }
        },
        _ => 0,
    }
}

/// Whether `c` may occur in base64 text.
fn base64_char(c: char) -> (r: bool)
    ensures
        r == is_base64_char(c),
{
    ('a' <= c && c <= 'z') || ('A' <= c && c <= 'Z') || ('0' <= c && c <= '9') || c == '+' || c == '/' || c == '='
}

/// `"type"`.
pub open spec fn type_key() -> Seq<char> {
    seq!['t', 'y', 'p', 'e']
}

/// Whether `e` is what classification reads of the array element `v`.
pub open spec fn element_matches(e: ElementShape, v: JsonView) -> bool {
    match v {
        JsonView::Str(_) => e is Str,
        JsonView::Object(ms) => e matches ElementShape::Object { has_type, type_tag } && has_type == (member_of(ms, type_key()) is Some)
            && type_tag.deep_view() == match member_of(ms, type_key()) {
                Some(JsonView::Str(t)) => Some(t),
                _ => None,
            },
        _ => e is Other,
    }
}

/// Whether `c` is what classification reads of the content `v`.
pub open spec fn content_matches(c: ContentShape, v: JsonView) -> bool {
    match v {
        JsonView::Str(s) => c matches ContentShape::Str(t) && t@ == s,
        JsonView::Object(_) => c is Object,
        JsonView::Array(items) => c matches ContentShape::Array(es) && es@.len() == items.len()
            && forall|i: int| 0 <= i < items.len() ==> element_matches(#[trigger] es@[i], items[i]),
        _ => c is Scalar,
    }
}

/// The MCP content kind an array element names (see `mcp_kind`).
pub open spec fn view_kind(v: JsonView) -> u8 {
    match v {
        JsonView::Object(ms) => match member_of(ms, type_key()) {
            Some(JsonView::Str(n)) => if n == seq!['t', 'e', 'x', 't'] {
                1
            } else if n == seq!['i', 'm', 'a', 'g', 'e'] {
                2
            } else if n == seq!['r', 'e', 's', 'o', 'u', 'r', 'c', 'e'] {
                3
            } else {
                0
            },
            _ => 0,
        },
        _ => 0,
    }
}

/// Whether some element names MCP content kind `k`.
pub open spec fn items_have_kind(items: Seq<JsonView>, k: u8) -> bool {
    exists|i: int| 0 <= i < items.len() && #[trigger] view_kind(items[i]) == k
}

/// The classification of a JSON content value: `null`, booleans and
/// numbers are text; strings by `spec_classify_string`; objects
/// structured; arrays: empty is text; when every element is an object
/// with a `type` member it is an MCP content array (a resource makes it
/// structured, text and image together mixed, then text, then image, text
/// by default); strings and objects together are mixed; otherwise
/// structured.
pub open spec fn classify_json(v: JsonView) -> ContentType {
    match v {
        JsonView::Str(s) => spec_classify_string(s),
        JsonView::Object(_) => ContentType::StructuredJson,
        JsonView::Array(items) => if items.len() == 0 {
            ContentType::Text
        } else if forall|i: int| 0 <= i < items.len() ==> (#[trigger] items[i] matches JsonView::Object(ms)
            && member_of(ms, type_key()) is Some) {
            if items_have_kind(items, 3) {
                ContentType::StructuredJson
            } else if items_have_kind(items, 1) && items_have_kind(items, 2) {
                ContentType::Mixed
            } else if items_have_kind(items, 1) {
                ContentType::Text
            } else if items_have_kind(items, 2) {
                ContentType::Image
            } else {
                ContentType::Text
            }
        } else if (exists|i: int| 0 <= i < items.len() && #[trigger] items[i] is Str)
            && (exists|i: int| 0 <= i < items.len() && #[trigger] items[i] is Object) {
            ContentType::Mixed
        } else {
            ContentType::StructuredJson
        },
        _ => ContentType::Text,
    }
}

/// A shape read off a value classifies as the value does.
proof fn lemma_shape_classifies(c: ContentShape, v: JsonView)
    requires
        content_matches(c, v),
    ensures
        spec_classify(c) == classify_json(v),
{
    if let JsonView::Array(items) = v {
        let es = c->Array_0@;
        assert forall|i: int| 0 <= i < items.len() implies mcp_kind(#[trigger] es[i]) == view_kind(items[i])
            && (typed_object(es[i]) <==> (items[i] matches JsonView::Object(ms) && member_of(ms, type_key()) is Some))
            && (es[i] is Str <==> items[i] is Str) && (es[i] is Object <==> items[i] is Object) by {
            assert(element_matches(es[i], items[i]));
        }
        assert forall|k: u8| has_kind(es, k) <==> items_have_kind(items, k) by {
            if has_kind(es, k) {
                let j = choose|j: int| 0 <= j < es.len() && #[trigger] mcp_kind(es[j]) == k;
                assert(view_kind(items[j]) == k);
            }
            if items_have_kind(items, k) {
                let j = choose|j: int| 0 <= j < items.len() && #[trigger] view_kind(items[j]) == k;
                assert(mcp_kind(es[j]) == k);
            }
        }
        assert(has_kind(es, 1) == items_have_kind(items, 1));
        assert(has_kind(es, 2) == items_have_kind(items, 2));
        assert(has_kind(es, 3) == items_have_kind(items, 3));
        let all_es = forall|i: int| 0 <= i < es.len() ==> typed_object(#[trigger] es[i]);
        let all_items = forall|i: int| 0 <= i < items.len() ==> (#[trigger] items[i] matches JsonView::Object(ms)
            && member_of(ms, type_key()) is Some);
        assert(all_es == all_items) by {
            if all_es {
                assert forall|i: int| 0 <= i < items.len() implies (#[trigger] items[i] matches JsonView::Object(ms)
                    && member_of(ms, type_key()) is Some) by {
                    assert(typed_object(es[i]));
                    assert(mcp_kind(es[i]) == view_kind(items[i]));
                }
            }
            if all_items {
                assert forall|i: int| 0 <= i < es.len() implies typed_object(#[trigger] es[i]) by {
                    assert(items[i] matches JsonView::Object(ms) && member_of(ms, type_key()) is Some);
                    assert(mcp_kind(es[i]) == view_kind(items[i]));
                }
            }
        }
        if (exists|i: int| 0 <= i < es.len() && #[trigger] es[i] is Str) {
            let j = choose|j: int| 0 <= j < es.len() && #[trigger] es[j] is Str;
            assert(items[j] is Str);
        }
        if (exists|i: int| 0 <= i < es.len() && #[trigger] es[i] is Object) {
            let j = choose|j: int| 0 <= j < es.len() && #[trigger] es[j] is Object;
            assert(items[j] is Object);
        }
        if (exists|i: int| 0 <= i < items.len() && #[trigger] items[i] is Str) {
            let j = choose|j: int| 0 <= j < items.len() && #[trigger] items[j] is Str;
            assert(es[j] is Str);
        }
        if (exists|i: int| 0 <= i < items.len() && #[trigger] items[i] is Object) {
            let j = choose|j: int| 0 <= j < items.len() && #[trigger] items[j] is Object;
            assert(es[j] is Object);
        }
    }
}

/// What classification reads of an array element.
fn element_shape(j: &Json) -> (e: ElementShape)
    ensures
        element_matches(e, json_view(*j)),
{
    match j {
        Json::Str(x) => {
            assert(json_view(*j) == JsonView::Str(x@));
            let e = ElementShape::Str;
            assert(e is Str);
            assert(element_matches(e, JsonView::Str(x@)));
            e
        },
        Json::Object(ms) => {
            proof {
                reveal_strlit("type");
            }
            assert(json_view(*j)->Object_0 =~= members_view(ms@));
            let found = find_member(ms, "type");
            let has_type = found.is_some();
            let type_tag = match found {
                Some(Json::Str(t)) => {
                    assert(json_view(Json::Str(*t)) == JsonView::Str(t@));
                    Some(t.clone())
                },
                _ => None,
            };
            assert(type_key() == "type"@);
            let e = ElementShape::Object { has_type, type_tag };
            assert(json_view(*j) == JsonView::Object(members_view(ms@)));
            assert(element_matches(e, json_view(*j)));
            e
        },
        Json::Array(a) => {
            assert(json_view(*j) is Array);
            ElementShape::Other
        },
        Json::Null => ElementShape::Other,
        Json::Bool(_) => ElementShape::Other,
        Json::Number(_) => ElementShape::Other,
    }
}

/// What classification reads of a content value.
pub fn content_shape(content: &Json) -> (c: ContentShape)
    ensures
        content_matches(c, json_view(*content)),
{
    match content {
        Json::Str(s) => ContentShape::Str(s.clone()),
        Json::Object(_) => ContentShape::Object,
        Json::Array(items) => {
            let ghost iv = items_view(items@);
            assert(json_view(*content)->Array_0 =~= iv);
            let mut es: Vec<ElementShape> = Vec::new();
            let mut i: usize = 0;
            while i < items.len()
                invariant
                    iv == items_view(items@),
                    i <= items.len(),
                    es@.len() == i,
                    forall|a: int| 0 <= a < i ==> element_matches(#[trigger] es@[a], iv[a]),
                decreases items.len() - i,
            {
                let e = element_shape(&items[i]);
                es.push(e);
                i = i + 1;
            }
            ContentShape::Array(es)
        },
        _ => ContentShape::Scalar,
    }
}

impl ContentTypeRouter {
    /// Classifies a tool response's content.
    pub fn classify(content: &Json) -> (t: ContentType)
        ensures
            t == classify_json(json_view(*content)),
    {
        let shape = content_shape(content);
        proof {
            lemma_shape_classifies(shape, json_view(*content));
        }
        Self::classify_shape(&shape)
    }

    /// Classifies a content value by what classification reads of it.
    pub fn classify_shape(content: &ContentShape) -> (t: ContentType)
        ensures
            t == spec_classify(*content),
    {
        match content {
            ContentShape::Scalar => ContentType::Text,
            ContentShape::Str(s) => Self::classify_string(s.as_str()),
            ContentShape::Object => ContentType::StructuredJson,
            ContentShape::Array(elems) => Self::classify_array(elems),
        }
    }

    /// Classifies an array value.
    fn classify_array(elems: &Vec<ElementShape>) -> (t: ContentType)
        ensures
            t == spec_classify_array(elems@),
    {
        if elems.len() == 0 {
            return ContentType::Text;
        }
        let mut all_typed = true;
        let mut has_strings = false;
        let mut has_objects = false;
        let mut i: usize = 0;
        while i < elems.len()
            invariant
                i <= elems.len(),
                all_typed == forall|j: int| 0 <= j < i ==> typed_object(#[trigger] elems@[j]),
                has_strings == exists|j: int| 0 <= j < i && #[trigger] elems@[j] is Str,
                has_objects == exists|j: int| 0 <= j < i && #[trigger] elems@[j] is Object,
            decreases elems.len() - i,
        {
            match &elems[i] {
                ElementShape::Str => {
                    all_typed = false;
                    has_strings = true;
                },
                ElementShape::Object { has_type, .. } => {
                    if !*has_type {
                        all_typed = false;
                    }
                    has_objects = true;
                },
                ElementShape::Other => {
                    all_typed = false;
                },
            }
            proof {
                assert(elems@[i as int] == elems[i as int]);
            }
            i = i + 1;
        }
        if all_typed {
            return Self::classify_mcp_content_array(elems);
        }
        if has_strings && has_objects {
            return ContentType::Mixed;
        }
        ContentType::StructuredJson
    }

    /// Classifies an MCP content array (every element has a `type`).
    fn classify_mcp_content_array(elems: &Vec<ElementShape>) -> (t: ContentType)
        ensures
            t == spec_classify_mcp(elems@),
    {
        let mut has_text = false;
        let mut has_image = false;
        let mut has_resource = false;
        let mut i: usize = 0;
        while i < elems.len()
            invariant
                i <= elems.len(),
                has_text == has_kind(elems@.take(i as int), 1),
                has_image == has_kind(elems@.take(i as int), 2),
                has_resource == has_kind(elems@.take(i as int), 3),
            decreases elems.len() - i,
        {
            let k = element_kind(&elems[i]);
            proof {
                lemma_has_kind_step(elems@, i as int, 1);
                lemma_has_kind_step(elems@, i as int, 2);
                lemma_has_kind_step(elems@, i as int, 3);
            }
            if k == 1 {
                has_text = true;
            } else if k == 2 {
                has_image = true;
            } else if k == 3 {
                has_resource = true;
            }
            i = i + 1;
        }
        proof {
            assert(elems@.take(i as int) =~= elems@);
        }
        if has_resource {
            return ContentType::StructuredJson;
        }
        if has_text && has_image {
            return ContentType::Mixed;
        }
        if has_text {
            return ContentType::Text;
        }
        if has_image {
            return ContentType::Image;
        }
        ContentType::Text
    }

    /// Classifies a string: a data URI of an image or long base64 text is
    /// an image, anything else text.
    pub fn classify_string(s: &str) -> (t: ContentType)
        ensures
            t == spec_classify_string(s@),
    {
        let v = to_chars(s);
        let prefix = to_chars("data:image/");
        proof {
            reveal_strlit("data:image/");
            assert(prefix@ == data_image_prefix());
        }
        let mut starts = v.len() >= 11;
        let mut i: usize = 0;
        while starts && i < 11
            invariant
                i <= 11,
                prefix@ == data_image_prefix(),
                starts ==> v.len() >= 11,
                starts == (v.len() >= 11 && forall|j: int| 0 <= j < i ==> v@[j] == prefix@[j]),
            decreases 11 - i,
        {
            if v[i] != prefix[i] {
                starts = false;
            }
            i = i + 1;
        }
        if starts {
            assert(v@.take(11) =~= data_image_prefix());
            return ContentType::Image;
        }
        proof {
            if v@.len() >= 11 && v@.take(11) == data_image_prefix() {
                assert(i < 11 || !starts);
                assert forall|j: int| 0 <= j < 11 implies v@[j] == prefix@[j] by {
                    assert(v@.take(11)[j] == v@[j]);
                }
            }
        }
        if Self::is_base64(s) && s.unicode_len() > 1024 {
            return ContentType::Image;
        }
        ContentType::Text
    }

    /// Whether `s` is non-empty and made of base64 characters only.
    pub fn is_base64(s: &str) -> (r: bool)
        ensures
            r == spec_is_base64(s@),
    {
        let v = to_chars(s);
        if v.len() == 0 {
            return false;
        }
        let mut i: usize = 0;
        while i < v.len()
            invariant
                i <= v.len(),
                v@ == s@,
                forall|j: int| 0 <= j < i ==> is_base64_char(#[trigger] v@[j]),
            decreases v.len() - i,
        {
            if !base64_char(v[i]) {
                return false;
            }
            i = i + 1;
        }
        true
    }
}

} // verus!

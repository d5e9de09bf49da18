//! JSON values as the library handles them: objects keep their members in
//! order, numbers keep their text.
use vstd::prelude::*;
use vstd::string::*;
use crate::text::str_eq;

verus! {

/// A JSON value; object members in order.
#[derive(Debug, PartialEq)]
pub enum Json {
    Null,
    Bool(bool),
    Number(String),
    Str(String),
    Array(Vec<Json>),
    Object(Vec<(String, Json)>),
}

/// The value of a JSON value.
pub enum JsonView {
    Null,
    Bool(bool),
    Number(Seq<char>),
    Str(Seq<char>),
    Array(Seq<JsonView>),
    Object(Seq<(Seq<char>, JsonView)>),
}

/// The value of `j`.
pub open spec fn json_view(j: Json) -> JsonView
    decreases j,
{
    match j {
        Json::Null => JsonView::Null,
        Json::Bool(b) => JsonView::Bool(b),
        Json::Number(n) => JsonView::Number(n@),
        Json::Str(s) => JsonView::Str(s@),
        Json::Array(a) => JsonView::Array(
            Seq::new(a@.len(), |i: int| if 0 <= i < a@.len() { json_view(a@[i]) } else { JsonView::Null }),
        ),
        Json::Object(o) => JsonView::Object(
            Seq::new(
                o@.len(),
                |i: int| if 0 <= i < o@.len() { (o@[i].0@, json_view(o@[i].1)) } else { (Seq::empty(), JsonView::Null) },
            ),
        ),
    }
}

/// The members of an object as (name, value) pairs.
pub open spec fn members_view(o: Seq<(String, Json)>) -> Seq<(Seq<char>, JsonView)> {
    Seq::new(o.len(), |i: int| if 0 <= i < o.len() { (o[i].0@, json_view(o[i].1)) } else { (Seq::empty(), JsonView::Null) })
}

/// The values of the elements of an array.
pub open spec fn items_view(a: Seq<Json>) -> Seq<JsonView> {
    Seq::new(a.len(), |i: int| if 0 <= i < a.len() { json_view(a[i]) } else { JsonView::Null })
}

/// The value of the first member of `ms` named `k`, if any.
pub open spec fn member_of(ms: Seq<(Seq<char>, JsonView)>, k: Seq<char>) -> Option<JsonView>
    decreases ms.len(),
{
    if ms.len() == 0 {
        None
    } else if ms[0].0 == k {
        Some(ms[0].1)
    } else {
        member_of(ms.drop_first(), k)
    }
}

/// The value of the first member of `ms` named `k`, if any.
pub fn find_member<'a>(ms: &'a Vec<(String, Json)>, k: &str) -> (r: Option<&'a Json>)
    ensures
        match r {
            Some(j) => member_of(members_view(ms@), k@) == Some(json_view(*j)),
            None => member_of(members_view(ms@), k@) is None,
        },
{
    let ghost mv = members_view(ms@);
    let mut i: usize = 0;
    assert(mv.skip(0) =~= mv);
    while i < ms.len()
        invariant
            mv == members_view(ms@),
            i <= ms.len(),
            member_of(mv, k@) == member_of(mv.skip(i as int), k@),
        decreases ms.len() - i,
    {
        assert(mv.skip(i as int)[0] == mv[i as int]);
        assert(mv[i as int] == (ms@[i as int].0@, json_view(ms@[i as int].1)));
        if str_eq(ms[i].0.as_str(), k) {
            return Some(&ms[i].1);
        }
        assert(mv.skip(i as int).drop_first() =~= mv.skip(i + 1));
        i = i + 1;
    }
    None
}

/// The position of the first member of `ms` named `k`, or -1.
pub open spec fn member_index(ms: Seq<(Seq<char>, JsonView)>, k: Seq<char>) -> int
    decreases ms.len(),
{
    if ms.len() == 0 {
        -1
    } else if ms[0].0 == k {
        0
    } else {
        let r = member_index(ms.drop_first(), k);
        if r < 0 { -1 } else { r + 1 }
    }
}

/// A found member lies within the members.
pub proof fn lemma_member_index_bounds(ms: Seq<(Seq<char>, JsonView)>, k: Seq<char>)
    ensures
        -1 <= member_index(ms, k) < ms.len(),
        member_index(ms, k) >= 0 ==> ms[member_index(ms, k)].0 == k,
        forall|j: int| 0 <= j < member_index(ms, k) ==> ms[j].0 != k,
        member_index(ms, k) < 0 ==> forall|j: int| 0 <= j < ms.len() ==> ms[j].0 != k,
    decreases ms.len(),
{
    if ms.len() > 0 && ms[0].0 != k {
        lemma_member_index_bounds(ms.drop_first(), k);
        assert forall|j: int| 1 <= j < ms.len() implies ms[j] == ms.drop_first()[j - 1] by {}
    }
}

/// Member `j` is the first named `k` exactly when `j` is `member_index`.
pub proof fn lemma_member_index_first(ms: Seq<(Seq<char>, JsonView)>, k: Seq<char>, j: int)
    requires
        0 <= j < ms.len(),
    ensures
        (ms[j].0 == k && forall|a: int| 0 <= a < j ==> ms[a].0 != k) <==> member_index(ms, k) == j,
{
    lemma_member_index_bounds(ms, k);
}

/// The position of the first member of `ms` named `k`, if any.
pub fn member_position(ms: &Vec<(String, Json)>, k: &str) -> (r: Option<usize>)
    ensures
        match r {
            Some(i) => i < ms.len() && i as int == member_index(members_view(ms@), k@),
            None => member_index(members_view(ms@), k@) < 0,
        },
{
    let ghost mv = members_view(ms@);
    proof {
        lemma_member_index_bounds(mv, k@);
    }
    let mut i: usize = 0;
    while i < ms.len()
        invariant
            mv == members_view(ms@),
            i <= ms.len(),
            forall|a: int| 0 <= a < i ==> mv[a].0 != k@,
        decreases ms.len() - i,
    {
        assert(mv[i as int] == (ms@[i as int].0@, json_view(ms@[i as int].1)));
        if str_eq(ms[i].0.as_str(), k) {
            proof {
                lemma_member_index_first(mv, k@, i as int);
            }
            return Some(i);
        }
        i = i + 1;
    }
    None
}

/// Replacing member `i` of an object changes only that member's view.
pub proof fn lemma_members_update(ms: Seq<(String, Json)>, i: int, m: (String, Json))
    requires
        0 <= i < ms.len(),
    ensures
        members_view(ms.update(i, m)) == members_view(ms).update(i, (m.0@, json_view(m.1))),
{
    assert(members_view(ms.update(i, m)) =~= members_view(ms).update(i, (m.0@, json_view(m.1))));
}

/// Replacing element `i` of an array changes only that element's view.
pub proof fn lemma_items_update(a: Seq<Json>, i: int, x: Json)
    requires
        0 <= i < a.len(),
    ensures
        items_view(a.update(i, x)) == items_view(a).update(i, json_view(x)),
{
    assert(items_view(a.update(i, x)) =~= items_view(a).update(i, json_view(x)));
}

/// The value of an optional JSON value.
pub open spec fn opt_json_view(o: Option<Json>) -> Option<JsonView> {
    match o {
        Some(j) => Some(json_view(j)),
        None => None,
    }
}

/// The string leaves of a value, in document order.
pub open spec fn string_leaves(v: JsonView) -> Seq<Seq<char>>
    decreases v,
{
    match v {
        JsonView::Str(s) => seq![s],
        JsonView::Array(items) => item_leaves(items).flatten(),
        JsonView::Object(ms) => member_leaves(ms).flatten(),
        _ => Seq::empty(),
    }
}

/// The string leaves of each element.
pub open spec fn item_leaves(items: Seq<JsonView>) -> Seq<Seq<Seq<char>>>
    decreases items,
{
    Seq::new(items.len(), |i: int| if 0 <= i < items.len() { string_leaves(items[i]) } else { Seq::empty() })
}

/// The string leaves of each member's value.
pub open spec fn member_leaves(ms: Seq<(Seq<char>, JsonView)>) -> Seq<Seq<Seq<char>>>
    decreases ms,
{
    Seq::new(ms.len(), |i: int| if 0 <= i < ms.len() { string_leaves(ms[i].1) } else { Seq::empty() })
}

/// The string leaves of `j`: the strings in arrays and member values,
/// depth first, in order; names, numbers, booleans and nulls are skipped.
#[verifier::loop_isolation(false)]
pub fn string_leaves_of(j: &Json) -> (r: Vec<String>)
    ensures
        r.deep_view() == string_leaves(json_view(*j)),
    decreases j,
{
    let mut r: Vec<String> = Vec::new();
    match j {
        Json::Str(s) => {
            r.push(s.clone());
            assert(r.deep_view() =~= seq![s@]);
        },
        Json::Array(items) => {
            let ghost iv = items_view(items@);
            assert(json_view(*j)->Array_0 =~= iv);
            let ghost parts = item_leaves(iv);
            let mut i: usize = 0;
            assert(parts.take(0) =~= Seq::<Seq<Seq<char>>>::empty());
            while i < items.len()
                invariant
                    i <= items.len(),
                    iv == items_view(items@),
                    parts.len() == iv.len(),
                    forall|a: int| 0 <= a < iv.len() ==> #[trigger] parts[a] == string_leaves(iv[a]),
                    r.deep_view() == parts.take(i as int).flatten(),
                decreases items.len() - i,
            {
                assert(decreases_to!(*j => items@[i as int])) by {
                    assert(decreases_to!(*j => (*j)->Array_0));
                    assert(decreases_to!(items => items@));
                    assert(decreases_to!(items@ => items@[i as int]));
                }
                let sub = string_leaves_of(&items[i]);
                let ghost r0 = r.deep_view();
                let mut k: usize = 0;
                while k < sub.len()
                    invariant
                        k <= sub.len(),
                        r.deep_view() == r0 + sub.deep_view().take(k as int),
                    decreases sub.len() - k,
                {
                    let ghost rk = r.deep_view();
                    r.push(sub[k].clone());
                    assert(r.deep_view() =~= rk.push(sub[k as int]@));
                    assert(sub.deep_view().take(k + 1) =~= sub.deep_view().take(k as int).push(sub[k as int]@));
                    k = k + 1;
                }
                assert(sub.deep_view().take(sub.len() as int) =~= sub.deep_view());
                assert(iv[i as int] == json_view(items@[i as int]));
                assert(parts.take(i + 1) =~= parts.take(i as int).push(parts[i as int]));
                proof {
                    parts.take(i as int).lemma_flatten_push(parts[i as int]);
                }
                i = i + 1;
            }
            assert(parts.take(items.len() as int) =~= parts);
            assert(json_view(*j) == JsonView::Array(iv));
            assert(string_leaves(JsonView::Array(iv)) == parts.flatten());
        },
        Json::Object(ms) => {
            let ghost mv = members_view(ms@);
            assert(json_view(*j)->Object_0 =~= mv);
            let ghost parts = member_leaves(mv);
            let mut i: usize = 0;
            assert(parts.take(0) =~= Seq::<Seq<Seq<char>>>::empty());
            while i < ms.len()
                invariant
                    i <= ms.len(),
                    mv == members_view(ms@),
                    parts.len() == mv.len(),
                    forall|a: int| 0 <= a < mv.len() ==> #[trigger] parts[a] == string_leaves(mv[a].1),
                    r.deep_view() == parts.take(i as int).flatten(),
                decreases ms.len() - i,
            {
                assert(decreases_to!(*j => ms@[i as int].1)) by {
                    assert(decreases_to!(*j => (*j)->Object_0));
                    assert(decreases_to!(ms => ms@));
                    assert(decreases_to!(ms@ => ms@[i as int]));
                    assert(decreases_to!(ms@[i as int] => ms@[i as int].1));
                }
                let sub = string_leaves_of(&ms[i].1);
                let ghost r0 = r.deep_view();
                let mut k: usize = 0;
                while k < sub.len()
                    invariant
                        k <= sub.len(),
                        r.deep_view() == r0 + sub.deep_view().take(k as int),
                    decreases sub.len() - k,
                {
                    let ghost rk = r.deep_view();
                    r.push(sub[k].clone());
                    assert(r.deep_view() =~= rk.push(sub[k as int]@));
                    assert(sub.deep_view().take(k + 1) =~= sub.deep_view().take(k as int).push(sub[k as int]@));
                    k = k + 1;
                }
                assert(sub.deep_view().take(sub.len() as int) =~= sub.deep_view());
                assert(mv[i as int].1 == json_view(ms@[i as int].1));
                assert(parts.take(i + 1) =~= parts.take(i as int).push(parts[i as int]));
                proof {
                    parts.take(i as int).lemma_flatten_push(parts[i as int]);
                }
                i = i + 1;
            }
            assert(parts.take(ms.len() as int) =~= parts);
            assert(json_view(*j) == JsonView::Object(mv));
            assert(string_leaves(JsonView::Object(mv)) == parts.flatten());
        },
        _ => {
            assert(r.deep_view() =~= Seq::<Seq<char>>::empty());
        },
    }
    r
}

} // verus!

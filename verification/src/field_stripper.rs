//! Stripping fields at dot-separated paths from JSON values.
use vstd::prelude::*;
use vstd::string::*;
use crate::routing::first_index;
use crate::text::{from_char_range, str_eq, to_chars};
use crate::transport::lemma_first_index_below;
use crate::json::{Json, JsonView, items_view, json_view, members_view};

verus! {

/// The pieces of a path between dots (`str::split('.')`).
pub open spec fn path_parts(path: Seq<char>) -> Seq<Seq<char>>
    decreases path.len(),
{
    let i = first_index(path, '.');
    if i < 0 {
        seq![path]
    } else {
        proof {
            lemma_first_index_below(path, '.');
        }
        seq![path.take(i)] + path_parts(path.skip(i + 1))
    }
}

/// `v` with the field at `parts` removed: in an object, the last part
/// names the member to remove, an earlier one the member to descend into;
/// an array applies the same path to each element; anything else, or an
/// empty path, is left alone.
pub open spec fn strip_view(v: JsonView, parts: Seq<Seq<char>>) -> JsonView
    decreases v,
{
    if parts.len() == 0 {
        v
    } else {
        match v {
            JsonView::Object(ms) => if parts.len() == 1 {
                JsonView::Object(ms.filter(|m: (Seq<char>, JsonView)| m.0 != parts[0]))
            } else {
                JsonView::Object(
                    Seq::new(
                        ms.len(),
                        |i: int| if 0 <= i < ms.len() && ms[i].0 == parts[0] {
                            (ms[i].0, strip_view(ms[i].1, parts.drop_first()))
                        } else {
                            ms[i]
                        },
                    ),
                )
            },
            JsonView::Array(items) => JsonView::Array(
                Seq::new(items.len(), |i: int| if 0 <= i < items.len() { strip_view(items[i], parts) } else { JsonView::Null }),
            ),
            _ => v,
        }
    }
}

/// `v` with the fields at each path removed, path after path.
pub open spec fn strip_all(v: JsonView, paths: Seq<Seq<char>>) -> JsonView
    decreases paths.len(),
{
    if paths.len() == 0 {
        v
    } else {
        strip_view(strip_all(v, paths.drop_last()), path_parts(paths.last()))
    }
}

/// The pieces of `path` between dots.
pub fn split_path(path: &str) -> (r: Vec<String>)
    ensures
        r.deep_view() == path_parts(path@),
{
    let v = to_chars(path);
    let mut r: Vec<String> = Vec::new();
    let mut pos: usize = 0;
    assert(v@.skip(0) =~= v@);
    loop
        invariant
            v@ == path@,
            pos <= v.len(),
            r.deep_view() + path_parts(v@.skip(pos as int)) == path_parts(path@),
        decreases v.len() - pos,
    {
        let ghost rest = v@.skip(pos as int);
        let ghost r0 = r.deep_view();
        match crate::transport::find_from_char(&v, '.', pos) {
            Some(i) => {
                let piece = from_char_range(&v, pos, i);
                proof {
                    assert(piece@ =~= rest.take(i - pos));
                    assert(rest.skip(i - pos + 1) =~= v@.skip(i + 1));
                    assert(path_parts(rest) == seq![rest.take(i - pos)] + path_parts(v@.skip(i + 1)));
                }
                r.push(piece);
                assert(r.deep_view() =~= r0.push(piece@));
                assert(r.deep_view() + path_parts(v@.skip(i + 1)) =~= r0 + path_parts(rest));
                pos = i + 1;
            },
            None => {
                let piece = from_char_range(&v, pos, v.len());
                assert(piece@ =~= rest);
                assert(path_parts(rest) == seq![rest]);
                r.push(piece);
                assert(r.deep_view() =~= r0 + path_parts(rest));
                return r;
            },
        }
    }
}

/// `value` with the field at `parts[k..]` removed.
#[verifier::loop_isolation(false)]
fn strip_path(value: Json, parts: &Vec<String>, k: usize) -> (r: Json)
    requires
        k <= parts.len(),
    ensures
        json_view(r) == strip_view(json_view(value), parts.deep_view().skip(k as int)),
    decreases value,
{
    let ghost pv = parts.deep_view().skip(k as int);
    let ghost v0 = value;
    if k == parts.len() {
        assert(pv.len() == 0);
        return value;
    }
    assert(pv[0] == parts[k as int]@);
    assert(pv.drop_first() =~= parts.deep_view().skip(k + 1));
    match value {
        Json::Object(ms) => {
            let ghost mseq = ms@;
            let ghost mv = members_view(mseq);
            assert(v0 == Json::Object(ms));
            assert(json_view(v0)->Object_0 =~= mv);
            let mut out: Vec<(String, Json)> = Vec::new();
            if parts.len() - k == 1 {
                let ghost pred = |m: (Seq<char>, JsonView)| m.0 != pv[0];
                assert(members_view(out@) =~= mv.take(0).filter(pred));
                for m in it: ms.into_iter()
                    invariant
                        it.seq() == mseq,
                        mv == members_view(mseq),
                        pv == parts.deep_view().skip(k as int),
                        k < parts.len(),
                        pred == (|m: (Seq<char>, JsonView)| m.0 != pv[0]),
                        members_view(out@) == mv.take(it.index() as int).filter(pred),
                {
                    let ghost i = it.index() as int;
                    assert(mv.take(i + 1) =~= mv.take(i).push(mv[i]));
                    proof {
                        mv.take(i).lemma_filter_push(mv[i], pred);
                    }
                    assert(mv[i] == (m.0@, json_view(m.1)));
                    let ghost o0 = out@;
                    if !str_eq(m.0.as_str(), parts[k].as_str()) {
                        out.push(m);
                        assert(members_view(out@) =~= members_view(o0).push(mv[i]));
                    }
                }
                assert(mv.take(mv.len() as int) =~= mv);
                let r = Json::Object(out);
                assert(json_view(r)->Object_0 =~= members_view(out@));
                assert(json_view(v0)->Object_0 =~= mv);
                assert(strip_view(json_view(v0), pv)->Object_0 =~= mv.filter(pred));
                r
            } else {
                let ghost rest = pv.drop_first();
                let ghost target = Seq::new(
                    mv.len(),
                    |i: int| if 0 <= i < mv.len() && mv[i].0 == pv[0] {
                        (mv[i].0, strip_view(mv[i].1, rest))
                    } else {
                        mv[i]
                    },
                );
                assert(json_view(v0)->Object_0 =~= mv);
                assert(strip_view(json_view(v0), pv)->Object_0 =~= target);
                for m in it: ms.into_iter()
                    invariant
                        it.seq() == mseq,
                        mv == members_view(mseq),
                        pv == parts.deep_view().skip(k as int),
                        rest == parts.deep_view().skip(k + 1),
                        k + 1 < parts.len(),
                        v0 == Json::Object(ms),
                        target.len() == mv.len(),
                        forall|i: int| 0 <= i < mv.len() ==> #[trigger] target[i] == if mv[i].0 == pv[0] {
                            (mv[i].0, strip_view(mv[i].1, rest))
                        } else {
                            mv[i]
                        },
                        out@.len() == it.index(),
                        forall|j: int| 0 <= j < it.index() ==> #[trigger] members_view(out@)[j] == target[j],
                {
                    let ghost i = it.index() as int;
                    assert(mv[i] == (m.0@, json_view(m.1)));
                    let (name, child) = m;
                    let ghost o0 = out@;
                    if str_eq(name.as_str(), parts[k].as_str()) {
                        assert(decreases_to!(v0 => child)) by {
                            assert(ms@[i] == (name, child));
                            assert(decreases_to!(v0 => v0->Object_0));
                            assert(decreases_to!(ms => ms@));
                            assert(decreases_to!(ms@ => ms@[i]));
                            assert(decreases_to!(ms@[i] => ms@[i].1));
                        }
                        let stripped = strip_path(child, parts, k + 1);
                        out.push((name, stripped));
                    } else {
                        out.push((name, child));
                    }
                    assert forall|j: int| 0 <= j < i + 1 implies #[trigger] members_view(out@)[j] == target[j] by {
                        if j < i {
                            assert(out@[j] == o0[j]);
                            assert(members_view(o0)[j] == target[j]);
                        }
                    }
                }
                assert(members_view(out@) =~= target);
                let r = Json::Object(out);
                assert(json_view(r)->Object_0 =~= members_view(out@));
                r
            }
        },
        Json::Array(items) => {
            let ghost iseq = items@;
            let ghost iv = items_view(iseq);
            assert(v0 == Json::Array(items));
            assert(json_view(v0)->Array_0 =~= iv);
            let mut out: Vec<Json> = Vec::new();
            for item in it: items.into_iter()
                invariant
                    it.seq() == iseq,
                    iv == items_view(iseq),
                    pv == parts.deep_view().skip(k as int),
                    k < parts.len(),
                    v0 == Json::Array(items),
                    out@.len() == it.index(),
                    forall|j: int| 0 <= j < it.index() ==> #[trigger] items_view(out@)[j] == strip_view(iv[j], pv),
            {
                let ghost i = it.index() as int;
                assert(iv[i] == json_view(item));
                let ghost o0 = out@;
                assert(decreases_to!(v0 => item)) by {
                    assert(decreases_to!(v0 => v0->Array_0));
                    assert(decreases_to!(items => items@));
                    assert(decreases_to!(items@ => items@[i]));
                }
                let stripped = strip_path(item, parts, k);
                out.push(stripped);
                assert forall|j: int| 0 <= j < i + 1 implies #[trigger] items_view(out@)[j] == strip_view(iv[j], pv) by {
                    if j < i {
                        assert(out@[j] == o0[j]);
                        assert(items_view(o0)[j] == strip_view(iv[j], pv));
                    }
                }
            }
            assert(items_view(out@) =~= Seq::new(
                iv.len(),
                |i: int| if 0 <= i < iv.len() { strip_view(iv[i], pv) } else { JsonView::Null },
            ));
            let r = Json::Array(out);
            assert(json_view(r)->Array_0 =~= items_view(out@));
            assert(strip_view(json_view(v0), pv)->Array_0 =~= items_view(out@));
            r
        },
        other => other,
    }
}

/// Removes from `value` the fields at each dot-separated path (for
/// example `metadata.managedFields`), path after path; paths that lead
/// nowhere change nothing.
pub fn strip_fields(value: &mut Json, paths: &Vec<String>)
    ensures
        json_view(*final(value)) == strip_all(json_view(*old(value)), paths.deep_view()),
{
    let mut taken = Json::Null;
    std::mem::swap(&mut taken, value);
    *value = stripped(taken, paths);
}

/// `value` with the fields at each dot-separated path removed.
fn stripped(value: Json, paths: &Vec<String>) -> (r: Json)
    ensures
        json_view(r) == strip_all(json_view(value), paths.deep_view()),
{
    let ghost ps = paths.deep_view();
    let mut v = value;
    let mut i: usize = 0;
    assert(ps.take(0) =~= Seq::<Seq<char>>::empty());
    while i < paths.len()
        invariant
            ps == paths.deep_view(),
            i <= paths.len(),
            json_view(v) == strip_all(json_view(value), ps.take(i as int)),
        decreases paths.len() - i,
    {
        let parts = split_path(paths[i].as_str());
        assert(parts.deep_view().skip(0) =~= parts.deep_view());
        assert(ps.take(i + 1).drop_last() =~= ps.take(i as int));
        assert(ps.take(i + 1).last() == paths[i as int]@);
        v = strip_path(v, &parts, 0);
        i = i + 1;
    }
    assert(ps.take(ps.len() as int) =~= ps);
    v
}

} // verus!

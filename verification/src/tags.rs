//! How a tool's tags overlap the session's keywords, compared without case:
//! the counts behind their Jaccard similarity.
use vstd::prelude::*;
use vstd::set_lib::*;
use crate::text::{lowercase, str_eq, to_lowercase};

verus! {

/// The lower-case forms of the first `n` strings.
pub open spec fn lowered_prefix(v: Seq<String>, n: int) -> Set<Seq<char>> {
    Set::new(|t: Seq<char>| exists|j: int| 0 <= j < n && lowercase(#[trigger] v[j]@) == t)
}

/// The lower-case forms of the strings, as a set.
pub open spec fn lowered(v: Seq<String>) -> Set<Seq<char>> {
    lowered_prefix(v, v.len() as int)
}

/// How tags and keywords compare.
#[derive(Debug, Clone, Copy, PartialEq, Eq, Structural)]
pub enum TagMatch {
    /// There are no keywords yet: the comparison is neutral.
    Neutral,
    /// There are keywords but the tool has no tags.
    NoTags,
    /// Both are present: `shared` distinct lower-case words occur in both,
    /// `combined` in either.
    Overlap { shared: usize, combined: usize },
}

/// The views of a list of strings.
pub open spec fn views(v: Seq<String>) -> Seq<Seq<char>> {
    v.map_values(|s: String| s@)
}

/// The distinct lower-case forms of `v`, in first-occurrence order.
fn distinct_lowered(v: &Vec<String>) -> (r: Vec<String>)
    ensures
        views(r@).no_duplicates(),
        views(r@).to_set() == lowered(v@),
        r.len() <= v.len(),
{
    let mut r: Vec<String> = Vec::new();
    let mut i: usize = 0;
    assert(views(r@).to_set() =~= lowered_prefix(v@, 0));
    while i < v.len()
        invariant
            i <= v.len(),
            views(r@).no_duplicates(),
            views(r@).to_set() == lowered_prefix(v@, i as int),
            r.len() <= i,
        decreases v.len() - i,
    {
        let l = to_lowercase(v[i].as_str());
        let ghost before = views(r@);
        let mut seen = false;
        let mut k: usize = 0;
        while k < r.len()
            invariant
                k <= r.len(),
                before == views(r@),
                seen ==> before.to_set().contains(l@),
                !seen ==> forall|a: int| 0 <= a < k ==> before[a] != l@,
            decreases r.len() - k,
        {
            assert(before[k as int] == r@[k as int]@);
            if str_eq(r[k].as_str(), l.as_str()) {
                assert(before[k as int] == l@);
                seen = true;
            }
            k = k + 1;
        }
        proof {
            assert(before.to_set().contains(l@) <==> seen);
        }
        if !seen {
            r.push(l);
            assert(views(r@) =~= before.push(l@));
            assert(views(r@).no_duplicates()) by {
                assert forall|a: int, b: int| 0 <= a < b < views(r@).len() implies views(r@)[a] != views(r@)[b] by {
                    if b == before.len() {
                        assert(before.to_set().contains(before[a]));
                    }
                }
            }
        }
        assert(views(r@).to_set() =~= lowered_prefix(v@, i + 1)) by {
            assert forall|t: Seq<char>| lowered_prefix(v@, i + 1).contains(t) implies views(r@).to_set().contains(t) by {
                let j = choose|j: int| 0 <= j < i + 1 && lowercase(#[trigger] v@[j]@) == t;
                if j < i {
                    assert(lowered_prefix(v@, i as int).contains(t));
                    assert(before.to_set().contains(t));
                    let a = choose|a: int| 0 <= a < before.len() && before[a] == t;
                    assert(views(r@)[a] == t);
                } else if !seen {
                    assert(views(r@)[views(r@).len() - 1] == t);
                } else {
                    let a = choose|a: int| 0 <= a < before.len() && before[a] == l@;
                    assert(views(r@)[a] == t);
                }
            }
            assert forall|t: Seq<char>| views(r@).to_set().contains(t) implies lowered_prefix(v@, i + 1).contains(t) by {
                let a = choose|a: int| 0 <= a < views(r@).len() && views(r@)[a] == t;
                if a < before.len() {
                    assert(before.to_set().contains(t));
                    assert(lowered_prefix(v@, i as int).contains(t));
                    let j = choose|j: int| 0 <= j < i && lowercase(#[trigger] v@[j]@) == t;
                    assert(0 <= j < i + 1 && lowercase(v@[j]@) == t);
                } else {
                    assert(lowercase(v@[i as int]@) == t);
                }
            }
        }
        i = i + 1;
    }
    r
}

/// Whether `x` is one of the strings.
fn contains_view(v: &Vec<String>, x: &str) -> (r: bool)
    ensures
        r == views(v@).contains(x@),
{
    let mut k: usize = 0;
    while k < v.len()
        invariant
            k <= v.len(),
            forall|a: int| 0 <= a < k ==> views(v@)[a] != x@,
        decreases v.len() - k,
    {
        if str_eq(v[k].as_str(), x) {
            assert(views(v@)[k as int] == x@);
            return true;
        }
        k = k + 1;
    }
    false
}

/// Compares a tool's tags with the keywords, ignoring case and repeats:
/// neutral without keywords, no match without tags, and otherwise the
/// numbers of distinct lower-case words in both and in either.
pub fn tag_match(tool_tags: &Vec<String>, keywords: &Vec<String>) -> (r: TagMatch)
    requires
        tool_tags.len() + keywords.len() <= usize::MAX,
    ensures
        match r {
            TagMatch::Neutral => keywords.len() == 0,
            TagMatch::NoTags => keywords.len() > 0 && tool_tags.len() == 0,
            TagMatch::Overlap { shared, combined } => {
                &&& keywords.len() > 0
                &&& tool_tags.len() > 0
                &&& shared == lowered(tool_tags@).intersect(lowered(keywords@)).len()
                &&& combined == lowered(tool_tags@).union(lowered(keywords@)).len()
            },
        },
{
    if keywords.len() == 0 {
        return TagMatch::Neutral;
    }
    if tool_tags.len() == 0 {
        return TagMatch::NoTags;
    }
    let a = distinct_lowered(tool_tags);
    let b = distinct_lowered(keywords);
    let ghost sa = views(a@);
    let ghost sb = views(b@);
    let ghost bset = lowered(keywords@);
    proof {
        sa.unique_seq_to_set();
        sb.unique_seq_to_set();
    }
    let mut shared: usize = 0;
    let mut i: usize = 0;
    assert(sa.take(0).to_set() =~= Set::<Seq<char>>::empty());
    assert(sa.take(0).to_set().intersect(bset) =~= Set::<Seq<char>>::empty());
    while i < a.len()
        invariant
            sa == views(a@),
            sb == views(b@),
            sa.no_duplicates(),
            sb.to_set() == bset,
            i <= a.len(),
            shared <= i,
            shared as int == sa.take(i as int).to_set().intersect(bset).len(),
        decreases a.len() - i,
    {
        let ghost x = sa[i as int];
        let ghost prev = sa.take(i as int).to_set();
        proof {
            assert(sa.take(i + 1) =~= sa.take(i as int).push(x));
            sa.take(i as int).lemma_push_to_set_commute(x);
            assert(!prev.contains(x)) by {
                if prev.contains(x) {
                    let a0 = choose|a0: int| 0 <= a0 < i && sa.take(i as int)[a0] == x;
                    assert(sa[a0] == sa[i as int]);
                }
            }
            lemma_len_intersect(prev, bset);
        }
        assert(a@[i as int]@ == x);
        if contains_view(&b, a[i].as_str()) {
            proof {
                assert(prev.insert(x).intersect(bset) =~= prev.intersect(bset).insert(x));
                assert(!prev.intersect(bset).contains(x));
            }
            shared = shared + 1;
        } else {
            assert(prev.insert(x).intersect(bset) =~= prev.intersect(bset));
        }
        i = i + 1;
    }
    proof {
        assert(sa.take(a.len() as int) =~= sa);
        lemma_set_intersect_union_lens(sa.to_set(), bset);
    }
    TagMatch::Overlap { shared, combined: a.len() + b.len() - shared }
}

} // verus!

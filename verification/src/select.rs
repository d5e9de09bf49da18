//! Choosing which ranked tools a listing shows: the best `max`, then the
//! tools that must always be shown.
use vstd::prelude::*;
use crate::text::str_eq;

verus! {

/// The position of the first `name` in `ranked`, or -1.
pub open spec fn first_at(ranked: Seq<Seq<char>>, name: Seq<char>) -> int
    decreases ranked.len(),
{
    if ranked.len() == 0 {
        -1
    } else if ranked.last() == name {
        let r = first_at(ranked.drop_last(), name);
        if r >= 0 { r } else { ranked.len() - 1 }
    } else {
        first_at(ranked.drop_last(), name)
    }
}

/// How many of the ranked tools are taken by rank.
pub open spec fn top_count(ranked: Seq<Seq<char>>, max: nat) -> int {
    if max < ranked.len() { max as int } else { ranked.len() as int }
}

/// Whether `name` is among the tools taken by rank.
pub open spec fn in_top(ranked: Seq<Seq<char>>, max: nat, name: Seq<char>) -> bool {
    exists|i: int| 0 <= i < top_count(ranked, max) && ranked[i] == name
}

/// The positions added for the always-included names, in their order: each
/// name not taken by rank and present in the ranking adds its first
/// position (a name listed twice is added twice).
pub open spec fn extra_positions(ranked: Seq<Seq<char>>, max: nat, always: Seq<Seq<char>>) -> Seq<int>
    decreases always.len(),
{
    if always.len() == 0 {
        Seq::empty()
    } else {
        let name = always.last();
        let rest = extra_positions(ranked, max, always.drop_last());
        if !in_top(ranked, max, name) && first_at(ranked, name) >= 0 {
            rest.push(first_at(ranked, name))
        } else {
            rest
        }
    }
}

/// The positions in the ranking of the tools shown: the first `max`, then
/// the extra always-included ones.
pub open spec fn spec_select(ranked: Seq<Seq<char>>, max: nat, always: Seq<Seq<char>>) -> Seq<int> {
    Seq::new(top_count(ranked, max) as nat, |i: int| i) + extra_positions(ranked, max, always)
}

proof fn lemma_first_at(ranked: Seq<Seq<char>>, name: Seq<char>)
    ensures
        -1 <= first_at(ranked, name) < ranked.len(),
        first_at(ranked, name) >= 0 ==> ranked[first_at(ranked, name)] == name,
        forall|j: int| 0 <= j < ranked.len() && ranked[j] == name ==> 0 <= first_at(ranked, name) <= j,
    decreases ranked.len(),
{
    if ranked.len() > 0 {
        lemma_first_at(ranked.drop_last(), name);
        assert forall|j: int| 0 <= j < ranked.len() - 1 implies ranked[j] == ranked.drop_last()[j] by {}
    }
}

/// The first position of `name` among the first `n` ranked names.
fn position_in(ranked: &Vec<String>, n: usize, name: &str) -> (r: Option<usize>)
    requires
        n <= ranked.len(),
    ensures
        match r {
            Some(i) => i < n && ranked@[i as int]@ == name@
                && forall|j: int| 0 <= j < i ==> ranked@[j]@ != name@,
            None => forall|j: int| 0 <= j < n ==> ranked@[j]@ != name@,
        },
{
    let mut i: usize = 0;
    while i < n
        invariant
            i <= n <= ranked.len(),
            forall|j: int| 0 <= j < i ==> ranked@[j]@ != name@,
        decreases n - i,
    {
        if str_eq(ranked[i].as_str(), name) {
            return Some(i);
        }
        i = i + 1;
    }
    None
}

/// The positions in `ranked` (best first) of the tools a listing shows:
/// the first `max`, then, for each name of `always_include` that is not
/// among them and occurs in the ranking, its first position.
pub fn select_ranked(ranked: &Vec<String>, max: usize, always_include: &Vec<String>) -> (r: Vec<usize>)
    ensures
        r@.map_values(|i: usize| i as int) == spec_select(ranked@.map_values(|s: String| s@), max as nat,
            always_include@.map_values(|s: String| s@)),
{
    let ghost names = ranked@.map_values(|s: String| s@);
    let ghost always = always_include@.map_values(|s: String| s@);
    let top = if max < ranked.len() { max } else { ranked.len() };
    let mut r: Vec<usize> = Vec::new();
    let mut i: usize = 0;
    while i < top
        invariant
            top as int == top_count(names, max as nat),
            top <= ranked.len(),
            i <= top,
            r@.map_values(|x: usize| x as int) =~= Seq::new(i as nat, |k: int| k),
        decreases top - i,
    {
        let ghost before = r@.map_values(|x: usize| x as int);
        r.push(i);
        assert(r@.map_values(|x: usize| x as int) =~= before.push(i as int));
        i = i + 1;
    }
    let mut k: usize = 0;
    while k < always_include.len()
        invariant
            names == ranked@.map_values(|s: String| s@),
            always == always_include@.map_values(|s: String| s@),
            top as int == top_count(names, max as nat),
            top <= ranked.len(),
            k <= always_include.len(),
            r@.map_values(|x: usize| x as int) == Seq::new(top as nat, |j: int| j) + extra_positions(
                names, max as nat, always.take(k as int)),
        decreases always_include.len() - k,
    {
        let name = always_include[k].as_str();
        let ghost before = r@.map_values(|x: usize| x as int);
        proof {
            lemma_first_at(names, name@);
            assert(always.take(k + 1).drop_last() =~= always.take(k as int));
            assert(always.take(k + 1).last() == name@);
        }
        let shown = position_in(ranked, top, name);
        assert(shown is Some <==> in_top(names, max as nat, name@)) by {
            if let Some(p) = shown {
                assert(names[p as int] == name@);
            }
        }
        if shown.is_none() {
            if let Some(p) = position_in(ranked, ranked.len(), name) {
                assert(names[p as int] == name@);
                assert forall|j: int| 0 <= j < p implies names[j] != name@ by {
                    assert(names[j] == ranked@[j]@);
                }
                assert(p as int == first_at(names, name@));
                r.push(p);
                assert(r@.map_values(|x: usize| x as int) =~= before.push(p as int));
            } else {
                assert(first_at(names, name@) < 0);
            }
        }
        k = k + 1;
    }
    assert(always.take(always_include.len() as int) =~= always);
    r
}

} // verus!

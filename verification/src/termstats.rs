//! Term counts over tokenized documents: how often each term occurs in a
//! document and across a corpus, and in how many documents it occurs. The
//! weights computed from them are the application's.
use vstd::prelude::*;
use crate::registry::ToolEntry;
use crate::text::{from_chars, str_eq, to_chars};

verus! {

/// The views of a list of strings.
pub open spec fn token_views(v: Seq<String>) -> Seq<Seq<char>> {
    v.map_values(|s: String| s@)
}

/// How often `t` occurs among `tokens`.
pub open spec fn occurrences(tokens: Seq<Seq<char>>, t: Seq<char>) -> nat
    decreases tokens.len(),
{
    if tokens.len() == 0 {
        0
    } else {
        occurrences(tokens.drop_last(), t) + if tokens.last() == t { 1nat } else { 0nat }
    }
}

/// A table of counts: distinct terms, each with a count.
pub open spec fn counts_wf(r: Seq<(String, usize)>) -> bool {
    forall|i: int, j: int| 0 <= i < j < r.len() ==> (#[trigger] r[i]).0@ != (#[trigger] r[j]).0@
}

/// Whether `t` is one of the table's terms.
pub open spec fn counted(r: Seq<(String, usize)>, t: Seq<char>) -> bool {
    exists|i: int| 0 <= i < r.len() && (#[trigger] r[i]).0@ == t
}

/// The position of `t` among the first `n` terms of the table.
fn term_position(r: &Vec<(String, usize)>, t: &str) -> (p: Option<usize>)
    ensures
        match p {
            Some(i) => i < r.len() && r@[i as int].0@ == t@,
            None => !counted(r@, t@),
        },
{
    let mut i: usize = 0;
    while i < r.len()
        invariant
            i <= r.len(),
            forall|a: int| 0 <= a < i ==> r@[a].0@ != t@,
        decreases r.len() - i,
    {
        if str_eq(r[i].0.as_str(), t) {
            return Some(i);
        }
        i = i + 1;
    }
    None
}

/// Adds `by` to the count of `t` in the table, adding `t` with count `by`
/// when it is new.
#[verifier::spinoff_prover]
fn bump(r: &mut Vec<(String, usize)>, t: &String, by: usize, f: Ghost<spec_fn(Seq<char>) -> nat>)
    requires
        counts_wf(old(r)@),
        forall|i: int| 0 <= i < old(r)@.len() ==> (#[trigger] old(r)@[i]).1 == f@(old(r)@[i].0@),
        forall|u: Seq<char>| !counted(old(r)@, u) ==> f@(u) == 0,
        f@(t@) + by <= usize::MAX,
    ensures
        counts_wf(final(r)@),
        forall|i: int| 0 <= i < final(r)@.len() ==> (#[trigger] final(r)@[i]).1
            == f@(final(r)@[i].0@) + if final(r)@[i].0@ == t@ { by as nat } else { 0nat },
        forall|u: Seq<char>| #[trigger] counted(final(r)@, u) ==> (counted(old(r)@, u) || u == t@),
        forall|u: Seq<char>| #[trigger] counted(old(r)@, u) ==> counted(final(r)@, u),
        counted(final(r)@, t@),
{
    let ghost r0 = r@;
    match term_position(r, t.as_str()) {
        Some(i) => {
            let (name, c) = r.remove(i);
            r.insert(i, (name, c + by));
            assert(r@ =~= r0.update(i as int, (name, (c + by) as usize)));
            assert(r@[i as int].0@ == t@);
            assert(counted(r@, t@));
            assert forall|u: Seq<char>| counted(r@, u) <==> (counted(r0, u) || u == t@) by {
                if counted(r0, u) {
                    let a = choose|a: int| 0 <= a < r0.len() && (#[trigger] r0[a]).0@ == u;
                    assert(r@[a].0@ == u);
                }
                if counted(r@, u) {
                    let a = choose|a: int| 0 <= a < r@.len() && (#[trigger] r@[a]).0@ == u;
                    assert(r0[a].0@ == u);
                }
                if u == t@ {
                    assert(r@[i as int].0@ == u);
                }
            }
        },
        None => {
            let c = t.clone();
            assert(c@ == t@);
            r.push((c, by));
            assert(r@ =~= r0.push((c, by)));
            assert(r@[r0.len() as int].0@ == t@);
            assert(counted(r@, t@));
            assert forall|u: Seq<char>| counted(r@, u) <==> (counted(r0, u) || u == t@) by {
                if counted(r0, u) {
                    let a = choose|a: int| 0 <= a < r0.len() && (#[trigger] r0[a]).0@ == u;
                    assert(r@[a].0@ == u);
                }
                if counted(r@, u) {
                    let a = choose|a: int| 0 <= a < r@.len() && (#[trigger] r@[a]).0@ == u;
                    if a < r0.len() {
                        assert(r0[a].0@ == u);
                    }
                }
                if u == t@ {
                    assert(r@[r0.len() as int].0@ == u);
                }
            }
        },
    }
}

/// The distinct terms of `tokens`, each with how often it occurs.
pub fn term_counts(tokens: &Vec<String>) -> (r: Vec<(String, usize)>)
    ensures
        counts_wf(r@),
        forall|t: Seq<char>| counted(r@, t) <==> token_views(tokens@).contains(t),
        forall|i: int| 0 <= i < r@.len() ==> (#[trigger] r@[i]).1 == occurrences(token_views(tokens@), r@[i].0@),
{
    let ghost tv = token_views(tokens@);
    let mut r: Vec<(String, usize)> = Vec::new();
    let mut k: usize = 0;
    while k < tokens.len()
        invariant
            tv == token_views(tokens@),
            k <= tokens.len(),
            counts_wf(r@),
            forall|t: Seq<char>| counted(r@, t) <==> tv.take(k as int).contains(t),
            forall|i: int| 0 <= i < r@.len() ==> (#[trigger] r@[i]).1 == occurrences(tv.take(k as int), r@[i].0@),
            forall|t: Seq<char>| #[trigger] occurrences(tv.take(k as int), t) <= k,
        decreases tokens.len() - k,
    {
        let ghost pre = tv.take(k as int);
        let ghost f = |u: Seq<char>| occurrences(pre, u);
        proof {
            assert(tv.take(k + 1).drop_last() =~= pre);
            assert(tv.take(k + 1).last() == tokens@[k as int]@);
            assert forall|u: Seq<char>| !counted(r@, u) implies f(u) == 0 by {
                lemma_absent_occurrences(pre, u);
            }
        }
        let ghost rb = r@;
        let ghost tok = tokens@[k as int]@;
        bump(&mut r, &tokens[k], 1, Ghost(f));
        proof {
            let nx = tv.take(k + 1);
            assert(nx[k as int] == tok);
            assert forall|t: Seq<char>| counted(r@, t) <==> #[trigger] nx.contains(t) by {
                if counted(r@, t) {
                    if counted(rb, t) {
                        assert(pre.contains(t));
                        let a = choose|a: int| 0 <= a < pre.len() && pre[a] == t;
                        assert(nx[a] == t);
                    } else {
                        assert(t == tok);
                    }
                }
                if nx.contains(t) {
                    let a = choose|a: int| 0 <= a < nx.len() && nx[a] == t;
                    if a < k {
                        assert(pre[a] == t);
                        assert(counted(rb, t));
                    }
                }
            }
        }
        let ghost nxt = tv.take(k + 1);
        assert forall|t: Seq<char>| #[trigger] occurrences(nxt, t) <= k + 1 by {
            assert(occurrences(pre, t) <= k);
        }
        k = k + 1;
    }
    assert(tv.take(tokens.len() as int) =~= tv);
    r
}

/// A term that does not occur has no occurrences.
proof fn lemma_absent_occurrences(tokens: Seq<Seq<char>>, t: Seq<char>)
    requires
        !tokens.contains(t),
    ensures
        occurrences(tokens, t) == 0,
    decreases tokens.len(),
{
    if tokens.len() > 0 {
        assert(!tokens.drop_last().contains(t)) by {
            if tokens.drop_last().contains(t) {
                let a = choose|a: int| 0 <= a < tokens.len() - 1 && tokens.drop_last()[a] == t;
                assert(tokens[a] == t);
            }
        }
        lemma_absent_occurrences(tokens.drop_last(), t);
    }
}

/// The tokens of each document.
pub open spec fn doc_views(docs: Seq<Vec<String>>) -> Seq<Seq<Seq<char>>> {
    docs.map_values(|d: Vec<String>| token_views(d@))
}

/// How often `t` occurs across the documents.
pub open spec fn corpus_occurrences(docs: Seq<Seq<Seq<char>>>, t: Seq<char>) -> nat
    decreases docs.len(),
{
    if docs.len() == 0 {
        0
    } else {
        corpus_occurrences(docs.drop_last(), t) + occurrences(docs.last(), t)
    }
}

/// In how many of the documents `t` occurs.
pub open spec fn document_frequency(docs: Seq<Seq<Seq<char>>>, t: Seq<char>) -> nat
    decreases docs.len(),
{
    if docs.len() == 0 {
        0
    } else {
        document_frequency(docs.drop_last(), t) + if docs.last().contains(t) { 1nat } else { 0nat }
    }
}

/// The number of tokens in all the documents.
pub open spec fn total_tokens(docs: Seq<Seq<Seq<char>>>) -> nat
    decreases docs.len(),
{
    if docs.len() == 0 {
        0
    } else {
        total_tokens(docs.drop_last()) + docs.last().len()
    }
}

/// Whether `t` occurs in one of the documents.
pub open spec fn in_corpus(docs: Seq<Seq<Seq<char>>>, t: Seq<char>) -> bool {
    exists|d: int| 0 <= d < docs.len() && (#[trigger] docs[d]).contains(t)
}

/// A term occurs at most as often as there are tokens; it occurs exactly
/// when it is one of them.
proof fn lemma_occurrences_bound(tokens: Seq<Seq<char>>, t: Seq<char>)
    ensures
        occurrences(tokens, t) <= tokens.len(),
        occurrences(tokens, t) > 0 <==> tokens.contains(t),
    decreases tokens.len(),
{
    if tokens.len() > 0 {
        lemma_occurrences_bound(tokens.drop_last(), t);
        if tokens.drop_last().contains(t) {
            let a = choose|a: int| 0 <= a < tokens.len() - 1 && tokens.drop_last()[a] == t;
            assert(tokens[a] == t);
        }
        if tokens.contains(t) {
            let a = choose|a: int| 0 <= a < tokens.len() && tokens[a] == t;
            if a < tokens.len() - 1 {
                assert(tokens.drop_last()[a] == t);
            }
        }
    }
}

/// Counts over a prefix of the documents stay within the whole.
proof fn lemma_corpus_bounds(docs: Seq<Seq<Seq<char>>>, t: Seq<char>)
    ensures
        corpus_occurrences(docs, t) <= total_tokens(docs),
        document_frequency(docs, t) <= docs.len(),
    decreases docs.len(),
{
    if docs.len() > 0 {
        lemma_corpus_bounds(docs.drop_last(), t);
        lemma_occurrences_bound(docs.last(), t);
    }
}

/// A prefix of the documents has no more tokens than all of them.
proof fn lemma_total_prefix(docs: Seq<Seq<Seq<char>>>, n: int)
    requires
        0 <= n <= docs.len(),
    ensures
        total_tokens(docs.take(n)) <= total_tokens(docs),
    decreases docs.len() - n,
{
    if n < docs.len() {
        lemma_total_prefix(docs, n + 1);
        assert(docs.take(n + 1).drop_last() =~= docs.take(n));
    } else {
        assert(docs.take(n) =~= docs);
    }
}

/// The count kept for `t`: its occurrences in all the documents, or the
/// number of documents it occurs in.
pub open spec fn tally(docs: Seq<Seq<Seq<char>>>, t: Seq<char>, per_document: bool) -> nat {
    if per_document { document_frequency(docs, t) } else { corpus_occurrences(docs, t) }
}

/// What one document adds to the count of `t`.
pub open spec fn doc_weight(doc: Seq<Seq<char>>, t: Seq<char>, per_document: bool) -> nat {
    if per_document {
        if doc.contains(t) { 1nat } else { 0nat }
    } else {
        occurrences(doc, t)
    }
}

/// Each term of the documents with how often it occurs in all of them
/// (`per_document` false) or in how many of them it occurs (`per_document`
/// true).
pub fn corpus_counts(docs: &Vec<Vec<String>>, per_document: bool) -> (r: Vec<(String, usize)>)
    requires
        total_tokens(doc_views(docs@)) <= usize::MAX,
    ensures
        counts_wf(r@),
        forall|t: Seq<char>| counted(r@, t) <==> in_corpus(doc_views(docs@), t),
        forall|i: int| 0 <= i < r@.len() ==> (#[trigger] r@[i]).1 == tally(doc_views(docs@), r@[i].0@, per_document),
{
    let ghost dv = doc_views(docs@);
    let mut r: Vec<(String, usize)> = Vec::new();
    let mut d: usize = 0;
    while d < docs.len()
        invariant
            dv == doc_views(docs@),
            total_tokens(dv) <= usize::MAX,
            d <= docs.len(),
            counts_wf(r@),
            forall|t: Seq<char>| counted(r@, t) <==> in_corpus(dv.take(d as int), t),
            forall|i: int| 0 <= i < r@.len() ==> (#[trigger] r@[i]).1 == tally(dv.take(d as int), r@[i].0@, per_document),
        decreases docs.len() - d,
    {
        let ghost pre = dv.take(d as int);
        let ghost doc = dv[d as int];
        assert(doc == token_views(docs@[d as int]@));
        let counts = term_counts(&docs[d]);
        proof {
            assert(dv.take(d + 1).drop_last() =~= pre);
            assert(dv.take(d + 1).last() == doc);
            lemma_total_prefix(dv, d + 1);
        }
        let mut j: usize = 0;
        while j < counts.len()
            invariant
                dv == doc_views(docs@),
                total_tokens(dv) <= usize::MAX,
                d < docs.len(),
                pre == dv.take(d as int),
                doc == dv[d as int],
                total_tokens(dv.take(d + 1)) <= total_tokens(dv),
                dv.take(d + 1).drop_last() == pre,
                dv.take(d + 1).last() == doc,
                counts_wf(counts@),
                forall|t: Seq<char>| counted(counts@, t) <==> doc.contains(t),
                forall|i: int| 0 <= i < counts@.len() ==> (#[trigger] counts@[i]).1 == occurrences(doc, counts@[i].0@),
                j <= counts.len(),
                counts_wf(r@),
                forall|t: Seq<char>| counted(r@, t) <==> (in_corpus(pre, t) || counted(counts@.take(j as int), t)),
                forall|i: int| 0 <= i < r@.len() ==> (#[trigger] r@[i]).1 == tally(pre, r@[i].0@, per_document)
                    + if counted(counts@.take(j as int), r@[i].0@) { doc_weight(doc, r@[i].0@, per_document) } else { 0nat },
            decreases counts.len() - j,
        {
            let ghost taken = counts@.take(j as int);
            let ghost term = counts@[j as int].0@;
            let ghost f = |u: Seq<char>| tally(pre, u, per_document) + if counted(taken, u) { doc_weight(doc, u, per_document) } else { 0nat };
            let by: usize = if per_document { 1 } else { counts[j].1 };
            proof {
                assert(counted(counts@, term));
                assert(!counted(taken, term)) by {
                    if counted(taken, term) {
                        let a = choose|a: int| 0 <= a < taken.len() && (#[trigger] taken[a]).0@ == term;
                        assert(counts@[a].0@ == counts@[j as int].0@);
                    }
                }
                lemma_corpus_bounds(pre, term);
                lemma_corpus_bounds(dv.take(d + 1), term);
                lemma_occurrences_bound(doc, term);
                assert(counts@[j as int].1 == occurrences(doc, term));
                assert(doc.contains(term));
                assert(by == doc_weight(doc, term, per_document));
                assert(tally(dv.take(d + 1), term, per_document) == tally(pre, term, per_document) + doc_weight(doc, term, per_document));
                assert forall|u: Seq<char>| !counted(r@, u) implies f(u) == 0 by {
                    if !in_corpus(pre, u) {
                        lemma_absent_corpus(pre, u);
                    }
                }
            }
            let ghost rb = r@;
            bump(&mut r, &counts[j].0, by, Ghost(f));
            proof {
                let nt = counts@.take(j + 1);
                assert(nt =~= taken.push(counts@[j as int]));
                assert forall|u: Seq<char>| #[trigger] counted(nt, u) <==> (counted(taken, u) || u == term) by {
                    if counted(nt, u) {
                        let a = choose|a: int| 0 <= a < nt.len() && (#[trigger] nt[a]).0@ == u;
                        if a < j {
                            assert(taken[a].0@ == u);
                        }
                    }
                    if counted(taken, u) {
                        let a = choose|a: int| 0 <= a < taken.len() && (#[trigger] taken[a]).0@ == u;
                        assert(nt[a].0@ == u);
                    }
                    if u == term {
                        assert(nt[j as int].0@ == u);
                    }
                }
                assert forall|t: Seq<char>| counted(r@, t) <==> (in_corpus(pre, t) || counted(nt, t)) by {
                    if counted(rb, t) {
                        assert(counted(r@, t));
                    }
                }
            }
            j = j + 1;
        }
        proof {
            let nxt = dv.take(d + 1);
            assert(counts@.take(counts.len() as int) =~= counts@);
            assert forall|t: Seq<char>| #[trigger] in_corpus(nxt, t) <==> (in_corpus(pre, t) || doc.contains(t)) by {
                if in_corpus(nxt, t) {
                    let a = choose|a: int| 0 <= a < nxt.len() && (#[trigger] nxt[a]).contains(t);
                    if a < d {
                        assert(pre[a] == nxt[a]);
                    }
                }
                if in_corpus(pre, t) {
                    let a = choose|a: int| 0 <= a < pre.len() && (#[trigger] pre[a]).contains(t);
                    assert(nxt[a] == pre[a]);
                }
                if doc.contains(t) {
                    assert(nxt[d as int] == doc);
                }
            }
            assert forall|t: Seq<char>| counted(r@, t) <==> in_corpus(nxt, t) by {
                assert(j == counts.len());
                assert(counted(r@, t) <==> (in_corpus(pre, t) || counted(counts@.take(j as int), t)));
                assert(counted(counts@.take(counts.len() as int), t) == counted(counts@, t));
                assert(counted(counts@, t) <==> doc.contains(t));
                assert(in_corpus(nxt, t) <==> (in_corpus(pre, t) || doc.contains(t)));
            }
            assert forall|i: int| 0 <= i < r@.len() implies (#[trigger] r@[i]).1 == tally(nxt, r@[i].0@, per_document) by {
                let u = r@[i].0@;
                lemma_occurrences_bound(doc, u);
                if !counted(counts@, u) {
                    assert(!doc.contains(u));
                }
            }
        }
        d = d + 1;
    }
    assert(dv.take(docs.len() as int) =~= dv);
    r
}

/// A term in none of the documents is counted nowhere.
proof fn lemma_absent_corpus(docs: Seq<Seq<Seq<char>>>, t: Seq<char>)
    requires
        !in_corpus(docs, t),
    ensures
        corpus_occurrences(docs, t) == 0,
        document_frequency(docs, t) == 0,
    decreases docs.len(),
{
    if docs.len() > 0 {
        assert(!in_corpus(docs.drop_last(), t)) by {
            if in_corpus(docs.drop_last(), t) {
                let a = choose|a: int| 0 <= a < docs.len() - 1 && (#[trigger] docs.drop_last()[a]).contains(t);
                assert(docs[a] == docs.drop_last()[a]);
            }
        }
        lemma_absent_corpus(docs.drop_last(), t);
        assert(!docs.last().contains(t)) by {
            assert(docs[docs.len() - 1] == docs.last());
        }
        lemma_occurrences_bound(docs.last(), t);
    }
}

/// A name with underscores and hyphens turned into spaces.
pub open spec fn spaced(name: Seq<char>) -> Seq<char> {
    name.map_values(|c: char| if c == '_' || c == '-' { ' ' } else { c })
}

/// The text a tool is searched by: its name with underscores and hyphens
/// as spaces, its qualified name and its description (empty when it has
/// none), separated by spaces.
pub open spec fn spec_search_document(original: Seq<char>, qualified: Seq<char>, description: Option<Seq<char>>) -> Seq<char> {
    spaced(original) + seq![' '] + qualified + seq![' '] + match description {
        Some(d) => d,
        None => Seq::empty(),
    }
}

/// The text a tool is searched by.
pub fn search_document(entry: &ToolEntry) -> (r: String)
    ensures
        r@ == spec_search_document(entry.original_name@, entry.qualified_name@, match entry.description {
            Some(d) => Some(d@),
            None => None,
        }),
{
    let name = to_chars(entry.original_name.as_str());
    let mut out: Vec<char> = Vec::new();
    let mut i: usize = 0;
    while i < name.len()
        invariant
            i <= name.len(),
            out@ =~= spaced(name@).take(i as int),
        decreases name.len() - i,
    {
        let c = name[i];
        if c == '_' || c == '-' {
            out.push(' ');
        } else {
            out.push(c);
        }
        i = i + 1;
    }
    assert(spaced(name@).take(name.len() as int) =~= spaced(name@));
    out.push(' ');
    let q = to_chars(entry.qualified_name.as_str());
    out.append(&mut q.clone());
    out.push(' ');
    match &entry.description {
        Some(d) => {
            let dv = to_chars(d.as_str());
            out.append(&mut dv.clone());
        },
        None => {},
    }
    from_chars(&out)
}

} // verus!

//! Keyword relevance of chunks: how many of the session's query terms a
//! chunk contains. The score of a chunk is that number over the number of
//! terms (one half when there are none); chunks are ordered by the number
//! itself, which orders them as the score does.
use vstd::prelude::*;
use crate::chunker::Chunk;
use crate::text::{contains_str, has_substring, lowercase, to_lowercase};

verus! {

/// Whether `term` occurs in the lower-case form of `text`.
pub open spec fn term_found(text: Seq<char>, term: Seq<char>) -> bool {
    has_substring(lowercase(text), term)
}

/// How many of `terms` occur in the lower-case form of `text`.
pub open spec fn found_count(text: Seq<char>, terms: Seq<Seq<char>>) -> nat
    decreases terms.len(),
{
    if terms.len() == 0 {
        0
    } else {
        found_count(text, terms.drop_last()) + if term_found(text, terms.last()) { 1nat } else { 0nat }
    }
}

/// The views of a list of strings.
pub open spec fn term_views(v: Seq<String>) -> Seq<Seq<char>> {
    v.map_values(|s: String| s@)
}

proof fn lemma_found_bound(text: Seq<char>, terms: Seq<Seq<char>>)
    ensures
        found_count(text, terms) <= terms.len(),
    decreases terms.len(),
{
    if terms.len() > 0 {
        lemma_found_bound(text, terms.drop_last());
    }
}

/// Scores chunks against query terms by keyword overlap.
pub struct RelevanceScorer;

impl RelevanceScorer {
    /// The keyword overlap of `text` with the query terms: how many terms
    /// occur in the lower-cased text, and how many terms there are. The
    /// score is the first over the second, one half when there are no terms.
    pub fn score_text(text: &str, query_terms: &Vec<String>) -> (r: (usize, usize))
        ensures
            r.0 == found_count(text@, term_views(query_terms@)),
            r.1 == query_terms.len(),
    {
        let lower = to_lowercase(text);
        let ghost tv = term_views(query_terms@);
        let mut found: usize = 0;
        let mut i: usize = 0;
        while i < query_terms.len()
            invariant
                tv == term_views(query_terms@),
                lower@ == lowercase(text@),
                i <= query_terms.len(),
                found == found_count(text@, tv.take(i as int)),
                found <= i,
            decreases query_terms.len() - i,
        {
            proof {
                assert(tv.take(i + 1).drop_last() =~= tv.take(i as int));
                assert(tv.take(i + 1).last() == query_terms@[i as int]@);
            }
            if contains_str(lower.as_str(), query_terms[i].as_str()) {
                found = found + 1;
            }
            i = i + 1;
        }
        assert(tv.take(query_terms.len() as int) =~= tv);
        (found, query_terms.len())
    }

    /// Sets each chunk's relevance key to the number of query terms it
    /// contains; texts and positions are kept.
    pub fn score_chunks(chunks: &mut Vec<Chunk>, query_terms: &Vec<String>)
        ensures
            final(chunks).len() == old(chunks).len(),
            forall|i: int| 0 <= i < final(chunks).len() ==> (#[trigger] final(chunks)@[i]).text == old(chunks)@[i].text
                && final(chunks)@[i].index == old(chunks)@[i].index
                && final(chunks)@[i].score == found_count(old(chunks)@[i].text@, term_views(query_terms@)),
    {
        let ghost before = chunks@;
        let mut i: usize = 0;
        while i < chunks.len()
            invariant
                i <= chunks.len(),
                chunks.len() == before.len(),
                forall|j: int| 0 <= j < chunks.len() ==> (#[trigger] chunks@[j]).text == before[j].text
                    && chunks@[j].index == before[j].index,
                forall|j: int| 0 <= j < i ==> (#[trigger] chunks@[j]).score == found_count(before[j].text@, term_views(query_terms@)),
            decreases chunks.len() - i,
        {
            let (found, _) = Self::score_text(chunks[i].text.as_str(), query_terms);
            proof {
                lemma_found_bound(chunks@[i as int].text@, term_views(query_terms@));
            }
            let c = chunks.remove(i);
            chunks.insert(i, Chunk { text: c.text, index: c.index, score: found as u64 });
            i = i + 1;
        }
    }
}

} // verus!

//! Recording delivered chunks and charging the session's token budget.
use vstd::prelude::*;
use vstd::string::*;
use vstd::utf8::*;
use crate::chunker::Chunk;
use crate::dedup::{DedupFilter, DeliveryLog, log_insert, sha256, lemma_inserted_is_contained};

verus! {

/// Logs delivered chunks and updates token budgets.
pub struct DeliveryLogger;

/// The log after recording the hashes of `texts` one after the other.
pub open spec fn log_all(log: Seq<Seq<u8>>, capacity: nat, texts: Seq<Seq<char>>) -> Seq<Seq<u8>>
    decreases texts.len(),
{
    if texts.len() == 0 {
        log
    } else {
        log_insert(log_all(log, capacity, texts.drop_last()), capacity, sha256(encode_utf8(texts.last())))
    }
}

/// After recording chunks into a log with room for at least one hash, the
/// last one's text counts as already delivered.
pub proof fn lemma_last_recorded_is_duplicate(log: Seq<Seq<u8>>, capacity: nat, texts: Seq<Seq<char>>)
    requires
        capacity > 0,
        texts.len() > 0,
    ensures
        log_all(log, capacity, texts).contains(sha256(encode_utf8(texts.last()))),
{
    lemma_inserted_is_contained(log_all(log, capacity, texts.drop_last()), capacity, sha256(encode_utf8(texts.last())));
}

impl DeliveryLogger {
    /// Records the hash of every delivered chunk in the session's log, in
    /// order.
    pub fn record(chunks: &[Chunk], log: &mut DeliveryLog)
        ensures
            final(log).hashes() == log_all(old(log).hashes(), old(log).cap(), chunks@.map_values(|c: Chunk| c.text@)),
            final(log).cap() == old(log).cap(),
            final(log).wf(),
    {
        proof {
            use_type_invariant(&*log);
        }
        let ghost texts = chunks@.map_values(|c: Chunk| c.text@);
        let mut i: usize = 0;
        assert(texts.take(0) =~= Seq::<Seq<char>>::empty());
        while i < chunks.len()
            invariant
                i <= chunks.len(),
                texts == chunks@.map_values(|c: Chunk| c.text@),
                log.hashes() == log_all(old(log).hashes(), old(log).cap(), texts.take(i as int)),
                log.cap() == old(log).cap(),
                log.wf(),
            decreases chunks.len() - i,
        {
            let hash = DedupFilter::hash_text(chunks[i].text.as_str());
            log.insert(hash);
            assert(texts.take(i + 1).drop_last() =~= texts.take(i as int));
            i = i + 1;
        }
        assert(texts.take(i as int) =~= texts);
    }

    /// Charges `tokens_delivered` to the remaining budget, stopping at 0;
    /// returns the new remaining budget.
    pub fn update_budget(tokens_delivered: usize, budget_remaining: &mut usize) -> (r: usize)
        ensures
            *final(budget_remaining) == if *old(budget_remaining) >= tokens_delivered {
                *old(budget_remaining) - tokens_delivered
            } else {
                0
            },
            r == *final(budget_remaining),
    {
        *budget_remaining = budget_remaining.saturating_sub(tokens_delivered);
        *budget_remaining
    }
}

} // verus!

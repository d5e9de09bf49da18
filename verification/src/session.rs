//! Per-session state that the hub keeps: rate limiting, cached chunks and
//! the records it lists.
use vstd::prelude::*;
use vstd::string::*;
use vstd::utf8::*;
use std::time::Instant;
use crate::assoc::{assoc_map, without_key, lemma_assoc_push, lemma_assoc_last, lemma_assoc_absent, lemma_assoc_without, lemma_without_step, lemma_without_has_no_key};
use crate::chunker::{Chunk, ChunkView};
use crate::clock::{instant_now, elapsed_nanos, at_least_secs, secs_in_nanos};
use crate::text::str_eq;

verus! {

/// A root resource of a session.
#[derive(Debug, Clone)]
pub struct Root {
    /// URI of the root.
    pub uri: String,
    /// Optional name of the root.
    pub name: Option<String>,
}

/// A session as session listings show it.
#[derive(Debug, Clone)]
pub struct SessionSummary {
    /// Session id.
    pub id: String,
    /// When the session was created.
    pub created_at: String,
    /// Last activity.
    pub last_active: String,
    /// Number of tool calls made.
    pub tool_call_count: usize,
    /// Remaining token budget.
    pub budget_remaining: usize,
}

/// One request against a bucket with `left` of `limit` tokens, given
/// whether a minute has passed (the bucket is then refilled first): whether
/// it is admitted, and the tokens left after it.
pub open spec fn rate_step(left: nat, limit: nat, minute_passed: bool) -> (bool, nat) {
    let before = if minute_passed { limit } else { left };
    if before > 0 { (true, (before - 1) as nat) } else { (false, 0) }
}

/// How many of a sequence of requests are admitted, each given whether a
/// minute has passed before it, starting with `left` of `limit` tokens.
pub open spec fn admitted(left: nat, limit: nat, minutes: Seq<bool>) -> nat
    decreases minutes.len(),
{
    if minutes.len() == 0 {
        0
    } else {
        let (a, rest) = rate_step(left, limit, minutes[0]);
        (if a { 1nat } else { 0 }) + admitted(rest, limit, minutes.drop_first())
    }
}

/// Law: within one minute (no refill between requests), of `n` requests
/// exactly as many are admitted as the bucket has tokens left, at most `n`;
/// so no more than `limit` requests get through between two refills.
pub proof fn lemma_requests_within_a_minute(left: nat, limit: nat, n: nat)
    requires
        left <= limit,
    ensures
        admitted(left, limit, Seq::new(n, |i: int| false)) == if n < left { n } else { left },
        admitted(left, limit, Seq::new(n, |i: int| false)) <= limit,
    decreases n,
{
    let ms = Seq::new(n, |i: int| false);
    if n > 0 {
        assert(ms.drop_first() =~= Seq::new((n - 1) as nat, |i: int| false));
        if left > 0 {
            lemma_requests_within_a_minute((left - 1) as nat, limit, (n - 1) as nat);
        } else {
            lemma_requests_within_a_minute(0, limit, (n - 1) as nat);
        }
    }
}

/// Per-minute request limit of a session: a bucket of `per_minute` tokens,
/// refilled when a minute has passed since the last refill.
pub struct RateLimiter {
    remaining: u32,
    per_minute: u32,
    last_refill: Instant,
    /// The time since the last refill, in nanoseconds, as the clock gave it
    /// at the last `check`.
    elapsed_seen: Ghost<u128>,
}

impl RateLimiter {
    /// Requests left in the current minute.
    pub closed spec fn left(&self) -> u32 {
        self.remaining
    }

    /// Requests allowed per minute.
    pub closed spec fn limit(&self) -> u32 {
        self.per_minute
    }

    /// When the current window began: the instant of the last refill.
    pub closed spec fn window_start(&self) -> Instant {
        self.last_refill
    }

    /// The time since the last refill, in nanoseconds, that the last `check`
    /// read from the clock.
    pub closed spec fn last_elapsed(&self) -> u128 {
        self.elapsed_seen@
    }

    /// A bucket never holds more than its limit.
    #[verifier::type_invariant]
    closed spec fn bucket_inv(&self) -> bool {
        self.remaining <= self.per_minute
    }

    /// Whether the bucket holds no more than its limit; every limiter does.
    pub open spec fn wf(&self) -> bool {
        self.left() <= self.limit()
    }

    /// A full bucket, refilled now.
    pub fn new(per_minute: u32) -> (r: RateLimiter)
        ensures
            r.left() == per_minute,
            r.limit() == per_minute,
    {
        RateLimiter { remaining: per_minute, per_minute, last_refill: instant_now(), elapsed_seen: Ghost(0) }
    }

    /// Requests left in the current minute.
    pub fn remaining(&self) -> (n: u32)
        ensures
            n == self.left(),
    {
        self.remaining
    }

    /// Admits or refuses one request, given whether a minute has passed
    /// since the last refill (`now` becomes the refill time if so): the
    /// bucket is refilled first, then a request is admitted while tokens
    /// are left, taking one.
    pub fn check_at(&mut self, minute_passed: bool, now: Instant) -> (allowed: bool)
        ensures
            final(self).limit() == old(self).limit(),
            (allowed, final(self).left() as nat) == rate_step(old(self).left() as nat, old(self).limit() as nat, minute_passed),
            final(self).window_start() == if minute_passed { now } else { old(self).window_start() },
            final(self).last_elapsed() == old(self).last_elapsed(),
            old(self).wf(),
            final(self).wf(),
    {
        proof {
            use_type_invariant(&*self);
        }
        if minute_passed {
            self.remaining = self.per_minute;
            self.last_refill = now;
        }
        if self.remaining > 0 {
            self.remaining = self.remaining - 1;
            true
        } else {
            false
        }
    }

    /// Seconds a refused client is told to wait now: what is left of the
    /// minute since the last refill (see `retry_after_secs`), read from the
    /// clock.
    pub fn retry_after(&self) -> (s: u32)
        ensures
            1 <= s <= 60,
    {
        let secs = elapsed_nanos(&self.last_refill) / 1_000_000_000;
        let whole: u64 = if secs > 0xffff_ffff_ffff_ffffu128 { 0xffff_ffff_ffff_ffffu64 } else { secs as u64 };
        retry_after_secs(whole)
    }

    /// Admits or refuses one request now. The time since the last refill is
    /// read from the clock (and kept as `last_elapsed`); the window has
    /// ended when it is at least 60 seconds, and the step is `check_at`'s:
    /// the bucket is refilled then, a request is admitted whenever tokens
    /// are left, and the window start is kept unless the bucket was
    /// refilled (it then becomes the instant read now).
    pub fn check(&mut self) -> (allowed: bool)
        ensures
            final(self).limit() == old(self).limit(),
            ({
                let passed = final(self).last_elapsed() >= secs_in_nanos(60);
                &&& (allowed, final(self).left() as nat) == rate_step(old(self).left() as nat, old(self).limit() as nat, passed)
                &&& !passed ==> final(self).window_start() == old(self).window_start()
                &&& passed ==> final(self).left() + (if allowed { 1int } else { 0int }) == final(self).limit()
            }),
            exists|m: bool|
                #![trigger rate_step(old(self).left() as nat, old(self).limit() as nat, m)]
                (allowed, final(self).left() as nat) == rate_step(old(self).left() as nat, old(self).limit() as nat, m)
                    && (!m ==> final(self).window_start() == old(self).window_start()),
            old(self).left() > 0 ==> allowed,
            old(self).wf(),
            final(self).wf(),
    {
        proof {
            use_type_invariant(&*self);
        }
        let now = instant_now();
        let nanos = elapsed_nanos(&self.last_refill);
        let minute_passed = at_least_secs(nanos, 60);
        let allowed = self.check_at(minute_passed, now);
        self.elapsed_seen = Ghost(nanos);
        assert((allowed, self.left() as nat) == rate_step(old(self).left() as nat, old(self).limit() as nat, minute_passed));
        allowed
    }
}

/// Seconds a refused client is told to wait: what is left of the minute,
/// at least 1.
pub open spec fn spec_retry_after(elapsed_secs: u64) -> u32 {
    let left = 60 - elapsed_secs;
    if left < 1 { 1 } else if left > 60 { 60 } else { left as u32 }
}

/// Seconds a refused client is told to wait, `elapsed_secs` after the last
/// refill: what is left of the minute, between 1 and 60.
pub fn retry_after_secs(elapsed_secs: u64) -> (s: u32)
    ensures
        s == spec_retry_after(elapsed_secs),
        1 <= s <= 60,
{
    if elapsed_secs >= 59 {
        1
    } else {
        (60 - elapsed_secs) as u32
    }
}

/// Most cached chunk lists a session keeps.
pub const MAX_CACHED_RESPONSES: usize = 50;

/// Most bytes of chunk text a session keeps cached (10 MiB).
pub const MAX_CACHED_BYTES: usize = 10485760;

/// The bytes of text in a list of chunks.
pub open spec fn chunks_bytes(cs: Seq<ChunkView>) -> nat
    decreases cs.len(),
{
    if cs.len() == 0 {
        0
    } else {
        encode_utf8(cs[0].text).len() + chunks_bytes(cs.drop_first())
    }
}

/// The bytes of chunk text in cached entries.
pub open spec fn cache_bytes(p: Seq<(Seq<char>, Seq<ChunkView>)>) -> nat
    decreases p.len(),
{
    if p.len() == 0 {
        0
    } else {
        chunks_bytes(p[0].1) + cache_bytes(p.drop_first())
    }
}

/// The entries after dropping the oldest ones, one at a time, while their
/// text is over the byte limit; the newest entry always stays.
pub open spec fn evict_to_fit(p: Seq<(Seq<char>, Seq<ChunkView>)>) -> Seq<(Seq<char>, Seq<ChunkView>)>
    decreases p.len(),
{
    if p.len() > 1 && cache_bytes(p) > MAX_CACHED_BYTES {
        evict_to_fit(p.drop_first())
    } else {
        p
    }
}

/// `x`, or `usize::MAX` when `x` is larger.
pub open spec fn capped(x: nat) -> nat {
    if x > usize::MAX { usize::MAX as nat } else { x }
}

/// Evicting to fit keeps the newest entry and, when that entry alone fits,
/// brings the entries within the byte limit.
pub proof fn lemma_evict_to_fit(p: Seq<(Seq<char>, Seq<ChunkView>)>)
    requires
        p.len() > 0,
        chunks_bytes(p.last().1) <= MAX_CACHED_BYTES,
    ensures
        evict_to_fit(p).len() > 0,
        evict_to_fit(p).len() <= p.len(),
        evict_to_fit(p).last() == p.last(),
        cache_bytes(evict_to_fit(p)) <= MAX_CACHED_BYTES,
        evict_to_fit(p) =~= p.skip(p.len() - evict_to_fit(p).len()),
    decreases p.len(),
{
    if p.len() == 1 {
        assert(p.drop_first().len() == 0);
        assert(cache_bytes(p.drop_first()) == 0);
        assert(p.last() == p[0]);
        assert(cache_bytes(p) == chunks_bytes(p[0].1));
    } else if cache_bytes(p) > MAX_CACHED_BYTES {
        assert(p.drop_first().last() == p.last());
        lemma_evict_to_fit(p.drop_first());
        let r = evict_to_fit(p.drop_first());
        assert(p.drop_first().skip(p.drop_first().len() - r.len()) =~= p.skip(p.len() - r.len()));
    }
}

/// The text bytes of the chunks, capped at `usize::MAX`.
fn chunks_size(cs: &Vec<Chunk>) -> (r: usize)
    ensures
        r == capped(chunks_bytes(cs@.map_values(|c: Chunk| c@))),
{
    let ghost v = cs@.map_values(|c: Chunk| c@);
    let mut i: usize = cs.len();
    let mut total: usize = 0;
    assert(v.skip(i as int) =~= Seq::<ChunkView>::empty());
    while i > 0
        invariant
            i <= cs.len(),
            v == cs@.map_values(|c: Chunk| c@),
            total == capped(chunks_bytes(v.skip(i as int))),
        decreases i,
    {
        let n = cs[i - 1].text.as_str().as_bytes().len();
        assert(v.skip(i - 1).drop_first() =~= v.skip(i as int));
        assert(v.skip(i - 1)[0] == cs[i - 1]@);
        total = if total > usize::MAX - n { usize::MAX } else { total + n };
        i = i - 1;
    }
    assert(v.skip(0) =~= v);
    total
}

/// The text bytes of the entries, capped at `usize::MAX`.
fn entries_size(es: &Vec<(String, Vec<Chunk>)>) -> (r: usize)
    ensures
        r == capped(cache_bytes(es@.map_values(|e: (String, Vec<Chunk>)| cache_pair(e)))),
{
    let ghost v = es@.map_values(|e: (String, Vec<Chunk>)| cache_pair(e));
    let mut i: usize = es.len();
    let mut total: usize = 0;
    assert(v.skip(i as int) =~= Seq::<(Seq<char>, Seq<ChunkView>)>::empty());
    while i > 0
        invariant
            i <= es.len(),
            v == es@.map_values(|e: (String, Vec<Chunk>)| cache_pair(e)),
            total == capped(cache_bytes(v.skip(i as int))),
        decreases i,
    {
        let n = chunks_size(&es[i - 1].1);
        assert(v.skip(i - 1).drop_first() =~= v.skip(i as int));
        assert(v.skip(i - 1)[0] == cache_pair(es[i - 1]));
        total = if total > usize::MAX - n { usize::MAX } else { total + n };
        i = i - 1;
    }
    assert(v.skip(0) =~= v);
    total
}

/// No two entries have the same key.
pub open spec fn keys_distinct(p: Seq<(Seq<char>, Seq<ChunkView>)>) -> bool {
    forall|i: int, j: int| 0 <= i < j < p.len() ==> p[i].0 != p[j].0
}

/// The entries after storing `cv` under `id`: the earlier entry for `id`
/// goes; when the rest still fills the cache, the entry stored longest ago
/// goes too; the new entry comes last.
pub open spec fn put_pairs(p: Seq<(Seq<char>, Seq<ChunkView>)>, id: Seq<char>, cv: Seq<ChunkView>) -> Seq<(Seq<char>, Seq<ChunkView>)> {
    let rest = without_key(p, id);
    let kept = if rest.len() >= MAX_CACHED_RESPONSES { rest.drop_first() } else { rest };
    kept.push((id, cv))
}

/// The entries after storing `cv` under `id` (see `ChunkCache::store`).
pub open spec fn spec_store(p: Seq<(Seq<char>, Seq<ChunkView>)>, id: Seq<char>, cv: Seq<ChunkView>) -> Seq<(Seq<char>, Seq<ChunkView>)> {
    if chunks_bytes(cv) > MAX_CACHED_BYTES { p } else { evict_to_fit(put_pairs(p, id, cv)) }
}

/// The entries after storing each of `reqs` (request id, chunks) in turn.
pub open spec fn store_all(p: Seq<(Seq<char>, Seq<ChunkView>)>, reqs: Seq<(Seq<char>, Seq<ChunkView>)>) -> Seq<(Seq<char>, Seq<ChunkView>)>
    decreases reqs.len(),
{
    if reqs.len() == 0 {
        p
    } else {
        spec_store(store_all(p, reqs.drop_last()), reqs.last().0, reqs.last().1)
    }
}

/// Law: whatever sequence of requests is stored, a cache that starts within
/// its limits (at most `MAX_CACHED_RESPONSES` entries, at most
/// `MAX_CACHED_BYTES` of text, one entry per request id) stays within them.
pub proof fn lemma_store_all_bounded(p: Seq<(Seq<char>, Seq<ChunkView>)>, reqs: Seq<(Seq<char>, Seq<ChunkView>)>)
    requires
        p.len() <= MAX_CACHED_RESPONSES,
        cache_bytes(p) <= MAX_CACHED_BYTES,
        keys_distinct(p),
    ensures
        store_all(p, reqs).len() <= MAX_CACHED_RESPONSES,
        cache_bytes(store_all(p, reqs)) <= MAX_CACHED_BYTES,
        keys_distinct(store_all(p, reqs)),
    decreases reqs.len(),
{
    if reqs.len() > 0 {
        lemma_store_all_bounded(p, reqs.drop_last());
        let q = store_all(p, reqs.drop_last());
        let (id, cv) = reqs.last();
        if chunks_bytes(cv) <= MAX_CACHED_BYTES {
            lemma_put_pairs(q, id, cv);
            let p2 = put_pairs(q, id, cv);
            lemma_evict_to_fit(p2);
            let r = evict_to_fit(p2);
            assert forall|i: int, j: int| 0 <= i < j < r.len() implies r[i].0 != r[j].0 by {
                let k = p2.len() - r.len();
                assert(r[i] == p2[i + k] && r[j] == p2[j + k]);
            }
        }
    }
}

/// Every entry that survives dropping a key was there before.
proof fn lemma_without_key_from(p: Seq<(Seq<char>, Seq<ChunkView>)>, id: Seq<char>)
    ensures
        forall|j: int| 0 <= j < without_key(p, id).len() ==> p.contains(#[trigger] without_key(p, id)[j]),
        keys_distinct(p) ==> keys_distinct(without_key(p, id)),
    decreases p.len(),
{
    if p.len() > 0 {
        let d = p.drop_last();
        lemma_without_key_from(d, id);
        let w = without_key(d, id);
        assert forall|j: int| 0 <= j < without_key(p, id).len() implies p.contains(#[trigger] without_key(p, id)[j]) by {
            if j < w.len() {
                assert(d.contains(w[j]));
                let t = choose|t: int| 0 <= t < d.len() && d[t] == w[j];
                assert(p[t] == d[t]);
            } else {
                assert(p[p.len() - 1] == p.last());
            }
        }
        if keys_distinct(p) && p.last().0 != id {
            assert forall|i: int, j: int| 0 <= i < j < without_key(p, id).len()
                implies without_key(p, id)[i].0 != without_key(p, id)[j].0 by {
                if j == w.len() {
                    assert(d.contains(w[i]));
                    let t = choose|t: int| 0 <= t < d.len() && d[t] == w[i];
                    assert(p[t] == d[t]);
                    assert(p[p.len() - 1] == p.last());
                }
            }
        }
    }
}

/// Storing keeps the cache within the entry limit and its keys distinct,
/// and puts the new entry last.
proof fn lemma_put_pairs(p: Seq<(Seq<char>, Seq<ChunkView>)>, id: Seq<char>, cv: Seq<ChunkView>)
    ensures
        put_pairs(p, id, cv).last() == (id, cv),
        p.len() <= MAX_CACHED_RESPONSES ==> put_pairs(p, id, cv).len() <= MAX_CACHED_RESPONSES,
        keys_distinct(p) ==> keys_distinct(put_pairs(p, id, cv)),
        assoc_map(put_pairs(p, id, cv)).contains_key(id),
        assoc_map(put_pairs(p, id, cv))[id] == cv,
{
    lemma_without_has_no_key(p, id);
    lemma_without_key_from(p, id);
    let rest = without_key(p, id);
    let kept = if rest.len() >= MAX_CACHED_RESPONSES { rest.drop_first() } else { rest };
    assert forall|j: int| 0 <= j < kept.len() implies kept[j].0 != id by {
        if rest.len() >= MAX_CACHED_RESPONSES {
            assert(kept[j] == rest[j + 1]);
        }
    }
    if keys_distinct(p) {
        assert forall|i: int, j: int| 0 <= i < j < kept.len() implies kept[i].0 != kept[j].0 by {
            if rest.len() >= MAX_CACHED_RESPONSES {
                assert(kept[i] == rest[i + 1] && kept[j] == rest[j + 1]);
            }
        }
    }
    lemma_assoc_push(kept, id, cv);
}

/// The abstract value of a list of cached entries.
pub open spec fn entries_view(v: &Vec<(String, Vec<Chunk>)>) -> Seq<(Seq<char>, Seq<ChunkView>)> {
    v@.map_values(|e: (String, Vec<Chunk>)| cache_pair(e))
}

/// The entries without the one for `id`.
fn without_entry(entries: Vec<(String, Vec<Chunk>)>, id: &String) -> (kept: Vec<(String, Vec<Chunk>)>)
    ensures
        entries_view(&kept) == without_key(entries_view(&entries), id@),
{
    let ghost s = entries_view(&entries);
    let ghost k = id@;
    let mut kept: Vec<(String, Vec<Chunk>)> = Vec::new();
    let ghost orig = entries@;
    assert(orig.len() == entries.len());
    let mut rest = entries;
    let mut i: usize = 0;
    assert(s.take(0) =~= Seq::<(Seq<char>, Seq<ChunkView>)>::empty());
    assert(entries_view(&kept) =~= Seq::<(Seq<char>, Seq<ChunkView>)>::empty());
    assert(orig.skip(0) =~= orig);
    while rest.len() > 0
        invariant
            k == id@,
            s == orig.map_values(|e: (String, Vec<Chunk>)| cache_pair(e)),
            i <= orig.len(),
            i + rest.len() == orig.len(),
            orig.len() <= usize::MAX,
            rest@ == orig.skip(i as int),
            entries_view(&kept) == without_key(s.take(i as int), k),
        decreases rest.len(),
    {
        let e = rest.remove(0);
        proof {
            lemma_without_step(s, k, i as int);
            assert(e == orig[i as int]);
            assert(cache_pair(e) == s[i as int]);
            assert(rest@ =~= orig.skip(i + 1));
        }
        if e.0 != *id {
            let ghost before = kept@;
            kept.push(e);
            assert(entries_view(&kept) =~= before.map_values(|e: (String, Vec<Chunk>)| cache_pair(e)).push(s[i as int]));
        }
        i = i + 1;
    }
    assert(s.take(i as int) =~= s);
    kept
}

/// The chunks that filtering dropped, kept per request id so that they can
/// be fetched later; the oldest stored request makes room when full.
pub struct ChunkCache {
    entries: Vec<(String, Vec<Chunk>)>,
}

/// The abstract value of a cached entry.
pub open spec fn cache_pair(e: (String, Vec<Chunk>)) -> (Seq<char>, Seq<ChunkView>) {
    (e.0@, e.1@.map_values(|c: Chunk| c@))
}

impl ChunkCache {
    /// The cached entries, one per request id, oldest stored first.
    pub closed spec fn pairs(&self) -> Seq<(Seq<char>, Seq<ChunkView>)> {
        self.entries@.map_values(|e: (String, Vec<Chunk>)| cache_pair(e))
    }

    /// Request id to cached chunks.
    pub open spec fn cached(&self) -> Map<Seq<char>, Seq<ChunkView>> {
        assoc_map(self.pairs())
    }

    /// No request id has two entries, and the cache is within its limits:
    /// at most `MAX_CACHED_RESPONSES` entries and `MAX_CACHED_BYTES` of text.
    pub open spec fn wf(&self) -> bool {
        &&& keys_distinct(self.pairs())
        &&& self.pairs().len() <= MAX_CACHED_RESPONSES
        &&& cache_bytes(self.pairs()) <= MAX_CACHED_BYTES
    }

    /// Every cache keeps `wf`: `new` makes one that holds it and `store`
    /// keeps it.
    #[verifier::type_invariant]
    pub(crate) open spec fn cache_inv(&self) -> bool {
        self.wf()
    }

    /// An empty cache.
    pub fn new() -> (c: ChunkCache)
        ensures
            c.pairs() == Seq::<(Seq<char>, Seq<ChunkView>)>::empty(),
            c.wf(),
    {
        let c = ChunkCache { entries: Vec::new() };
        assert(c.pairs() =~= Seq::<(Seq<char>, Seq<ChunkView>)>::empty());
        c
    }

    /// Caches `chunks` under `request_id`: an earlier entry for that id goes
    /// first; when the cache still holds the maximum number of entries, the
    /// request stored longest ago is dropped; then, while the cached text is
    /// over `MAX_CACHED_BYTES`, the oldest entries go. Chunks whose text
    /// alone is over that limit are not cached, and the cache stays as it
    /// was. The cache never holds more than `MAX_CACHED_RESPONSES` entries
    /// or more than `MAX_CACHED_BYTES` of text.
    pub fn store(&mut self, request_id: String, chunks: Vec<Chunk>)
        ensures
            ({
                let cv = chunks@.map_values(|c: Chunk| c@);
                &&& final(self).pairs() == spec_store(old(self).pairs(), request_id@, cv)
                &&& chunks_bytes(cv) <= MAX_CACHED_BYTES ==> final(self).cached().contains_key(request_id@)
                    && final(self).cached()[request_id@] == cv
            }),
            final(self).wf(),
            old(self).wf(),
    {
        proof {
            use_type_invariant(&*self);
        }
        let ghost cv = chunks@.map_values(|c: Chunk| c@);
        let ghost p0 = self.pairs();
        if chunks_size(&chunks) > MAX_CACHED_BYTES {
            return;
        }
        let ghost rid = request_id@;
        let mut entries: Vec<(String, Vec<Chunk>)> = Vec::new();
        std::mem::swap(&mut entries, &mut self.entries);
        assert(entries_view(&entries) == p0);
        let mut entries = without_entry(entries, &request_id);
        let ghost p1 = entries_view(&entries);
        if entries.len() >= MAX_CACHED_RESPONSES {
            entries.remove(0);
            assert(entries_view(&entries) =~= p1.drop_first());
        }
        let ghost p15 = entries_view(&entries);
        entries.push((request_id, chunks));
        let ghost p2 = entries_view(&entries);
        assert(p2 =~= p15.push((rid, cv)));
        assert(p2 == put_pairs(p0, rid, cv));
        proof {
            lemma_put_pairs(p0, rid, cv);
            assert(p2.last() == (rid, cv));
            lemma_evict_to_fit(p2);
        }
        while entries.len() > 1 && entries_size(&entries) > MAX_CACHED_BYTES
            invariant
                evict_to_fit(entries_view(&entries)) == evict_to_fit(p2),
            decreases entries.len(),
        {
            let ghost before = entries_view(&entries);
            entries.remove(0);
            assert(entries_view(&entries) =~= before.drop_first());
        }
        proof {
            let r = evict_to_fit(p2);
            assert(entries_view(&entries) == r);
            assert(r.last() == (rid, cv));
            lemma_assoc_last(r, r.len() - 1);
            assert forall|i: int, j: int| 0 <= i < j < r.len() implies r[i].0 != r[j].0 by {
                let k = p2.len() - r.len();
                assert(r[i] == p2[i + k] && r[j] == p2[j + k]);
            }
        }
        self.entries = entries;
    }

    /// The number of cached entries.
    pub fn len(&self) -> (n: usize)
        ensures
            n == self.pairs().len(),
    {
        self.entries.len()
    }

    /// The chunks cached under `request_id`, if any.
    pub fn get_chunks(&self, request_id: &str) -> (r: Option<&Vec<Chunk>>)
        ensures
            match r {
                Some(v) => self.cached().contains_key(request_id@) && self.cached()[request_id@] == v@.map_values(|c: Chunk| c@),
                None => !self.cached().contains_key(request_id@),
            },
    {
        let ghost s = self.pairs();
        let mut i: usize = self.entries.len();
        while i > 0
            invariant
                i <= self.entries.len(),
                s == self.pairs(),
                s.len() == self.entries.len(),
                forall|j: int| i <= j < s.len() ==> s[j].0 != request_id@,
            decreases i,
        {
            let e = &self.entries[i - 1];
            assert(s[i - 1] == cache_pair(*e));
            if str_eq(e.0.as_str(), request_id) {
                proof {
                    lemma_assoc_last(s, i - 1);
                }
                return Some(&e.1);
            }
            i = i - 1;
        }
        proof {
            lemma_assoc_absent(s, request_id@);
        }
        None
    }
}

/// When the current rate-limit window ends, `now_secs` (seconds since the
/// epoch) being now: a minute from now.
pub fn rate_limit_reset_at(now_secs: u64) -> (r: u64)
    requires
        now_secs <= u64::MAX - 60,
    ensures
        r == now_secs + 60,
{
    now_secs + 60
}

} // verus!

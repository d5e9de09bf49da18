//! The filtering pipeline: what happens to a tool response between the
//! backend and the client.
use vstd::prelude::*;
use vstd::string::*;
use vstd::utf8::*;
use crate::budget::{BudgetEnforcer, spec_select, join_texts, lemma_select_document_order};
use crate::chunker::{Chunk, ChunkView, ChunkSplitter, spec_auto_strategy, spec_split};
use crate::config::FilterConfig;
use crate::content_type::ContentType;
use crate::json::{Json, JsonView, json_view, members_view, items_view, member_of, find_member};
use crate::textsplit::join_with;
use crate::dedup::{ChunkHash, DedupFilter, DeliveryLog, log_insert, sha256};
use crate::delivery_logger::{DeliveryLogger, log_all};
use crate::progressive::{ProgressiveDisclosureAnnotator, spec_hint};
use crate::relevance::{RelevanceScorer, found_count, term_views};
use crate::text::str_eq;
use crate::token_count::{count_tokens, spec_count_tokens};

verus! {

/// `"text"`.
pub open spec fn text_key() -> Seq<char> {
    seq!['t', 'e', 'x', 't']
}

/// The string `text` members of the objects among `items`, in order.
pub open spec fn text_members(items: Seq<JsonView>) -> Seq<Seq<char>>
    decreases items.len(),
{
    if items.len() == 0 {
        Seq::empty()
    } else {
        let rest = text_members(items.drop_last());
        match items.last() {
            JsonView::Object(ms) => match member_of(ms, text_key()) {
                Some(JsonView::Str(t)) => rest.push(t),
                _ => rest,
            },
            _ => rest,
        }
    }
}

/// The text of a content value, where it is read directly: a string is its
/// own text; an MCP content array gives the `text` of its items, one per
/// line. Other values are represented by their JSON serialization, which
/// is not made here.
pub open spec fn spec_extract_text(v: JsonView) -> Option<Seq<char>> {
    match v {
        JsonView::Str(s) => Some(s),
        JsonView::Array(items) => Some(join_with(text_members(items), seq!['\n'])),
        _ => None,
    }
}

/// The string `text` member of an object item, if it has one.
pub open spec fn item_text_spec(v: JsonView) -> Option<Seq<char>> {
    match v {
        JsonView::Object(ms) => match member_of(ms, text_key()) {
            Some(JsonView::Str(t)) => Some(t),
            _ => None,
        },
        _ => None,
    }
}

/// The string `text` member of an object item, if it has one.
fn item_text(item: &Json) -> (r: Option<&String>)
    ensures
        r.deep_view() == item_text_spec(json_view(*item)),
{
    match item {
        Json::Object(ms) => {
            assert(json_view(*item)->Object_0 =~= members_view(ms@));
            assert(json_view(*item) == JsonView::Object(members_view(ms@)));
            proof {
                reveal_strlit("text");
                assert("text"@ =~= text_key());
            }
            match find_member(ms, "text") {
                Some(j) => match j {
                    Json::Str(t) => {
                        assert(json_view(*j) == JsonView::Str(t@));
                        Some(t)
                    },
                    Json::Null => None,
                    Json::Bool(_) => None,
                    Json::Number(n) => {
                        assert(json_view(*j) == JsonView::Number(n@));
                        None
                    },
                    Json::Array(_) => {
                        assert(json_view(*j) is Array);
                        None
                    },
                    Json::Object(_) => {
                        assert(json_view(*j) is Object);
                        None
                    },
                },
                None => None,
            }
        },
        Json::Str(x) => {
            assert(json_view(*item) == JsonView::Str(x@));
            None
        },
        Json::Array(_) => {
            assert(json_view(*item) is Array);
            None
        },
        _ => None,
    }
}

/// The text of a string or an MCP content array (see `spec_extract_text`);
/// `None` for values whose text is their JSON serialization.
pub fn extract_text(content: &Json) -> (r: Option<String>)
    ensures
        r.deep_view() == spec_extract_text(json_view(*content)),
{
    match content {
        Json::Str(s) => {
            assert(json_view(*content) == JsonView::Str(s@));
            Some(s.clone())
        },
        Json::Array(items) => {
            let ghost iv = items_view(items@);
            assert(json_view(*content)->Array_0 =~= iv);
            assert(json_view(*content) == JsonView::Array(iv));
            let mut out = String::new();
            let mut count: usize = 0;
            let mut i: usize = 0;
            proof {
                reveal_strlit("\n");
                reveal_strlit("text");
                assert(iv.take(0) =~= Seq::<JsonView>::empty());
            }
            while i < items.len()
                invariant
                    iv == items_view(items@),
                    i <= items.len(),
                    count == text_members(iv.take(i as int)).len(),
                    count <= i,
                    out@ == join_with(text_members(iv.take(i as int)), seq!['\n']),
                decreases items.len() - i,
            {
                let ghost before = text_members(iv.take(i as int));
                assert(iv.take(i + 1).drop_last() =~= iv.take(i as int));
                assert(iv.take(i + 1).last() == json_view(items@[i as int]));
                assert(text_members(iv.take(i + 1)) == match item_text_spec(json_view(items@[i as int])) {
                    Some(t) => before.push(t),
                    None => before,
                });
                match item_text(&items[i]) {
                    Some(t) => {
                        if count > 0 {
                            out.append("\n");
                        }
                        out.append(t.as_str());
                        proof {
                            reveal_strlit("\n");
                            assert("\n"@ =~= seq!['\n']);
                            let after = before.push(t@);
                            assert(after.drop_last() =~= before);
                            assert(after.last() == t@);
                            if before.len() == 0 {
                                assert(after =~= seq![t@]);
                            }
                        }
                        count = count + 1;
                    },
                    None => {},
                }
                i = i + 1;
            }
            assert(iv.take(items.len() as int) =~= iv);
            Some(out)
        },
        _ => None,
    }
}

/// What the pipeline is told about one tool call. The session's delivery
/// log is handed to the pipeline's steps separately.
pub struct FilterContext {
    /// Session id.
    pub session_id: String,
    /// The tool that was called.
    pub tool_name: String,
    /// Token budget for this response.
    pub budget_tokens: usize,
    /// Query terms for relevance scoring.
    pub query_terms: Vec<String>,
    /// Responses up to this many tokens are delivered unfiltered.
    pub short_circuit_below_tokens: usize,
    /// Id under which dropped chunks can be fetched later.
    pub request_id: String,
}

/// What the pipeline delivers.
pub struct FilterResult {
    /// The content to deliver.
    pub content: String,
    /// Tokens received from the tool.
    pub tokens_received: usize,
    /// Tokens delivered.
    pub tokens_delivered: usize,
    /// Tokens saved by filtering.
    pub tokens_saved: usize,
    /// Chunks shown.
    pub chunks_shown: usize,
    /// Chunks there were.
    pub chunks_total: usize,
    /// Chunks dropped, kept for later retrieval.
    pub dropped_chunks: Vec<Chunk>,
}

/// The abstract value of a result: content, tokens received, delivered and
/// saved, chunks shown and in total, dropped chunks.
pub open spec fn result_view(r: FilterResult) -> (Seq<char>, usize, usize, usize, usize, usize, Seq<ChunkView>) {
    (r.content@, r.tokens_received, r.tokens_delivered, r.tokens_saved, r.chunks_shown, r.chunks_total,
        r.dropped_chunks@.map_values(|c: Chunk| c@))
}

/// A response delivered as it came: one chunk, nothing saved.
pub open spec fn passthrough(text: Seq<char>, tokens: usize) -> (Seq<char>, usize, usize, usize, usize, usize, Seq<ChunkView>) {
    (text, tokens, tokens, 0, 1, 1, Seq::empty())
}

/// Nothing delivered: everything received is saved.
pub open spec fn nothing_delivered(tokens: usize, total: usize) -> (Seq<char>, usize, usize, usize, usize, usize, Seq<ChunkView>) {
    (Seq::empty(), tokens, 0, tokens, 0, total, Seq::empty())
}

/// Where the pipeline stands after its first stages.
pub enum FilterStage {
    /// The result is known.
    Done(FilterResult),
    /// The chunks are to be scored, then handed to `finish`.
    Score { chunks: Vec<Chunk>, tokens_received: usize, full_hash: ChunkHash },
}

/// The filtering pipeline and its settings.
pub struct FilterPipeline {
    /// Whether filtering is on.
    pub enabled: bool,
    /// Responses up to this many tokens are delivered unfiltered.
    pub short_circuit_below_tokens: usize,
    /// Whether hints about dropped chunks are added.
    pub progressive_disclosure_enabled: bool,
    /// The hint template.
    pub progressive_hint_text: String,
    /// The relevance engine: `"tfidf"`, `"tags"` or `"embedding"`.
    pub relevance_engine: String,
}

/// Whether the first stages deliver the response unfiltered: images and
/// binary data, filtering off, or a small response.
pub open spec fn delivered_as_is(p: FilterPipeline, ct: ContentType, tokens: nat) -> bool {
    ct == ContentType::Image || ct == ContentType::Binary || !p.enabled || tokens <= p.short_circuit_below_tokens
}

/// The positions below `n` that `sel` does not hold, in order.
pub open spec fn unselected(n: nat, sel: Seq<int>) -> Seq<int>
    decreases n,
{
    if n == 0 {
        Seq::empty()
    } else if sel.contains(n - 1) {
        unselected((n - 1) as nat, sel)
    } else {
        unselected((n - 1) as nat, sel).push(n - 1)
    }
}

/// How many positions below `n` the list `sel` holds.
pub open spec fn in_count(n: nat, sel: Seq<int>) -> nat
    decreases n,
{
    if n == 0 {
        0
    } else {
        in_count((n - 1) as nat, sel) + if sel.contains(n - 1) { 1nat } else { 0 }
    }
}

proof fn lemma_unselected_len(n: nat, sel: Seq<int>)
    ensures
        unselected(n, sel).len() + in_count(n, sel) == n,
    decreases n,
{
    if n > 0 {
        lemma_unselected_len((n - 1) as nat, sel);
    }
}

proof fn lemma_in_count_push(n: nat, s: Seq<int>, x: int)
    ensures
        in_count(n, s.push(x)) == in_count(n, s) + if 0 <= x < n && !s.contains(x) { 1nat } else { 0 },
    decreases n,
{
    if n > 0 {
        lemma_in_count_push((n - 1) as nat, s, x);
        let k = n - 1;
        assert(s.push(x).contains(k) == (s.contains(k) || x == k)) by {
            if s.push(x).contains(k) {
                let j = choose|j: int| 0 <= j < s.push(x).len() && s.push(x)[j] == k;
                if j < s.len() {
                    assert(s[j] == k);
                }
            }
            if s.contains(k) {
                let j = choose|j: int| 0 <= j < s.len() && s[j] == k;
                assert(s.push(x)[j] == k);
            }
            if x == k {
                assert(s.push(x)[s.len() as int] == k);
            }
        }
    }
}

/// A repetition-free list of positions below `n` holds as many positions
/// below `n` as it is long.
proof fn lemma_in_count_len(n: nat, s: Seq<int>)
    requires
        forall|i: int| 0 <= i < s.len() ==> 0 <= #[trigger] s[i] < n,
        forall|i: int, j: int| 0 <= i < j < s.len() ==> s[i] != s[j],
    ensures
        in_count(n, s) == s.len(),
    decreases s.len(),
{
    if s.len() == 0 {
        lemma_in_count_empty(n);
        assert(s =~= Seq::<int>::empty());
    } else {
        let d = s.drop_last();
        let x = s.last();
        assert(d.push(x) =~= s);
        assert forall|i: int| 0 <= i < d.len() implies 0 <= #[trigger] d[i] < n by {
            assert(d[i] == s[i]);
        }
        assert forall|i: int, j: int| 0 <= i < j < d.len() implies d[i] != d[j] by {
            assert(d[i] == s[i] && d[j] == s[j]);
        }
        lemma_in_count_len(n, d);
        lemma_in_count_push(n, d, x);
        if d.contains(x) {
            let j = choose|j: int| 0 <= j < d.len() && d[j] == x;
            assert(s[j] == s[s.len() - 1]);
        }
        assert(0 <= x < n) by {
            assert(s[s.len() - 1] == x);
        }
    }
}

proof fn lemma_in_count_empty(n: nat)
    ensures
        in_count(n, Seq::<int>::empty()) == 0,
    decreases n,
{
    if n > 0 {
        lemma_in_count_empty((n - 1) as nat);
    }
}

/// What the last stages give on chunks `cv`: the chunks selected for the
/// budget, joined, with a hint when chunks were dropped and hints are on;
/// the counts of tokens and chunks; the dropped chunks when hinted; and the
/// log after recording the response's hash and the shown chunks' hashes.
pub open spec fn finished(
    p: FilterPipeline,
    cv: Seq<ChunkView>,
    tokens_received: usize,
    full_hash: Seq<u8>,
    budget_tokens: usize,
    request_id: Seq<char>,
    old_log: Seq<Seq<u8>>,
    cap: nat,
    r: FilterResult,
    new_log: Seq<Seq<u8>>,
) -> bool {
    let sel = spec_select(cv, budget_tokens as nat);
    let shown = sel.map_values(|p: int| cv[p]);
    let dropped = unselected(cv.len(), sel).map_values(|p: int| cv[p]);
    let assembled = join_texts(shown.map_values(|c: ChunkView| c.text));
    let hinted = p.progressive_disclosure_enabled && dropped.len() > 0;
    let content = if hinted {
        assembled + seq!['\n', '\n'] + spec_hint(p.progressive_hint_text@, sel.len(), cv.len(), request_id)
    } else {
        assembled
    };
    let delivered = spec_count_tokens(encode_utf8(content));
    &&& r.content@ =~= content
    &&& r.tokens_received == tokens_received
    &&& r.tokens_delivered == delivered
    &&& r.tokens_saved == if tokens_received >= delivered { tokens_received - delivered } else { 0 }
    &&& r.chunks_shown == sel.len()
    &&& r.chunks_total == cv.len()
    &&& r.dropped_chunks@.map_values(|c: Chunk| c@) =~= if hinted { dropped } else { Seq::empty() }
    &&& new_log =~= log_all(log_insert(old_log, cap, full_hash), cap, shown.map_values(|c: ChunkView| c.text))
}

/// The chunks with their keys set to their keyword overlap with `terms`.
pub open spec fn keyword_scored(cv: Seq<ChunkView>, terms: Seq<Seq<char>>) -> Seq<ChunkView> {
    cv.map_values(|c: ChunkView| ChunkView { text: c.text, index: c.index, score: found_count(c.text, terms) as u64 })
}

/// What the whole pipeline with keyword relevance gives on `text`, given
/// how its first stages ended: their result with the log unchanged, or the
/// last stages on the chunks scored against the query terms.
pub open spec fn ran(p: FilterPipeline, stage: FilterStage, ctx: FilterContext, old_log: DeliveryLog, r: FilterResult, new_log: DeliveryLog) -> bool {
    match stage {
        FilterStage::Done(d) => result_view(r) =~= result_view(d) && new_log.hashes() =~= old_log.hashes(),
        FilterStage::Score { chunks, tokens_received, full_hash } => finished(
            p,
            keyword_scored(chunks@.map_values(|c: Chunk| c@), term_views(ctx.query_terms@)),
            tokens_received,
            full_hash@,
            ctx.budget_tokens,
            ctx.request_id@,
            old_log.hashes(),
            old_log.cap(),
            r,
            new_log.hashes(),
        ),
    }
}

/// What the first stages give on `text`: images, binary data, disabled
/// filtering and small responses pass unchanged; a response already in the
/// log yields nothing; a text that splits into no chunk yields nothing;
/// otherwise its chunks, token count and hash go on to scoring.
pub open spec fn began(p: FilterPipeline, text: Seq<char>, content_type: ContentType, log: DeliveryLog, r: FilterStage) -> bool {
    let tokens = spec_count_tokens(encode_utf8(text));
    let chunks = spec_split(spec_auto_strategy(text), text);
    if delivered_as_is(p, content_type, tokens) {
        r matches FilterStage::Done(res) && result_view(res) == passthrough(text, tokens as usize)
    } else if log.hashes().contains(sha256(encode_utf8(text))) {
        r matches FilterStage::Done(res) && result_view(res) == nothing_delivered(tokens as usize, 1)
    } else if chunks.len() == 0 {
        r matches FilterStage::Done(res) && result_view(res) == nothing_delivered(tokens as usize, 0)
    } else {
        r matches FilterStage::Score { chunks: c, tokens_received: t, full_hash: h }
            && c@.map_values(|x: Chunk| x@) == chunks && t == tokens && h@ == sha256(encode_utf8(text))
    }
}

impl FilterPipeline {
    /// A pipeline with the filter settings of the configuration.
    pub fn new(config: &FilterConfig) -> (p: FilterPipeline)
        ensures
            p.enabled == config.enabled,
            p.short_circuit_below_tokens == config.short_circuit_below_tokens,
            p.progressive_disclosure_enabled == config.progressive_disclosure_enabled,
            p.progressive_hint_text@ == config.progressive_hint_text@,
            p.relevance_engine@ == config.relevance_engine@,
    {
        FilterPipeline {
            enabled: config.enabled,
            short_circuit_below_tokens: config.short_circuit_below_tokens,
            progressive_disclosure_enabled: config.progressive_disclosure_enabled,
            progressive_hint_text: config.progressive_hint_text.clone(),
            relevance_engine: config.relevance_engine.clone(),
        }
    }

    /// The whole pipeline with keyword relevance on the response text and
    /// its content type: the first stages (see `begin`), then the chunks
    /// scored by how many query terms they contain, then the last stages
    /// (see `finish`).
    pub fn run(&self, text: &str, content_type: ContentType, ctx: &FilterContext, log: &mut DeliveryLog) -> (res: FilterResult)
        ensures
            exists|stage: FilterStage| #[trigger] began(*self, text@, content_type, *old(log), stage)
                && ran(*self, stage, *ctx, *old(log), res, *final(log)),
            final(log).cap() == old(log).cap(),
    {
        let stage = self.begin(text, content_type, log);
        let ghost st = stage;
        let ghost log0 = *log;
        match stage {
            FilterStage::Done(res) => {
                assert(ran(*self, st, *ctx, log0, res, *log));
                res
            },
            FilterStage::Score { mut chunks, tokens_received, full_hash } => {
                let ghost cv = chunks@.map_values(|c: Chunk| c@);
                RelevanceScorer::score_chunks(&mut chunks, &ctx.query_terms);
                assert(chunks@.map_values(|c: Chunk| c@) =~= keyword_scored(cv, term_views(ctx.query_terms@)));
                let res = self.finish(chunks, tokens_received, full_hash, ctx.budget_tokens, ctx.request_id.as_str(), log);
                assert(ran(*self, st, *ctx, log0, res, *log));
                res
            },
        }
    }

    /// Whether chunks are scored by embeddings rather than keywords.
    pub fn uses_embeddings(&self) -> (r: bool)
        ensures
            r == (self.relevance_engine@ == "embedding"@),
    {
        str_eq(self.relevance_engine.as_str(), "embedding")
    }

    /// The first stages on the response text: images, binary data, disabled
    /// filtering and small responses pass unchanged; a response already
    /// delivered in this session yields nothing; otherwise the text is split
    /// (strategy chosen by its shape) and the chunks are to be scored.
    pub fn begin(&self, text: &str, content_type: ContentType, log: &DeliveryLog) -> (r: FilterStage)
        ensures
            began(*self, text@, content_type, *log, r),
    {
        let tokens_received = count_tokens(text);
        if content_type == ContentType::Image || content_type == ContentType::Binary || !self.enabled
            || tokens_received <= self.short_circuit_below_tokens {
            let res = FilterResult {
                content: String::from_str(text),
                tokens_received,
                tokens_delivered: tokens_received,
                tokens_saved: 0,
                chunks_shown: 1,
                chunks_total: 1,
                dropped_chunks: Vec::new(),
            };
            assert(result_view(res).6 =~= Seq::<ChunkView>::empty());
            return FilterStage::Done(res);
        }
        let full_hash = DedupFilter::hash_text(text);
        if log.contains(&full_hash) {
            let res = FilterResult {
                content: String::new(),
                tokens_received,
                tokens_delivered: 0,
                tokens_saved: tokens_received,
                chunks_shown: 0,
                chunks_total: 1,
                dropped_chunks: Vec::new(),
            };
            assert(result_view(res).6 =~= Seq::<ChunkView>::empty());
            return FilterStage::Done(res);
        }
        let splitter = ChunkSplitter::auto(text);
        let chunks = splitter.split(text);
        if chunks.len() == 0 {
            let res = FilterResult {
                content: String::new(),
                tokens_received,
                tokens_delivered: 0,
                tokens_saved: tokens_received,
                chunks_shown: 0,
                chunks_total: 0,
                dropped_chunks: Vec::new(),
            };
            assert(result_view(res).6 =~= Seq::<ChunkView>::empty());
            return FilterStage::Done(res);
        }
        FilterStage::Score { chunks, tokens_received, full_hash }
    }

    /// The last stages on scored chunks: the chunks are selected for the
    /// budget and joined; when chunks were dropped a hint may be appended;
    /// the response's hash and the delivered chunks' hashes are recorded in
    /// the session's log.
    pub fn finish(
        &self,
        chunks: Vec<Chunk>,
        tokens_received: usize,
        full_hash: ChunkHash,
        budget_tokens: usize,
        request_id: &str,
        log: &mut DeliveryLog,
    ) -> (r: FilterResult)
        requires
            chunks.len() > 0,
        ensures
            finished(*self, chunks@.map_values(|c: Chunk| c@), tokens_received, full_hash@, budget_tokens,
                request_id@, old(log).hashes(), old(log).cap(), r, final(log).hashes()),
            final(log).cap() == old(log).cap(),
    {
        let ghost cv = chunks@.map_values(|c: Chunk| c@);
        let total = chunks.len();
        let positions = BudgetEnforcer::select_positions(&chunks, budget_tokens);
        let ghost sel = positions@.map_values(|p: usize| p as int);
        proof {
            lemma_select_document_order(cv, budget_tokens as nat);
        }
        let mut selected: Vec<Chunk> = Vec::new();
        let mut m: usize = 0;
        while m < positions.len()
            invariant
                m <= positions.len(),
                cv == chunks@.map_values(|c: Chunk| c@),
                sel == positions@.map_values(|p: usize| p as int),
                forall|q: int| 0 <= q < positions.len() ==> positions[q] < chunks.len(),
                selected@.map_values(|c: Chunk| c@) == sel.take(m as int).map_values(|p: int| cv[p]),
            decreases positions.len() - m,
        {
            let p = positions[m];
            let c = chunks[p].duplicate();
            let ghost before = selected@;
            selected.push(c);
            proof {
                assert(sel[m as int] == p as int);
                assert(sel.take(m + 1) =~= sel.take(m as int).push(p as int));
                assert(sel.take(m + 1).map_values(|p: int| cv[p]) =~= sel.take(m as int).map_values(|p: int| cv[p]).push(cv[p as int]));
                assert(selected@.map_values(|c: Chunk| c@) =~= before.map_values(|c: Chunk| c@).push(c@));
            }
            m = m + 1;
        }
        assert(sel.take(m as int) =~= sel);
        let mut dropped: Vec<Chunk> = Vec::new();
        let mut p: usize = 0;
        assert(dropped@.map_values(|c: Chunk| c@) =~= unselected(0, sel).map_values(|q: int| cv[q]));
        while p < total
            invariant
                p <= total,
                total == chunks.len(),
                cv == chunks@.map_values(|c: Chunk| c@),
                sel == positions@.map_values(|p: usize| p as int),
                dropped@.map_values(|c: Chunk| c@) == unselected(p as nat, sel).map_values(|q: int| cv[q]),
                dropped.len() <= p,
            decreases total - p,
        {
            let mut found = false;
            let mut k: usize = 0;
            while k < positions.len()
                invariant
                    k <= positions.len(),
                    sel == positions@.map_values(|p: usize| p as int),
                    found == exists|j: int| 0 <= j < k && sel[j] == p as int,
                decreases positions.len() - k,
            {
                if positions[k] == p {
                    found = true;
                }
                assert(sel[k as int] == positions[k as int] as int);
                k = k + 1;
            }
            proof {
                if sel.contains(p as int) {
                    let j = choose|j: int| 0 <= j < sel.len() && sel[j] == p as int;
                    assert(found);
                }
            }
            if !found {
                let c = chunks[p].duplicate();
                let ghost before = dropped@;
                dropped.push(c);
                assert(dropped@.map_values(|c: Chunk| c@) =~= before.map_values(|c: Chunk| c@).push(cv[p as int]));
            }
            p = p + 1;
        }
        proof {
            lemma_unselected_len(total as nat, sel);
            lemma_in_count_len(total as nat, sel);
            assert(dropped@.map_values(|c: Chunk| c@).len() == dropped.len());
        }
        let shown_count = selected.len();
        let assembled = BudgetEnforcer::reassemble(selected.as_slice());
        let annotator = ProgressiveDisclosureAnnotator::new(self.progressive_disclosure_enabled);
        let (content, returned) = annotator.annotate(
            assembled,
            shown_count,
            dropped,
            request_id,
            self.progressive_hint_text.as_str(),
        );
        log.insert(full_hash);
        DeliveryLogger::record(selected.as_slice(), log);
        let tokens_delivered = count_tokens(content.as_str());
        proof {
            let shown = sel.map_values(|p: int| cv[p]);
            assert(selected@.map_values(|c: Chunk| c@) == shown);
            assert(selected@.map_values(|c: Chunk| c.text@) =~= shown.map_values(|c: ChunkView| c.text));
            assert(selected@.map_values(|c: Chunk| c@.text) =~= shown.map_values(|c: ChunkView| c.text));
            assert(shown_count == sel.len());
            let dv = unselected(cv.len(), sel).map_values(|p: int| cv[p]);
            assert(dropped@.map_values(|c: Chunk| c@) == dv);
        }
        FilterResult {
            content,
            tokens_received,
            tokens_delivered,
            tokens_saved: tokens_received.saturating_sub(tokens_delivered),
            chunks_shown: shown_count,
            chunks_total: total,
            dropped_chunks: returned,
        }
    }
}

} // verus!

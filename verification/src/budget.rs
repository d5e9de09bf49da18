//! Token-budget enforcement: truncating text to a budget.
use vstd::prelude::*;
use vstd::string::*;
use vstd::utf8::*;
use crate::chunker::{Chunk, ChunkView};
use crate::json::{
    Json, JsonView, json_view, members_view, opt_json_view, member_index, lemma_member_index_bounds,
    lemma_member_index_first,
};
use crate::protocol::JsonRpcResponse;
use crate::text::str_eq;
use crate::ordering::{sorted_positions, stable_order, lemma_sorted_positions, stable_before};
use crate::token_count::{
    ceil_div, count_tokens, count_tokens_prefix, non_ascii_count, spec_count_tokens, tokens_for,
};

verus! {

/// Fewest tokens a truncated text keeps, whatever the budget.
pub const MIN_DELIVERY_TOKENS: usize = 200;

/// Budget enforcer: fits texts and chunk selections into a token budget.
pub struct BudgetEnforcer;

/// The cut point that the binary search over prefix lengths settles on:
/// the search keeps the longest prefix it has seen within `target` tokens
/// and halves `[low, high]` towards longer prefixes when the middle one
/// fits, towards shorter ones when it does not.
pub open spec fn search_cut(b: Seq<u8>, target: nat, low: int, high: int, best: int) -> int
    decreases high - low + 1,
{
    if low > high || low < 0 {
        best
    } else {
        let mid = (low + high) / 2;
        if spec_count_tokens(b.take(mid)) <= target {
            search_cut(b, target, mid + 1, high, mid)
        } else {
            search_cut(b, target, low, mid - 1, best)
        }
    }
}

/// The largest character boundary of `b` at or below `i`.
pub open spec fn boundary_at_or_below(b: Seq<u8>, i: int) -> int
    decreases i,
{
    if i <= 0 {
        0
    } else if is_char_boundary(b, i) {
        i
    } else {
        boundary_at_or_below(b, i - 1)
    }
}

/// The larger of the budget and the minimum delivery.
pub open spec fn truncation_target(budget: nat) -> nat {
    if budget > 200 { budget } else { 200 }
}

/// Where a text over budget is cut (a byte offset on a character boundary).
pub open spec fn truncation_cut(b: Seq<u8>, budget: nat) -> int {
    boundary_at_or_below(b, search_cut(b, truncation_target(budget), 0, b.len() as int, 0))
}

/// What truncating `text` to `budget` tokens gives: the text itself when it
/// is within budget, else its characters before the cut followed by `...`.
pub open spec fn spec_truncate(text: Seq<char>, budget: nat) -> Seq<char> {
    let b = encode_utf8(text);
    if spec_count_tokens(b) <= budget {
        text
    } else {
        decode_utf8(b.take(truncation_cut(b, budget))) + seq!['.', '.', '.']
    }
}

/// The search ends on a prefix within `target` that cannot be extended by
/// one byte without exceeding it (or that is the whole text).
pub proof fn lemma_search_cut(b: Seq<u8>, target: nat, low: int, high: int, best: int)
    requires
        0 <= low <= high + 1,
        high <= b.len(),
        0 <= best <= b.len(),
        spec_count_tokens(b.take(best)) <= target,
        low == 0 ==> best == 0,
        low > 0 ==> best == low - 1,
        high + 1 > b.len() || spec_count_tokens(b.take(high + 1)) > target,
    ensures
        0 <= search_cut(b, target, low, high, best) <= b.len(),
        spec_count_tokens(b.take(search_cut(b, target, low, high, best))) <= target,
        search_cut(b, target, low, high, best) == b.len()
            || spec_count_tokens(b.take(search_cut(b, target, low, high, best) + 1)) > target,
    decreases high - low + 1,
{
    if low <= high {
        let mid = (low + high) / 2;
        if spec_count_tokens(b.take(mid)) <= target {
            lemma_search_cut(b, target, mid + 1, high, mid);
        } else {
            assert(b.take(0) =~= Seq::<u8>::empty());
            assert(mid > 0);
            lemma_search_cut(b, target, low, mid - 1, best);
        }
    } else {
        assert(low > 0);
    }
}

/// The binary search for the longest prefix within `target` tokens.
fn binary_cut(bytes: &[u8], target: usize) -> (best: usize)
    ensures
        best == search_cut(bytes@, target as nat, 0, bytes@.len() as int, 0),
        best <= bytes@.len(),
{
    let ghost b = bytes@;
    let len = bytes.len();
    let mut low: usize = 0;
    let mut high: usize = len;
    let mut best: usize = 0;
    proof {
        assert(b.take(0) =~= Seq::<u8>::empty());
        lemma_search_cut(b, target as nat, 0, len as int, 0);
    }
    while low <= high
        invariant_except_break
            b == bytes@,
            len == b.len(),
            low <= high + 1,
            high <= len,
            best <= len,
            low == 0 ==> best == 0,
            low > 0 ==> best == low - 1,
            spec_count_tokens(b.take(best as int)) <= target,
            search_cut(b, target as nat, low as int, high as int, best as int)
                == search_cut(b, target as nat, 0, len as int, 0),
        ensures
            best == search_cut(b, target as nat, 0, len as int, 0),
            best <= len,
        decreases high + 1 - low,
    {
        let mid = low + (high - low) / 2;
        assert(mid == (low + high) / 2);
        let tokens = count_tokens_prefix(bytes, mid);
        if tokens <= target {
            assert(search_cut(b, target as nat, low as int, high as int, best as int)
                == search_cut(b, target as nat, mid + 1, high as int, mid as int));
            best = mid;
            if mid == high {
                break;
            }
            low = mid + 1;
        } else {
            assert(b.take(0) =~= Seq::<u8>::empty());
            assert(mid > 0);
            high = mid.saturating_sub(1);
        }
    }
    best
}

/// Steps back from `i` to the nearest character boundary of `text`.
pub(crate) fn boundary_below(text: &str, i: usize) -> (cut: usize)
    requires
        i <= text.spec_bytes().len(),
    ensures
        cut == boundary_at_or_below(text.spec_bytes(), i as int),
{
    let mut cut = i;
    while cut > 0 && !text.is_char_boundary(cut)
        invariant
            cut <= i,
            boundary_at_or_below(text.spec_bytes(), cut as int)
                == boundary_at_or_below(text.spec_bytes(), i as int),
        decreases cut,
    {
        cut = cut - 1;
    }
    cut
}

/// An ASCII byte at a character boundary is a whole character, so the next
/// offset is a boundary too.
proof fn lemma_ascii_boundary_next(b: Seq<u8>, i: int)
    requires
        valid_utf8(b),
        is_char_boundary(b, i),
        0 <= i < b.len(),
        b[i] <= 0x7f,
    ensures
        is_char_boundary(b, i + 1),
    decreases b.len(),
{
    reveal_with_fuel(is_char_boundary, 2);
    let l = length_of_first_scalar(b);
    let rest = pop_first_scalar(b);
    assert(valid_utf8(rest));
    if i == 0 {
        assert(l == 1);
    } else {
        assert(is_char_boundary(rest, i - l));
        assert(i - l >= 0);
        assert(rest[i - l] == b[i]);
        lemma_ascii_boundary_next(rest, i - l);
    }
}

/// Between the boundary below `i` and `i`, every byte is above 127.
proof fn lemma_backed_off_bytes_non_ascii(b: Seq<u8>, i: int, j: int)
    requires
        valid_utf8(b),
        0 <= i <= b.len(),
        boundary_at_or_below(b, i) <= j < i,
    ensures
        b[j] > 127,
    decreases i,
{
    broadcast use is_char_boundary_start_end_of_seq, is_char_boundary_iff_not_is_continuation_byte;

    let cut = boundary_at_or_below(b, i);
    if i > 0 && !is_char_boundary(b, i) {
        assert(i < b.len());
        if j < i - 1 {
            lemma_backed_off_bytes_non_ascii(b, i - 1, j);
        } else {
            // j == i - 1
            if !is_char_boundary(b, j) {
                assert(is_continuation_byte(b[j]));
            } else if b[j] <= 0x7f {
                lemma_ascii_boundary_next(b, j);
            }
        }
    }
}

/// Counting non-ASCII bytes prefix by prefix.
proof fn lemma_non_ascii_step(b: Seq<u8>, j: int)
    requires
        0 <= j < b.len(),
    ensures
        non_ascii_count(b.take(j + 1)) == non_ascii_count(b.take(j)) + if b[j] > 127 { 1int } else { 0int },
{
    assert(b.take(j + 1).drop_last() =~= b.take(j));
}

/// Dropping bytes above 127 from the end of a prefix never raises its
/// token estimate.
proof fn lemma_drop_non_ascii_tail(b: Seq<u8>, cut: int, best: int)
    requires
        0 <= cut <= best <= b.len(),
        forall|j: int| cut <= j < best ==> b[j] > 127,
    ensures
        spec_count_tokens(b.take(cut)) <= spec_count_tokens(b.take(best)),
        non_ascii_count(b.take(best)) == non_ascii_count(b.take(cut)) + (best - cut),
    decreases best - cut,
{
    if cut < best {
        lemma_drop_non_ascii_tail(b, cut, best - 1);
        lemma_non_ascii_step(b, best - 1);
        lemma_non_ascii_le_len(b.take(best));
        let l = best - cut;
        let len = best;
        let na = non_ascii_count(b.take(best)) as int;
        lemma_tokens_drop(len, na, l);
    }
}

/// At most every byte is above 127.
proof fn lemma_non_ascii_le_len(b: Seq<u8>)
    ensures
        non_ascii_count(b) <= b.len(),
    decreases b.len(),
{
    if b.len() > 0 {
        lemma_non_ascii_le_len(b.drop_last());
    }
}

/// `tokens_for(len - k, na - k) <= tokens_for(len, na)` when the `k` dropped
/// bytes are all non-ASCII.
proof fn lemma_tokens_drop(len: int, na: int, k: int)
    requires
        0 <= k <= na <= len,
    ensures
        tokens_for((len - k) as nat, (na - k) as nat) <= tokens_for(len as nat, na as nat),
{
    let l2 = len - k;
    let n2 = na - k;
    if l2 > 0 {
        if 10 * na > 3 * len {
            if 10 * n2 > 3 * l2 {
                assert((2 * l2 + 4) / 5 <= (2 * len + 4) / 5) by (nonlinear_arith)
                    requires
                        0 <= l2 <= len,
                ;
            } else {
                assert((2 * l2 + 6) / 7 <= (2 * len + 4) / 5) by (nonlinear_arith)
                    requires
                        0 <= l2 <= len,
                ;
            }
        } else {
            assert((2 * l2 + 6) / 7 <= (2 * len + 6) / 7) by (nonlinear_arith)
                requires
                    0 <= l2 <= len,
            ;
        }
    }
}

/// `"content"`.
pub open spec fn content_key() -> Seq<char> {
    seq!['c', 'o', 'n', 't', 'e', 'n', 't']
}

/// The members with a string `content` member truncated to the budget.
pub open spec fn truncate_content(ms: Seq<(Seq<char>, JsonView)>, budget: nat) -> Seq<(Seq<char>, JsonView)> {
    let i = member_index(ms, content_key());
    if 0 <= i < ms.len() && ms[i].1 is Str {
        ms.update(i, (ms[i].0, JsonView::Str(spec_truncate(ms[i].1->Str_0, budget))))
    } else {
        ms
    }
}

/// A result after budget enforcement: an object's string `content` is
/// truncated; any other result is left as it is.
pub open spec fn enforced_result(result: Option<JsonView>, budget: nat) -> Option<JsonView> {
    match result {
        Some(JsonView::Object(ms)) => Some(JsonView::Object(truncate_content(ms, budget))),
        _ => result,
    }
}

impl BudgetEnforcer {
    /// Truncates the string `content` of a response's result object to the
    /// budget; other results are left alone.
    pub fn enforce(response: &mut JsonRpcResponse, budget_tokens: usize)
        ensures
            opt_json_view(final(response).result) == enforced_result(opt_json_view(old(response).result), budget_tokens as nat),
            final(response).id == old(response).id,
            final(response).error == old(response).error,
            final(response).jsonrpc == old(response).jsonrpc,
    {
        let taken = response.result.take();
        let ghost before = taken;
        match taken {
            Some(Json::Object(ms)) => {
                let ghost mv = members_view(ms@);
                assert(json_view(Json::Object(ms))->Object_0 =~= mv);
                let ghost idx = member_index(mv, content_key());
                proof {
                    reveal_strlit("content");
                    assert("content"@ =~= content_key());
                    lemma_member_index_bounds(mv, content_key());
                }
                let mut out: Vec<(String, Json)> = Vec::new();
                let mut found = false;
                let mut i: usize = 0;
                let ghost mseq = ms@;
                assert(mv.skip(0) =~= mv);
                for m in it: ms.into_iter()
                    invariant
                        it.seq() == mseq,
                        mv == members_view(mseq),
                        idx == member_index(mv, content_key()),
                        -1 <= idx < mv.len(),
                        found == (0 <= idx < it.index()),
                        out@.len() == it.index(),
                        forall|j: int| 0 <= j < it.index() ==> #[trigger] members_view(out@)[j] == truncate_content(mv, budget_tokens as nat)[j],
                {
                    let ghost k = it.index() as int;
                    assert(mv[k] == (m.0@, json_view(m.1)));
                    let (name, value) = m;
                    let is_first = !found && str_eq(name.as_str(), "content");
                    proof {
                        reveal_strlit("content");
                        assert("content"@ =~= content_key());
                        lemma_member_index_bounds(mv, content_key());
                        lemma_member_index_first(mv, content_key(), k);
                    }
                    assert(is_first == (idx == k));
                    let ghost o0 = out@;
                    if is_first {
                        found = true;
                        match value {
                            Json::Str(t) => {
                                assert(json_view(Json::Str(t)) == JsonView::Str(t@));
                                let cut = Self::truncate_to_budget(t.as_str(), budget_tokens);
                                out.push((name, Json::Str(cut)));
                                assert(json_view(Json::Str(cut)) == JsonView::Str(cut@));
                            },
                            other => {
                                assert(!(json_view(other) is Str));
                                out.push((name, other));
                            },
                        }
                    } else {
                        out.push((name, value));
                    }
                    assert forall|j: int| 0 <= j < k + 1 implies #[trigger] members_view(out@)[j] == truncate_content(mv, budget_tokens as nat)[j] by {
                        if j < k {
                            assert(out@[j] == o0[j]);
                            assert(members_view(o0)[j] == truncate_content(mv, budget_tokens as nat)[j]);
                        }
                    }
                }
                assert(truncate_content(mv, budget_tokens as nat).len() == mv.len());
                assert(members_view(out@) =~= truncate_content(mv, budget_tokens as nat));
                let r = Json::Object(out);
                assert(json_view(r)->Object_0 =~= members_view(out@));
                response.result = Some(r);
            },
            other => {
                response.result = other;
            },
        }
    }

    /// Truncates `text` to fit within `budget_tokens`.
    ///
    /// A text within budget comes back as it is. Otherwise the text is cut
    /// at the longest prefix (found by binary search over byte lengths) whose
    /// estimate stays within the larger of the budget and 200 tokens, the cut
    /// is moved back to a character boundary, and `...` is appended.
    pub fn truncate_to_budget(text: &str, budget_tokens: usize) -> (r: String)
        ensures
            r@ == spec_truncate(text@, budget_tokens as nat),
            spec_count_tokens(text.spec_bytes()) > budget_tokens ==> {
                let b = text.spec_bytes();
                let kept = decode_utf8(b.take(truncation_cut(b, budget_tokens as nat)));
                &&& spec_count_tokens(b.take(truncation_cut(b, budget_tokens as nat)))
                    <= truncation_target(budget_tokens as nat)
                &&& text@.take(kept.len() as int) == kept
                &&& r@ == kept + seq!['.', '.', '.']
            },
    {
        let current_tokens = count_tokens(text);
        if current_tokens <= budget_tokens {
            return String::from_str(text);
        }
        let target = if budget_tokens > MIN_DELIVERY_TOKENS {
            budget_tokens
        } else {
            MIN_DELIVERY_TOKENS
        };
        let bytes = text.as_bytes();
        let best = binary_cut(bytes, target);
        let cut = boundary_below(text, best);
        let ghost b = text.spec_bytes();
        proof {
            broadcast use encode_utf8_valid_utf8;

            assert(target as nat == truncation_target(budget_tokens as nat));
            assert(cut as int == truncation_cut(b, budget_tokens as nat));
            lemma_truncation_cut(b, budget_tokens as nat);
        }
        let (head, _tail) = text.split_at(cut);
        let mut result = String::from_str(head);
        result.append("...");
        proof {
            reveal_strlit("...");
            broadcast use encode_utf8_decode_utf8;

            lemma_decoded_prefix(text@, cut as int);
            assert(head.spec_bytes() =~= b.take(cut as int));
            assert(head@ == decode_utf8(encode_utf8(head@)));
            assert(head@ == decode_utf8(b.take(cut as int)));
            assert(result@ =~= head@ + seq!['.', '.', '.']);
        }
        result
    }
}

/// The cut of a text over budget lies on a character boundary and keeps a
/// prefix within the target.
pub proof fn lemma_truncation_cut(b: Seq<u8>, budget: nat)
    requires
        valid_utf8(b),
    ensures
        0 <= truncation_cut(b, budget) <= b.len(),
        is_char_boundary(b, truncation_cut(b, budget)),
        spec_count_tokens(b.take(truncation_cut(b, budget))) <= truncation_target(budget),
{
    let target = truncation_target(budget);
    assert(b.take(0) =~= Seq::<u8>::empty());
    lemma_search_cut(b, target, 0, b.len() as int, 0);
    let best = search_cut(b, target, 0, b.len() as int, 0);
    let cut = boundary_at_or_below(b, best);
    lemma_boundary_is_boundary(b, best);
    assert forall|j: int| cut <= j < best implies b[j] > 127 by {
        lemma_backed_off_bytes_non_ascii(b, best, j);
    }
    lemma_drop_non_ascii_tail(b, cut, best);
}

/// The characters encoded before a boundary are a prefix of the text.
pub(crate) proof fn lemma_decoded_prefix(text: Seq<char>, cut: int)
    requires
        0 <= cut <= encode_utf8(text).len(),
        is_char_boundary(encode_utf8(text), cut),
    ensures
        text.take(decode_utf8(encode_utf8(text).take(cut)).len() as int)
            == decode_utf8(encode_utf8(text).take(cut)),
{
    broadcast use encode_utf8_valid_utf8, encode_utf8_decode_utf8;

    let b = encode_utf8(text);
    decode_utf8_split(b, cut);
    assert(b.subrange(0, cut) =~= b.take(cut));
    let p = decode_utf8(b.take(cut));
    assert(text =~= p + decode_utf8(b.subrange(cut, b.len() as int)));
    assert(text.take(p.len() as int) =~= p);
}

/// The boundary below `i` is a character boundary.
pub(crate) proof fn lemma_boundary_is_boundary(b: Seq<u8>, i: int)
    requires
        valid_utf8(b),
        0 <= i <= b.len(),
    ensures
        is_char_boundary(b, boundary_at_or_below(b, i)),
        0 <= boundary_at_or_below(b, i) <= i,
    decreases i,
{
    broadcast use is_char_boundary_start_end_of_seq;

    if i > 0 && !is_char_boundary(b, i) {
        lemma_boundary_is_boundary(b, i - 1);
    }
}

/// The token estimate of a chunk's text.
pub open spec fn chunk_tokens(c: ChunkView) -> nat {
    spec_count_tokens(encode_utf8(c.text))
}

/// Greedy selection along `order`: a position is taken when its tokens
/// still fit in what is left of `budget`. Gives the positions taken, in
/// `order`'s order, and the tokens they use.
pub open spec fn greedy_pick(order: Seq<int>, toks: Seq<nat>, budget: nat) -> (Seq<int>, nat)
    decreases order.len(),
{
    if order.len() == 0 {
        (Seq::empty(), 0)
    } else {
        let prev = greedy_pick(order.drop_last(), toks, budget);
        let t = toks[order.last()];
        if prev.1 + t <= budget {
            (prev.0.push(order.last()), prev.1 + t)
        } else {
            prev
        }
    }
}

/// The positions chosen from `chunks` for `budget`, in the order they are
/// delivered: by score (stable) greedily within the budget, the best chunk
/// alone if none fits, then put back in index order (stable).
pub open spec fn spec_select(chunks: Seq<ChunkView>, budget: nat) -> Seq<int> {
    let n = chunks.len();
    let by_score = sorted_positions(chunks.map_values(|c: ChunkView| c.score), n, true);
    let toks = chunks.map_values(|c: ChunkView| chunk_tokens(c));
    let greedy = greedy_pick(by_score, toks, budget).0;
    let picked = if greedy.len() == 0 && n > 0 { seq![by_score[0]] } else { greedy };
    let by_index = sorted_positions(picked.map_values(|p: int| chunks[p].index as u64), picked.len(), false);
    by_index.map_values(|k: int| picked[k])
}

/// The greedy pass never goes over the budget and takes only positions of
/// `order`.
pub proof fn lemma_greedy_within_budget(order: Seq<int>, toks: Seq<nat>, budget: nat)
    ensures
        greedy_pick(order, toks, budget).1 <= budget,
        greedy_pick(order, toks, budget).0.len() <= order.len(),
        forall|x: int| #[trigger] greedy_pick(order, toks, budget).0.contains(x) ==> order.contains(x),
    decreases order.len(),
{
    if order.len() > 0 {
        let d = order.drop_last();
        lemma_greedy_within_budget(d, toks, budget);
        let g = greedy_pick(order, toks, budget).0;
        let g0 = greedy_pick(d, toks, budget).0;
        assert forall|x: int| #[trigger] g.contains(x) implies order.contains(x) by {
            let k = choose|k: int| 0 <= k < g.len() && g[k] == x;
            if k < g0.len() {
                assert(g0[k] == x);
                assert(g0.contains(x));
                let j = choose|j: int| 0 <= j < d.len() && d[j] == x;
                assert(order[j] == x);
            } else {
                assert(order[order.len() - 1] == x);
            }
        }
    }
}

/// What is delivered is in index order, holds at least one chunk when
/// there were any, and takes each chunk at most once.
pub proof fn lemma_select_document_order(chunks: Seq<ChunkView>, budget: nat)
    ensures
        chunks.len() > 0 ==> spec_select(chunks, budget).len() >= 1,
        forall|k: int| 0 <= k < spec_select(chunks, budget).len()
            ==> 0 <= #[trigger] spec_select(chunks, budget)[k] < chunks.len(),
        forall|k: int, l: int| 0 <= k < l < spec_select(chunks, budget).len()
            ==> chunks[#[trigger] spec_select(chunks, budget)[k]].index
                <= chunks[#[trigger] spec_select(chunks, budget)[l]].index,
        forall|k: int, l: int| 0 <= k < l < spec_select(chunks, budget).len()
            ==> #[trigger] spec_select(chunks, budget)[k] != #[trigger] spec_select(chunks, budget)[l],
{
    let n = chunks.len();
    let scores = chunks.map_values(|c: ChunkView| c.score);
    let by_score = sorted_positions(scores, n, true);
    let toks = chunks.map_values(|c: ChunkView| chunk_tokens(c));
    let greedy = greedy_pick(by_score, toks, budget).0;
    let picked = if greedy.len() == 0 && n > 0 { seq![by_score[0]] } else { greedy };
    let keys = picked.map_values(|p: int| chunks[p].index as u64);
    let by_index = sorted_positions(keys, picked.len(), false);
    let sel = spec_select(chunks, budget);
    lemma_sorted_positions(scores, n, true);
    lemma_sorted_positions(keys, picked.len(), false);
    lemma_greedy_within_budget(by_score, toks, budget);
    lemma_greedy_distinct(by_score, toks, budget);
    assert(sel == by_index.map_values(|k: int| picked[k]));
    assert forall|k: int| 0 <= k < picked.len() implies 0 <= #[trigger] picked[k] < n by {
        if greedy.len() == 0 && n > 0 {
        } else {
            assert(greedy.contains(greedy[k]));
            let j = choose|j: int| 0 <= j < by_score.len() && by_score[j] == greedy[k];
        }
    }
    assert forall|k: int, l: int| 0 <= k < l < sel.len() implies chunks[#[trigger] sel[k]].index
        <= chunks[#[trigger] sel[l]].index by {
        assert(stable_before(keys, by_index[k], by_index[l], false));
        assert(keys[by_index[k]] == chunks[picked[by_index[k]]].index as u64);
    }
    assert forall|k: int, l: int| 0 <= k < l < sel.len() implies #[trigger] sel[k] != #[trigger] sel[l] by {
        assert(by_index[k] != by_index[l]);
    }
}

/// The greedy pass takes each position of a repetition-free order once.
proof fn lemma_greedy_distinct(order: Seq<int>, toks: Seq<nat>, budget: nat)
    requires
        forall|k: int, l: int| 0 <= k < l < order.len() ==> order[k] != order[l],
    ensures
        forall|k: int, l: int| 0 <= k < l < greedy_pick(order, toks, budget).0.len()
            ==> #[trigger] greedy_pick(order, toks, budget).0[k] != #[trigger] greedy_pick(order, toks, budget).0[l],
    decreases order.len(),
{
    if order.len() > 0 {
        let d = order.drop_last();
        lemma_greedy_distinct(d, toks, budget);
        lemma_greedy_within_budget(d, toks, budget);
        let g0 = greedy_pick(d, toks, budget).0;
        let g = greedy_pick(order, toks, budget).0;
        assert forall|k: int, l: int| 0 <= k < l < g.len() implies #[trigger] g[k] != #[trigger] g[l] by {
            if l == g0.len() {
                assert(g0.contains(g[k]));
                let j = choose|j: int| 0 <= j < d.len() && d[j] == g[k];
                assert(order[j] != order[order.len() - 1]);
            }
        }
    }
}

/// One greedy step along `order`.
proof fn lemma_greedy_step(order: Seq<int>, toks: Seq<nat>, budget: nat, k: int)
    requires
        0 <= k < order.len(),
    ensures
        greedy_pick(order.take(k + 1), toks, budget) == {
            let prev = greedy_pick(order.take(k), toks, budget);
            if prev.1 + toks[order[k]] <= budget {
                (prev.0.push(order[k]), prev.1 + toks[order[k]])
            } else {
                prev
            }
        },
{
    assert(order.take(k + 1).drop_last() =~= order.take(k));
}

impl BudgetEnforcer {
    /// Selects the chunks to deliver within `budget_tokens` and returns
    /// them with the number of chunks there were.
    ///
    /// Chunks are taken by score, best first (ties in input order), as
    /// long as their tokens fit in what is left of the budget; when none
    /// fits, the best chunk alone is taken. The chosen chunks come back in
    /// index order (ties in score order).
    pub fn select_chunks(chunks: Vec<Chunk>, budget_tokens: usize, _min_tokens: usize) -> (r: (Vec<Chunk>, usize))
        ensures
            r.1 == chunks@.len(),
            r.0@.map_values(|c: Chunk| c@)
                == spec_select(chunks@.map_values(|c: Chunk| c@), budget_tokens as nat).map_values(
                |p: int| chunks@[p]@,
            ),
    {
        let positions = Self::select_positions(&chunks, budget_tokens);
        let ghost fin = positions@.map_values(|p: usize| p as int);
        let mut selected: Vec<Chunk> = Vec::new();
        let mut m: usize = 0;
        while m < positions.len()
            invariant
                m <= positions.len(),
                fin == positions@.map_values(|p: usize| p as int),
                forall|q: int| 0 <= q < positions.len() ==> positions[q] < chunks.len(),
                selected@.map_values(|c: Chunk| c@) == fin.take(m as int).map_values(|p: int| chunks@[p]@),
            decreases positions.len() - m,
        {
            let p = positions[m];
            let c = chunks[p].duplicate();
            let ghost before = selected@;
            selected.push(c);
            proof {
                assert(fin[m as int] == p as int);
                assert(fin.take(m + 1) =~= fin.take(m as int).push(p as int));
                assert(fin.take(m + 1).map_values(|p: int| chunks@[p]@)
                    =~= fin.take(m as int).map_values(|p: int| chunks@[p]@).push(chunks@[p as int]@));
                assert(selected@.map_values(|c: Chunk| c@) =~= before.map_values(|c: Chunk| c@).push(c@));
            }
            m = m + 1;
        }
        assert(fin.take(m as int) =~= fin);
        (selected, chunks.len())
    }

    /// The positions of the chunks to deliver within `budget_tokens`, in
    /// delivery order (see [`BudgetEnforcer::select_chunks`]).
    pub fn select_positions(chunks: &Vec<Chunk>, budget_tokens: usize) -> (r: Vec<usize>)
        ensures
            r@.map_values(|p: usize| p as int) == spec_select(chunks@.map_values(|c: Chunk| c@), budget_tokens as nat),
            forall|k: int| 0 <= k < r.len() ==> r[k] < chunks.len(),
    {
        let ghost cv = chunks@.map_values(|c: Chunk| c@);
        let total = chunks.len();
        if total == 0 {
            proof {
                assert(spec_select(cv, budget_tokens as nat) =~= Seq::<int>::empty());
            }
            let empty: Vec<usize> = Vec::new();
            assert(empty@.map_values(|p: usize| p as int) =~= Seq::<int>::empty());
            return empty;
        }
        let mut scores: Vec<u64> = Vec::new();
        let mut i: usize = 0;
        while i < total
            invariant
                i <= total,
                total == chunks.len(),
                cv == chunks@.map_values(|c: Chunk| c@),
                scores@ == cv.map_values(|c: ChunkView| c.score).take(i as int),
            decreases total - i,
        {
            scores.push(chunks[i].score);
            assert(scores@ =~= cv.map_values(|c: ChunkView| c.score).take(i + 1));
            i = i + 1;
        }
        assert(scores@ =~= cv.map_values(|c: ChunkView| c.score));
        let by_score = stable_order(&scores, true);
        let ghost order = by_score@.map_values(|x: usize| x as int);
        let ghost toks = cv.map_values(|c: ChunkView| chunk_tokens(c));
        let mut picked: Vec<usize> = Vec::new();
        let mut running: usize = 0;
        let mut k: usize = 0;
        proof {
            lemma_sorted_positions(scores@, total as nat, true);
            assert(order.take(0) =~= Seq::<int>::empty());
            assert(picked@.map_values(|x: usize| x as int) =~= Seq::<int>::empty());
        }
        while k < total
            invariant
                k <= total,
                total == chunks.len(),
                total == by_score.len(),
                cv == chunks@.map_values(|c: Chunk| c@),
                toks == cv.map_values(|c: ChunkView| chunk_tokens(c)),
                order == by_score@.map_values(|x: usize| x as int),
                forall|j: int| 0 <= j < by_score.len() ==> by_score[j] < total,
                picked@.map_values(|x: usize| x as int) == greedy_pick(order.take(k as int), toks, budget_tokens as nat).0,
                running == greedy_pick(order.take(k as int), toks, budget_tokens as nat).1,
                running <= budget_tokens,
                forall|j: int| 0 <= j < picked.len() ==> picked[j] < total,
            decreases total - k,
        {
            let p = by_score[k];
            let t = count_tokens(chunks[p].text.as_str());
            proof {
                lemma_greedy_step(order, toks, budget_tokens as nat, k as int);
                assert(toks[order[k as int]] == t);
            }
            if t <= budget_tokens - running {
                picked.push(p);
                running = running + t;
                assert(picked@.map_values(|x: usize| x as int)
                    =~= greedy_pick(order.take(k as int), toks, budget_tokens as nat).0.push(order[k as int]));
            }
            k = k + 1;
        }
        assert(order.take(total as int) =~= order);
        if picked.len() == 0 {
            picked.push(by_score[0]);
            assert(picked@.map_values(|x: usize| x as int) =~= seq![order[0]]);
        }
        let ghost pk = picked@.map_values(|x: usize| x as int);
        let mut index_keys: Vec<u64> = Vec::new();
        let mut j: usize = 0;
        while j < picked.len()
            invariant
                j <= picked.len(),
                total == chunks.len(),
                cv == chunks@.map_values(|c: Chunk| c@),
                pk == picked@.map_values(|x: usize| x as int),
                forall|m: int| 0 <= m < picked.len() ==> picked[m] < total,
                index_keys@ == pk.map_values(|p: int| cv[p].index as u64).take(j as int),
            decreases picked.len() - j,
        {
            index_keys.push(chunks[picked[j]].index as u64);
            assert(index_keys@ =~= pk.map_values(|p: int| cv[p].index as u64).take(j + 1));
            j = j + 1;
        }
        assert(index_keys@ =~= pk.map_values(|p: int| cv[p].index as u64));
        let by_index = stable_order(&index_keys, false);
        let mut selected: Vec<usize> = Vec::new();
        let mut m: usize = 0;
        let ghost fin = by_index@.map_values(|x: usize| x as int).map_values(|q: int| pk[q]);
        proof {
            assert(spec_select(cv, budget_tokens as nat) == fin);
        }
        while m < by_index.len()
            invariant
                m <= by_index.len(),
                total == chunks.len(),
                pk == picked@.map_values(|x: usize| x as int),
                forall|q: int| 0 <= q < picked.len() ==> picked[q] < total,
                forall|q: int| 0 <= q < by_index.len() ==> by_index[q] < picked.len(),
                fin == by_index@.map_values(|x: usize| x as int).map_values(|q: int| pk[q]),
                selected@.map_values(|p: usize| p as int) == fin.take(m as int),
                forall|q: int| 0 <= q < selected.len() ==> selected[q] < total,
            decreases by_index.len() - m,
        {
            let q = by_index[m];
            let p = picked[q];
            assert(by_index@.map_values(|x: usize| x as int)[m as int] == q as int);
            assert(pk[q as int] == p as int);
            assert(fin[m as int] == p as int);
            let ghost before = selected@;
            selected.push(p);
            assert(selected@ == before.push(p));
            assert(selected@.map_values(|p: usize| p as int) =~= before.map_values(|p: usize| p as int).push(p as int));
            assert(fin.take(m + 1) =~= fin.take(m as int).push(p as int));
            m = m + 1;
        }
        assert(fin.take(m as int) =~= fin);
        selected
    }


    /// Joins the chunks' texts with a blank line (`"\n\n"`) between them.
    pub fn reassemble(chunks: &[Chunk]) -> (s: String)
        ensures
            s@ == join_texts(chunks@.map_values(|c: Chunk| c@.text)),
    {
        let mut s = String::new();
        let mut i: usize = 0;
        while i < chunks.len()
            invariant
                i <= chunks.len(),
                s@ == join_texts(chunks@.map_values(|c: Chunk| c@.text).take(i as int)),
            decreases chunks.len() - i,
        {
            proof {
                reveal_strlit("\n\n");
                assert(chunks@.map_values(|c: Chunk| c@.text).take(i + 1).drop_last()
                    =~= chunks@.map_values(|c: Chunk| c@.text).take(i as int));
            }
            if i > 0 {
                s.append("\n\n");
            }
            s.append(chunks[i].text.as_str());
            i = i + 1;
        }
        assert(chunks@.map_values(|c: Chunk| c@.text).take(i as int) =~= chunks@.map_values(|c: Chunk| c@.text));
        s
    }
}

/// The texts joined with `"\n\n"` between consecutive ones.
pub open spec fn join_texts(texts: Seq<Seq<char>>) -> Seq<char>
    decreases texts.len(),
{
    if texts.len() == 0 {
        Seq::empty()
    } else if texts.len() == 1 {
        texts[0]
    } else {
        join_texts(texts.drop_last()) + seq!['\n', '\n'] + texts.last()
    }
}

} // verus!

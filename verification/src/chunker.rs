//! Content chunks and the strategies that split text into them.
use vstd::prelude::*;
use vstd::string::*;
use vstd::utf8::*;
use crate::text::{to_chars, from_char_range, push_char};
use crate::textsplit::{
    Separator, split_on, split_blank, trim, trimmed_nonempty, nonempty, words, line_count,
    has_blank_line, join_with, trim_bounds, split_bounds, split_blank_bounds, bounds_within,
    has_sentence_break, split_sentences, split_sentence_bounds, ends_sentence, is_sentence_end,
};
use crate::token_count::{count_tokens, spec_count_tokens};

verus! {

/// A chunk of content with its position in the source and its relevance.
///
/// `score` is the relevance as an order key: a chunk with a larger key is
/// more relevant, equal keys are equally relevant (the scorer's scores are
/// mapped to keys in the same order).
#[derive(Debug, Clone, PartialEq)]
pub struct Chunk {
    /// The text of this chunk.
    pub text: String,
    /// Position in the original content.
    pub index: usize,
    /// Relevance order key, 0 until scored.
    pub score: u64,
}

/// The abstract value of a chunk: its characters, index and relevance key.
pub struct ChunkView {
    pub text: Seq<char>,
    pub index: usize,
    pub score: u64,
}

impl View for Chunk {
    type V = ChunkView;

    open spec fn view(&self) -> ChunkView {
        ChunkView { text: self.text@, index: self.index, score: self.score }
    }
}

impl Chunk {
    /// A chunk at `index` with relevance key 0.
    pub fn new(text: String, index: usize) -> (c: Chunk)
        ensures
            c@.text == text@,
            c@.index == index,
            c@.score == 0,
    {
        Chunk { text, index, score: 0 }
    }

    /// A copy of the chunk.
    pub fn duplicate(&self) -> (c: Chunk)
        ensures
            c@ == self@,
    {
        Chunk { text: self.text.clone(), index: self.index, score: self.score }
    }
}

/// How content is split into chunks.
#[derive(Debug, Clone, Copy, PartialEq, Eq, Structural)]
pub enum ChunkStrategy {
    /// Split on blank lines (`"\n\n"`).
    Paragraph,
    /// Split on line ends.
    Line,
    /// Split after sentence ends (`.`, `?`, `!`) that a space follows.
    Sentence,
    /// One chunk per element of a JSON array; plain text is one chunk.
    JsonElement,
    /// Windows of words of at most `tokens` tokens, each window starting
    /// `overlap` words before the previous one ended.
    FixedSize { tokens: usize, overlap: usize },
}

/// Splits text into chunks with one strategy.
pub struct ChunkSplitter {
    /// The strategy used.
    pub strategy: ChunkStrategy,
}

/// The strategy chosen for `text`: sentences when it reads as prose (a
/// `.`, `?` or `!` followed by a space), else paragraphs when it has a
/// blank line, lines when it has more than five, otherwise 200-token
/// windows that overlap by 20 words.
pub open spec fn spec_auto_strategy(text: Seq<char>) -> ChunkStrategy {
    if has_sentence_break(text) {
        ChunkStrategy::Sentence
    } else if has_blank_line(text) {
        ChunkStrategy::Paragraph
    } else if line_count(text) > 5 {
        ChunkStrategy::Line
    } else {
        ChunkStrategy::FixedSize { tokens: 200, overlap: 20 }
    }
}

/// Chunks with the given texts, numbered from 0, unscored.
pub open spec fn numbered(texts: Seq<Seq<char>>) -> Seq<ChunkView> {
    Seq::new(texts.len(), |i: int| ChunkView { text: texts[i], index: i as usize, score: 0 })
}

/// Token estimates of the words of `text`.
pub open spec fn word_tokens(text: Seq<char>) -> Seq<nat> {
    words(text).map_values(|w: Seq<char>| spec_count_tokens(encode_utf8(w)))
}

/// Where the window that starts at word `start` ends: words are added
/// while they fit in `window` tokens, the first one always.
pub open spec fn window_end(toks: Seq<nat>, window: nat, start: int, cur: int, used: nat) -> int
    decreases toks.len() - cur,
{
    if cur >= toks.len() || cur < start {
        cur
    } else if cur > start && used + toks[cur] > window {
        cur
    } else {
        window_end(toks, window, start, cur + 1, used + toks[cur])
    }
}

/// Where the window after the one over words `start..end` starts:
/// `overlap` words before `end` (not before the first word) while words
/// remain, but always past `start`, so that every window moves on.
pub open spec fn next_window_start(n: int, start: int, end: int, overlap: nat) -> int {
    let back = if overlap > 0 && end < n {
        if end >= overlap { end - overlap } else { 0 }
    } else {
        end
    };
    if back > start { back } else { start + 1 }
}

/// The word ranges of the windows from word `start` on.
pub open spec fn fixed_windows(toks: Seq<nat>, window: nat, overlap: nat, start: int) -> Seq<(int, int)>
    decreases toks.len() - start,
{
    if start >= toks.len() || start < 0 {
        Seq::empty()
    } else {
        let end = window_end(toks, window, start, start, 0);
        let next = next_window_start(toks.len() as int, start, end, overlap);
        if next < toks.len() {
            seq![(start, end)] + fixed_windows(toks, window, overlap, next)
        } else {
            seq![(start, end)]
        }
    }
}

/// A window ends past where it starts and no later than the last word.
proof fn lemma_window_end_bounds(toks: Seq<nat>, window: nat, start: int, cur: int, used: nat)
    requires
        0 <= start <= cur <= toks.len(),
    ensures
        cur <= window_end(toks, window, start, cur, used) <= toks.len(),
        cur == start && start < toks.len() ==> window_end(toks, window, start, cur, used) > start,
    decreases toks.len() - cur,
{
    if cur < toks.len() && !(cur > start && used + toks[cur] > window) {
        lemma_window_end_bounds(toks, window, start, cur + 1, used + toks[cur]);
    }
}

/// The first window starts where the split starts.
proof fn lemma_first_window(toks: Seq<nat>, window: nat, overlap: nat, start: int)
    requires
        0 <= start < toks.len(),
    ensures
        fixed_windows(toks, window, overlap, start).len() > 0,
        fixed_windows(toks, window, overlap, start)[0] == (start, window_end(toks, window, start, start, 0)),
{
}

/// Law: consecutive fixed-size windows overlap by `overlap` words. Every
/// window but the last covers at least one word and ends before the last
/// word; the next window starts `overlap` words before that end when this
/// lies past the window's own start (with no overlap, right at the end),
/// and otherwise one word after the window's start, so that splitting
/// always moves on.
pub proof fn lemma_windows_overlap(toks: Seq<nat>, window: nat, overlap: nat, start: int, k: int)
    requires
        0 <= start,
        0 <= k,
        k + 1 < fixed_windows(toks, window, overlap, start).len(),
    ensures
        ({
            let ws = fixed_windows(toks, window, overlap, start);
            let s = ws[k].0;
            let e = ws[k].1;
            &&& s < e < toks.len()
            &&& ws[k + 1].0 == if e >= overlap && e - overlap > s { e - overlap } else { s + 1 }
        }),
    decreases toks.len() - start,
{
    let ws = fixed_windows(toks, window, overlap, start);
    let n = toks.len() as int;
    let end = window_end(toks, window, start, start, 0);
    lemma_window_end_bounds(toks, window, start, start, 0);
    let next = next_window_start(n, start, end, overlap);
    assert(start < n);
    assert(next < n);
    let rest = fixed_windows(toks, window, overlap, next);
    assert(ws == seq![(start, end)] + rest);
    if k == 0 {
        lemma_first_window(toks, window, overlap, next);
        assert(ws[1] == rest[0]);
        assert(end < n);
    } else {
        assert(ws[k] == rest[k - 1]);
        assert(ws[k + 1] == rest[k]);
        lemma_windows_overlap(toks, window, overlap, next, k - 1);
    }
}

/// The texts of the fixed-size windows: their words joined by spaces.
pub open spec fn fixed_texts(text: Seq<char>, window: nat, overlap: nat) -> Seq<Seq<char>> {
    let ws = words(text);
    fixed_windows(word_tokens(text), window, overlap, 0).map_values(
        |r: (int, int)| join_with(ws.subrange(r.0, r.1), seq![' ']),
    )
}

/// What splitting `text` with `strategy` gives.
pub open spec fn spec_split(strategy: ChunkStrategy, text: Seq<char>) -> Seq<ChunkView> {
    match strategy {
        ChunkStrategy::Paragraph => numbered(trimmed_nonempty(split_blank(text))),
        ChunkStrategy::Line => numbered(trimmed_nonempty(split_on(text, Separator::Newline))),
        ChunkStrategy::Sentence => numbered(trimmed_nonempty(split_sentences(text))),
        ChunkStrategy::JsonElement => if text.len() == 0 { Seq::empty() } else { numbered(seq![text]) },
        ChunkStrategy::FixedSize { tokens, overlap } => numbered(fixed_texts(text, tokens as nat, overlap as nat)),
    }
}

/// Whether `v` holds a blank line.
fn contains_blank_line(v: &Vec<char>) -> (r: bool)
    ensures
        r == has_blank_line(v@),
{
    let mut i: usize = 0;
    while v.len() > 1 && i < v.len() - 1
        invariant
            i <= v.len(),
            forall|j: int| 0 <= j < i ==> !(#[trigger] v@[j] == '\n' && v@[j + 1] == '\n'),
        decreases v.len() - i,
    {
        if v[i] == '\n' && v[i + 1] == '\n' {
            assert(v@[i as int] == '\n');
            return true;
        }
        i = i + 1;
    }
    proof {
        assert forall|j: int| 0 <= j < v@.len() - 1 && #[trigger] v@[j] == '\n' implies v@[j + 1] != '\n' by {
            assert(!(v@[j] == '\n' && v@[j + 1] == '\n'));
        }
    }
    false
}

/// Whether `v` reads as prose: a sentence end followed by a space.
fn contains_sentence_break(v: &Vec<char>) -> (r: bool)
    ensures
        r == has_sentence_break(v@),
{
    let mut i: usize = 0;
    while v.len() > 1 && i < v.len() - 1
        invariant
            i <= v.len(),
            forall|j: int| 0 <= j < i ==> !(is_sentence_end(#[trigger] v@[j]) && v@[j + 1] == ' '),
        decreases v.len() - i,
    {
        if ends_sentence(v[i]) && v[i + 1] == ' ' {
            assert(is_sentence_end(v@[i as int]));
            return true;
        }
        i = i + 1;
    }
    proof {
        assert forall|j: int| 0 <= j < v@.len() - 1 && is_sentence_end(#[trigger] v@[j]) implies v@[j + 1] != ' ' by {
            assert(!(is_sentence_end(v@[j]) && v@[j + 1] == ' '));
        }
    }
    false
}

/// The number of lines of `v`.
fn count_lines(v: &Vec<char>) -> (n: usize)
    ensures
        n == line_count(v@),
{
    let mut n: usize = 0;
    let mut i: usize = 0;
    while i < v.len()
        invariant
            i <= v.len(),
            n == line_count(v@.take(i as int)),
            n <= i,
        decreases v.len() - i,
    {
        proof {
            let t = v@.take(i + 1);
            assert(t.drop_last() =~= v@.take(i as int));
            if i >= 1 {
                assert(t[t.len() - 2] == v@[i - 1]);
            }
        }
        if i == 0 || v[i - 1] == '\n' {
            n = n + 1;
        }
        i = i + 1;
    }
    assert(v@.take(i as int) =~= v@);
    n
}

/// The trimmed, non-empty pieces of `v` given by their bounds, numbered.
fn chunks_from_pieces(v: &Vec<char>, bounds: &Vec<(usize, usize)>) -> (r: Vec<Chunk>)
    requires
        bounds_within(bounds@, v@.len()),
    ensures
        r@.map_values(|c: Chunk| c@) == numbered(
            trimmed_nonempty(bounds@.map_values(|p: (usize, usize)| v@.subrange(p.0 as int, p.1 as int))),
        ),
{
    let ghost pieces = bounds@.map_values(|p: (usize, usize)| v@.subrange(p.0 as int, p.1 as int));
    let mut r: Vec<Chunk> = Vec::new();
    let mut k: usize = 0;
    assert(r@.map_values(|c: Chunk| c@) =~= numbered(trimmed_nonempty(pieces.take(0))));
    while k < bounds.len()
        invariant
            k <= bounds.len(),
            pieces == bounds@.map_values(|p: (usize, usize)| v@.subrange(p.0 as int, p.1 as int)),
            bounds_within(bounds@, v@.len()),
            r@.map_values(|c: Chunk| c@) == numbered(trimmed_nonempty(pieces.take(k as int))),
        decreases bounds.len() - k,
    {
        let (a, b) = bounds[k];
        let (ta, tb) = trim_bounds(v, a, b);
        proof {
            assert(pieces.take(k + 1).drop_last() =~= pieces.take(k as int));
            assert(pieces[k as int] == v@.subrange(a as int, b as int));
        }
        if ta < tb {
            let t = from_char_range(v, ta, tb);
            let idx = r.len();
            let ghost before = r@;
            let c = Chunk::new(t, idx);
            r.push(c);
            proof {
                let old_tn = trimmed_nonempty(pieces.take(k as int));
                let tn = trimmed_nonempty(pieces.take(k + 1));
                assert(tn == old_tn.push(trim(pieces[k as int])));
                assert(before.map_values(|c: Chunk| c@).len() == before.len());
                assert(numbered(old_tn).len() == old_tn.len());
                assert(idx == old_tn.len());
                assert(c@ == ChunkView { text: trim(pieces[k as int]), index: old_tn.len() as usize, score: 0 });
                assert(numbered(tn) =~= numbered(old_tn).push(c@));
                assert(r@.map_values(|c: Chunk| c@) =~= before.map_values(|c: Chunk| c@).push(c@));
            }
        } else {
            assert(trim(pieces[k as int]).len() == 0);
        }
        k = k + 1;
    }
    assert(pieces.take(k as int) =~= pieces);
    r
}

/// Every range `[a, b)` in `r` is non-empty and ends by `n`.
pub open spec fn nonempty_within(r: Seq<(usize, usize)>, n: nat) -> bool {
    forall|k: int| 0 <= k < r.len() ==> (#[trigger] r[k]).0 < r[k].1 <= n
}

/// The bounds of the non-empty pieces among `bounds`.
fn nonempty_bounds(v: &Vec<char>, bounds: &Vec<(usize, usize)>) -> (r: Vec<(usize, usize)>)
    requires
        bounds_within(bounds@, v@.len()),
    ensures
        r@.map_values(|p: (usize, usize)| v@.subrange(p.0 as int, p.1 as int)) == nonempty(
            bounds@.map_values(|p: (usize, usize)| v@.subrange(p.0 as int, p.1 as int)),
        ),
        nonempty_within(r@, v@.len()),
{
    let ghost pieces = bounds@.map_values(|p: (usize, usize)| v@.subrange(p.0 as int, p.1 as int));
    let mut r: Vec<(usize, usize)> = Vec::new();
    let mut k: usize = 0;
    assert(r@.map_values(|p: (usize, usize)| v@.subrange(p.0 as int, p.1 as int)) =~= nonempty(pieces.take(0)));
    while k < bounds.len()
        invariant
            k <= bounds.len(),
            pieces == bounds@.map_values(|p: (usize, usize)| v@.subrange(p.0 as int, p.1 as int)),
            bounds_within(bounds@, v@.len()),
            nonempty_within(r@, v@.len()),
            r@.map_values(|p: (usize, usize)| v@.subrange(p.0 as int, p.1 as int)) == nonempty(pieces.take(k as int)),
        decreases bounds.len() - k,
    {
        let (a, b) = bounds[k];
        proof {
            assert(pieces.take(k + 1).drop_last() =~= pieces.take(k as int));
            assert(pieces[k as int] == v@.subrange(a as int, b as int));
        }
        if a < b {
            let ghost before = r@;
            r.push((a, b));
            proof {
                assert(r@ == before.push((a, b)));
                assert(r@.map_values(|p: (usize, usize)| v@.subrange(p.0 as int, p.1 as int))
                    =~= nonempty(pieces.take(k as int)).push(pieces[k as int]));
            }
        }
        k = k + 1;
    }
    assert(pieces.take(k as int) =~= pieces);
    r
}

impl ChunkSplitter {
    /// A splitter with the given strategy.
    pub fn new(strategy: ChunkStrategy) -> (s: ChunkSplitter)
        ensures
            s.strategy == strategy,
    {
        ChunkSplitter { strategy }
    }

    /// One chunk per element of a JSON array, given the elements' serialized
    /// texts in order: chunk `i` holds the `i`-th text, with index `i` and
    /// relevance key 0.
    pub fn split_serialized_elements(&self, texts: &Vec<String>) -> (r: Vec<Chunk>)
        ensures
            r@.map_values(|c: Chunk| c@) == numbered(texts@.map_values(|t: String| t@)),
    {
        let ghost tv = texts@.map_values(|t: String| t@);
        let mut r: Vec<Chunk> = Vec::new();
        let mut i: usize = 0;
        assert(r@.map_values(|c: Chunk| c@) =~= numbered(tv.take(0)));
        while i < texts.len()
            invariant
                tv == texts@.map_values(|t: String| t@),
                i <= texts.len(),
                r@.map_values(|c: Chunk| c@) == numbered(tv.take(i as int)),
            decreases texts.len() - i,
        {
            let t = texts[i].clone();
            assert(t@ == tv[i as int]);
            let ghost before = r@.map_values(|c: Chunk| c@);
            let c = Chunk::new(t, i);
            r.push(c);
            assert(r@.map_values(|c: Chunk| c@) =~= before.push(c@));
            assert(numbered(tv.take(i + 1)) =~= numbered(tv.take(i as int)).push(c@));
            i = i + 1;
        }
        assert(tv.take(i as int) =~= tv);
        r
    }

    /// Chooses a strategy for `text`: sentences when it reads as prose (a
    /// `.`, `?` or `!` followed by a space), else paragraphs when it holds a
    /// blank line, lines when it has more than five, otherwise windows of
    /// 200 tokens overlapping by 20 words.
    pub fn auto(text: &str) -> (s: ChunkSplitter)
        ensures
            s.strategy == spec_auto_strategy(text@),
    {
        let v = to_chars(text);
        if contains_sentence_break(&v) {
            ChunkSplitter::new(ChunkStrategy::Sentence)
        } else if contains_blank_line(&v) {
            ChunkSplitter::new(ChunkStrategy::Paragraph)
        } else {
            let line_count = count_lines(&v);
            if line_count > 5 {
                ChunkSplitter::new(ChunkStrategy::Line)
            } else {
                ChunkSplitter::new(ChunkStrategy::FixedSize { tokens: 200, overlap: 20 })
            }
        }
    }

    /// Splits `text` into chunks with this splitter's strategy.
    pub fn split(&self, text: &str) -> (r: Vec<Chunk>)
        ensures
            r@.map_values(|c: Chunk| c@) == spec_split(self.strategy, text@),
    {
        match self.strategy {
            ChunkStrategy::Paragraph => self.split_paragraph(text),
            ChunkStrategy::Line => self.split_line(text),
            ChunkStrategy::Sentence => self.split_sentence(text),
            ChunkStrategy::JsonElement => {
                if text.is_empty() {
                    let r: Vec<Chunk> = Vec::new();
                    assert(r@.map_values(|c: Chunk| c@) =~= Seq::<ChunkView>::empty());
                    r
                } else {
                    let mut r: Vec<Chunk> = Vec::new();
                    r.push(Chunk::new(String::from_str(text), 0));
                    assert(r@.map_values(|c: Chunk| c@) =~= numbered(seq![text@]));
                    r
                }
            },
            ChunkStrategy::FixedSize { tokens, overlap } => self.split_fixed_size(text, tokens, overlap),
        }
    }

    /// Paragraphs: pieces between blank lines, trimmed, empty ones dropped.
    fn split_paragraph(&self, text: &str) -> (r: Vec<Chunk>)
        ensures
            r@.map_values(|c: Chunk| c@) == numbered(trimmed_nonempty(split_blank(text@))),
    {
        let v = to_chars(text);
        let bounds = split_blank_bounds(&v);
        chunks_from_pieces(&v, &bounds)
    }

    /// Lines: pieces between line ends, trimmed, empty ones dropped.
    fn split_line(&self, text: &str) -> (r: Vec<Chunk>)
        ensures
            r@.map_values(|c: Chunk| c@) == numbered(trimmed_nonempty(split_on(text@, Separator::Newline))),
    {
        let v = to_chars(text);
        let bounds = split_bounds(&v, Separator::Newline);
        chunks_from_pieces(&v, &bounds)
    }

    /// Sentences: pieces ending at a sentence end that a space follows,
    /// trimmed, empty ones dropped.
    fn split_sentence(&self, text: &str) -> (r: Vec<Chunk>)
        ensures
            r@.map_values(|c: Chunk| c@) == numbered(trimmed_nonempty(split_sentences(text@))),
    {
        let v = to_chars(text);
        let bounds = split_sentence_bounds(&v);
        chunks_from_pieces(&v, &bounds)
    }

    /// Windows of words: each takes words while they fit in `window`
    /// tokens (at least one), joined by spaces; the next window starts
    /// `overlap` words before this one ended.
    fn split_fixed_size(&self, text: &str, window: usize, overlap: usize) -> (r: Vec<Chunk>)
        ensures
            r@.map_values(|c: Chunk| c@) == numbered(fixed_texts(text@, window as nat, overlap as nat)),
    {
        let v = to_chars(text);
        let pieces = split_bounds(&v, Separator::Whitespace);
        let wb = nonempty_bounds(&v, &pieces);
        let ghost ws = words(text@);
        assert(wb@.map_values(|p: (usize, usize)| v@.subrange(p.0 as int, p.1 as int)) == ws);
        let mut word_strs: Vec<String> = Vec::new();
        let mut toks: Vec<usize> = Vec::new();
        let mut i: usize = 0;
        while i < wb.len()
            invariant
                i <= wb.len(),
                v@ == text@,
                ws == wb@.map_values(|p: (usize, usize)| v@.subrange(p.0 as int, p.1 as int)),
                nonempty_within(wb@, v@.len()),
                word_strs@.map_values(|w: String| w@) == ws.take(i as int),
                toks@.map_values(|t: usize| t as nat) == ws.take(i as int).map_values(
                    |w: Seq<char>| spec_count_tokens(encode_utf8(w)),
                ),
            decreases wb.len() - i,
        {
            let (a, b) = wb[i];
            let w = from_char_range(&v, a, b);
            let t = count_tokens(w.as_str());
            proof {
                assert(ws[i as int] == w@);
            }
            let ghost wv = w@;
            let ghost ws_before = word_strs@;
            let ghost toks_before = toks@;
            word_strs.push(w);
            toks.push(t);
            proof {
                assert(ws.take(i + 1) =~= ws.take(i as int).push(wv));
                assert(t as nat == spec_count_tokens(encode_utf8(wv)));
                assert(toks@ == toks_before.push(t));
                assert(word_strs@.map_values(|w: String| w@) =~= ws_before.map_values(|w: String| w@).push(wv));
                assert(toks@.map_values(|t: usize| t as nat) =~= toks_before.map_values(|t: usize| t as nat).push(t as nat));
                assert(word_strs@.map_values(|w: String| w@) =~= ws.take(i + 1));
                assert(toks@.map_values(|t: usize| t as nat) =~= ws.take(i + 1).map_values(
                    |w: Seq<char>| spec_count_tokens(encode_utf8(w)),
                ));
            }
            i = i + 1;
        }
        assert(ws.take(i as int) =~= ws);
        let ghost tk = word_tokens(text@);
        assert(toks@.map_values(|t: usize| t as nat) == tk);
        let n = toks.len();
        let ghost all = fixed_windows(tk, window as nat, overlap as nat, 0);
        let ghost texts = all.map_values(|rg: (int, int)| join_with(ws.subrange(rg.0, rg.1), seq![' ']));
        let mut r: Vec<Chunk> = Vec::new();
        let mut start: usize = 0;
        let mut k: usize = 0;
        proof {
            assert(all.skip(0) =~= all);
            assert(r@.map_values(|c: Chunk| c@) =~= numbered(texts.take(0)));
        }
        while start < n
            invariant
                n == toks.len(),
                n == tk.len(),
                n == word_strs.len(),
                toks@.map_values(|t: usize| t as nat) == tk,
                word_strs@.map_values(|w: String| w@) == ws,
                texts == all.map_values(|rg: (int, int)| join_with(ws.subrange(rg.0, rg.1), seq![' '])),
                k <= all.len(),
                start <= n,
                fixed_windows(tk, window as nat, overlap as nat, start as int) == all.skip(k as int),
                r@.map_values(|c: Chunk| c@) == numbered(texts.take(k as int)),
            decreases n - start,
        {
            let mut cur: usize = start;
            let mut used: usize = 0;
            while cur < n && !(cur > start && (used > window || toks[cur] > window - used))
                invariant
                    n == toks.len(),
                    toks@.map_values(|t: usize| t as nat) == tk,
                    start < n,
                    start <= cur <= n,
                    cur == start ==> used == 0,
                    used <= window || cur == start + 1,
                    window_end(tk, window as nat, start as int, cur as int, used as nat)
                        == window_end(tk, window as nat, start as int, start as int, 0),
                decreases n - cur,
            {
                assert(tk[cur as int] == toks[cur as int] as nat);
                used = used + toks[cur];
                cur = cur + 1;
            }
            let end = cur;
            proof {
                if cur < n {
                    assert(tk[cur as int] == toks[cur as int] as nat);
                }
                assert(end as int == window_end(tk, window as nat, start as int, start as int, 0));
            }
            let mut text_k = String::new();
            let mut j: usize = start;
            proof {
                assert(ws.subrange(start as int, start as int) =~= Seq::<Seq<char>>::empty());
            }
            while j < end
                invariant
                    start <= j <= end <= n,
                    n == word_strs.len(),
                    word_strs@.map_values(|w: String| w@) == ws,
                    ws.len() == n,
                    text_k@ == join_with(ws.subrange(start as int, j as int), seq![' ']),
                decreases end - j,
            {
                proof {
                    reveal_strlit(" ");
                    let sub = ws.subrange(start as int, j + 1);
                    assert(sub.drop_last() =~= ws.subrange(start as int, j as int));
                    assert(sub.last() == ws[j as int]);
                    assert(ws[j as int] == word_strs[j as int]@);
                    if j == start {
                        assert(sub =~= seq![ws[j as int]]);
                    }
                }
                if j > start {
                    push_char(&mut text_k, ' ');
                }
                text_k.append(word_strs[j].as_str());
                proof {
                    let sub = ws.subrange(start as int, j + 1);
                    if j > start {
                        assert(text_k@ =~= join_with(sub.drop_last(), seq![' ']) + seq![' '] + sub.last());
                    } else {
                        assert(text_k@ =~= sub[0]);
                    }
                }
                j = j + 1;
            }
            let ghost before = r@;
            let ghost tv = text_k@;
            let c = Chunk::new(text_k, k);
            r.push(c);
            let back = if overlap > 0 && end < n { end.saturating_sub(overlap) } else { end };
            let next = if back > start { back } else { start + 1 };
            proof {
                let rest = fixed_windows(tk, window as nat, overlap as nat, next as int);
                assert(next as int == next_window_start(n as int, start as int, end as int, overlap as nat));
                assert(all.skip(k as int) =~= seq![(start as int, end as int)] + rest);
                assert(all.skip(k as int).len() >= 1);
                assert(k < all.len());
                assert(all.skip(k as int)[0] == all[k as int]);
                assert(all[k as int] == (start as int, end as int));
                assert(all.skip(k + 1) =~= all.skip(k as int).drop_first());
                assert(all.skip(k + 1) =~= rest);
                assert(texts[k as int] == join_with(ws.subrange(start as int, end as int), seq![' ']));
                assert(texts.take(k + 1) =~= texts.take(k as int).push(texts[k as int]));
                assert(tv == texts[k as int]);
                assert(c@ == ChunkView { text: texts[k as int], index: k, score: 0 });
                assert(numbered(texts.take(k + 1)) =~= numbered(texts.take(k as int)).push(c@));
                assert(before.map_values(|c: Chunk| c@).len() == before.len());
                assert(r@.map_values(|c: Chunk| c@) =~= before.map_values(|c: Chunk| c@).push(c@));
            }
            start = next;
            k = r.len();
        }
        proof {
            assert(all.skip(k as int).len() == 0);
            assert(texts.take(k as int) =~= texts);
        }
        r
    }

}


} // verus!

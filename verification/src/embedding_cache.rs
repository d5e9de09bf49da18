//! A cache of embeddings keyed by the SHA-256 digest of the embedded text.
use vstd::prelude::*;
use vstd::string::*;
use vstd::utf8::*;
use crate::assoc::{assoc_map, lemma_assoc_absent, lemma_assoc_last, lemma_assoc_push};
use crate::dedup::{sha256, sha256_digest};
use crate::text::{from_chars, str_eq};

verus! {

/// The lower-case hexadecimal digit for `n` (below 16).
pub open spec fn hex_digit(n: int) -> char {
    if n < 10 { (48 + n) as char } else { (87 + n) as char }
}

/// Bytes as lower-case hexadecimal, two digits per byte, high digit first.
pub open spec fn hex_lower(bytes: Seq<u8>) -> Seq<char>
    decreases bytes.len(),
{
    if bytes.len() == 0 {
        Seq::empty()
    } else {
        hex_lower(bytes.drop_last()) + seq![hex_digit(bytes.last() as int / 16), hex_digit(bytes.last() as int % 16)]
    }
}

/// The key of a text: the hexadecimal SHA-256 digest of its UTF-8 bytes.
pub open spec fn spec_cache_key(text: Seq<char>) -> Seq<char> {
    hex_lower(sha256(encode_utf8(text)))
}

fn hex_char(n: u8) -> (c: char)
    requires
        n < 16,
    ensures
        c == hex_digit(n as int),
{
    if n < 10 {
        (48 + n) as char
    } else {
        (87 + n) as char
    }
}

/// The key under which the embedding of `text` is cached.
pub fn cache_key(text: &str) -> (k: String)
    ensures
        k@ == spec_cache_key(text@),
{
    let digest = sha256_digest(text.as_bytes());
    let mut out: Vec<char> = Vec::new();
    let mut i: usize = 0;
    while i < 32
        invariant
            digest@.len() == 32,
            i <= 32,
            out@ == hex_lower(digest@.take(i as int)),
        decreases 32 - i,
    {
        let b = digest[i];
        out.push(hex_char(b / 16));
        out.push(hex_char(b % 16));
        proof {
            assert(digest@.take(i + 1).drop_last() =~= digest@.take(i as int));
            assert(digest@.take(i + 1).last() == b);
        }
        i = i + 1;
    }
    assert(digest@.take(32) =~= digest@);
    from_chars(&out)
}

/// Embeddings by key; one entry per key.
pub struct EmbeddingCache<V> {
    entries: Vec<(String, V)>,
}

impl<V> EmbeddingCache<V> {
    /// The entries as (key, embedding) pairs.
    pub closed spec fn pairs(&self) -> Seq<(Seq<char>, V)> {
        self.entries@.map_values(|e: (String, V)| (e.0@, e.1))
    }

    /// Key to embedding.
    pub open spec fn cached(&self) -> Map<Seq<char>, V> {
        assoc_map(self.pairs())
    }

    /// No key has two entries.
    pub open spec fn wf(&self) -> bool {
        forall|i: int, j: int| 0 <= i < j < self.pairs().len() ==> self.pairs()[i].0 != self.pairs()[j].0
    }

    /// An empty cache.
    pub fn new() -> (c: Self)
        ensures
            c.wf(),
            c.cached() == Map::<Seq<char>, V>::empty(),
    {
        let c = EmbeddingCache { entries: Vec::new() };
        assert(c.pairs() =~= Seq::<(Seq<char>, V)>::empty());
        c
    }

    fn position(&self, key: &str) -> (r: Option<usize>)
        ensures
            match r {
                Some(i) => i < self.pairs().len() && self.pairs()[i as int].0 == key@,
                None => forall|j: int| 0 <= j < self.pairs().len() ==> self.pairs()[j].0 != key@,
            },
    {
        let mut i: usize = 0;
        while i < self.entries.len()
            invariant
                i <= self.entries.len(),
                self.pairs().len() == self.entries.len(),
                forall|j: int| 0 <= j < i ==> self.pairs()[j].0 != key@,
            decreases self.entries.len() - i,
        {
            assert(self.pairs()[i as int].0 == self.entries@[i as int].0@);
            if str_eq(self.entries[i].0.as_str(), key) {
                return Some(i);
            }
            i = i + 1;
        }
        None
    }

    /// The embedding cached under `key`, if any.
    pub fn get_keyed(&self, key: &str) -> (r: Option<&V>)
        requires
            self.wf(),
        ensures
            match r {
                Some(v) => self.cached().contains_key(key@) && self.cached()[key@] == *v,
                None => !self.cached().contains_key(key@),
            },
    {
        match self.position(key) {
            Some(i) => {
                proof {
                    lemma_assoc_last(self.pairs(), i as int);
                }
                assert(self.pairs()[i as int].1 == self.entries@[i as int].1);
                Some(&self.entries[i].1)
            },
            None => {
                proof {
                    lemma_assoc_absent(self.pairs(), key@);
                }
                None
            },
        }
    }

    /// The cached embedding of `text`, if any.
    pub fn get(&self, text: &str) -> (r: Option<&V>)
        requires
            self.wf(),
        ensures
            match r {
                Some(v) => self.cached().contains_key(spec_cache_key(text@))
                    && self.cached()[spec_cache_key(text@)] == *v,
                None => !self.cached().contains_key(spec_cache_key(text@)),
            },
    {
        let key = cache_key(text);
        self.get_keyed(key.as_str())
    }

    /// Caches `embedding` under `key`, replacing what was there.
    pub fn insert_keyed(&mut self, key: String, embedding: V)
        requires
            old(self).wf(),
        ensures
            final(self).wf(),
            final(self).cached() == old(self).cached().insert(key@, embedding),
    {
        let ghost p0 = self.pairs();
        let ghost k = key@;
        match self.position(key.as_str()) {
            Some(i) => {
                self.entries.remove(i);
                self.entries.insert(i, (key, embedding));
                proof {
                    assert(self.pairs() =~= p0.update(i as int, (k, embedding)));
                    lemma_assoc_replace(p0, i as int, embedding);
                }
            },
            None => {
                self.entries.push((key, embedding));
                proof {
                    assert(self.pairs() =~= p0.push((k, embedding)));
                    lemma_assoc_push(p0, k, embedding);
                }
            },
        }
    }

    /// Caches `embedding` as the embedding of `text`.
    pub fn insert(&mut self, text: &str, embedding: V)
        requires
            old(self).wf(),
        ensures
            final(self).wf(),
            final(self).cached() == old(self).cached().insert(spec_cache_key(text@), embedding),
    {
        let key = cache_key(text);
        self.insert_keyed(key, embedding);
    }

    /// The number of cached embeddings.
    pub fn len(&self) -> (n: usize)
        requires
            self.wf(),
        ensures
            n == self.cached().len(),
    {
        proof {
            lemma_distinct_len(self.pairs());
        }
        self.entries.len()
    }

    /// Whether nothing is cached.
    pub fn is_empty(&self) -> (r: bool)
        requires
            self.wf(),
        ensures
            r == (self.cached().len() == 0),
    {
        self.len() == 0
    }

    /// The entries, key first, one per key.
    pub fn keyed_entries(&self) -> (r: &Vec<(String, V)>)
        ensures
            r@.map_values(|e: (String, V)| (e.0@, e.1)) == self.pairs(),
    {
        &self.entries
    }
}

/// Replacing the value of the only pair with a key replaces it in the map.
proof fn lemma_assoc_replace<V>(s: Seq<(Seq<char>, V)>, i: int, v: V)
    requires
        0 <= i < s.len(),
        forall|a: int, b: int| 0 <= a < b < s.len() ==> s[a].0 != s[b].0,
    ensures
        assoc_map(s.update(i, (s[i].0, v))) == assoc_map(s).insert(s[i].0, v),
    decreases s.len(),
{
    let t = s.update(i, (s[i].0, v));
    if i == s.len() - 1 {
        assert(t.drop_last() =~= s.drop_last());
        lemma_assoc_absent(s.drop_last(), s[i].0);
        assert(assoc_map(t) =~= assoc_map(s).insert(s[i].0, v));
    } else {
        lemma_assoc_replace(s.drop_last(), i, v);
        assert(t.drop_last() =~= s.drop_last().update(i, (s[i].0, v)));
        assert(t.last() == s.last());
        assert(s.last().0 != s[i].0);
        assert(assoc_map(t) =~= assoc_map(s).insert(s[i].0, v));
    }
}

/// With distinct keys, the map has as many keys as there are pairs.
proof fn lemma_distinct_len<V>(s: Seq<(Seq<char>, V)>)
    requires
        forall|a: int, b: int| 0 <= a < b < s.len() ==> s[a].0 != s[b].0,
    ensures
        assoc_map(s).dom().finite(),
        assoc_map(s).len() == s.len(),
    decreases s.len(),
{
    if s.len() > 0 {
        lemma_distinct_len(s.drop_last());
        lemma_assoc_absent(s.drop_last(), s.last().0);
    }
}

} // verus!

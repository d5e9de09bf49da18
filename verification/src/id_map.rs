//! Bidirectional mapping between client request ids and the hub's own
//! internal ids (`scp-{8 hex digits}-{counter}`).
use vstd::prelude::*;
use vstd::string::*;
use crate::assoc::{assoc_map, without_key, lemma_assoc_push, lemma_assoc_last, lemma_assoc_absent, lemma_assoc_without, lemma_without_step};
use crate::numfmt::{digits, zero_pad, lemma_padded_digits_injective, push_digits, push_zero_padded};
use crate::protocol::{RequestId, RequestIdView};

verus! {

/// An internal request id.
#[derive(Debug, Clone, PartialEq, Eq, Hash)]
pub struct InternalId(pub String);

impl InternalId {
    /// The id's text.
    pub fn as_str(&self) -> (s: &str)
        ensures
            s@ == self.0@,
    {
        self.0.as_str()
    }
}

/// Multiplier that scatters the counter over the hex part of an id.
pub const ID_MIX: u64 = 0x9e3779b97f4a7c15u64;

/// The scattered counter whose leading hex digits appear in the id.
pub open spec fn id_mix(count: u64) -> u64 {
    count.wrapping_mul(ID_MIX)
}

/// The text of the internal id made from counter value `count`:
/// `scp-`, the first 8 hex digits of the scattered counter (zero-padded to
/// at least 8), `-`, and the counter in decimal, zero-padded to 4 digits.
pub open spec fn internal_id_text(count: u64) -> Seq<char> {
    seq!['s', 'c', 'p', '-'] + zero_pad(digits(id_mix(count) as nat, 16), 8).take(8) + seq!['-']
        + zero_pad(digits(count as nat, 10), 4)
}

/// Ids made from different counter values are different.
pub proof fn lemma_internal_ids_distinct(a: u64, b: u64)
    requires
        a != b,
    ensures
        internal_id_text(a) != internal_id_text(b),
{
    let ta = internal_id_text(a);
    let tb = internal_id_text(b);
    let ha = zero_pad(digits(id_mix(a) as nat, 16), 8);
    let hb = zero_pad(digits(id_mix(b) as nat, 16), 8);
    assert(ha.len() >= 8);
    assert(hb.len() >= 8);
    assert(ta.skip(13) =~= zero_pad(digits(a as nat, 10), 4));
    assert(tb.skip(13) =~= zero_pad(digits(b as nat, 10), 4));
    if ta == tb {
        lemma_padded_digits_injective(a as nat, b as nat, 10, 4);
    }
}

/// The ids that successive calls of `IdMap::generate` hand out, the first
/// made from counter value `start`.
pub open spec fn generated_ids(start: u64, n: nat) -> Seq<Seq<char>> {
    Seq::new(n, |k: int| internal_id_text((start + k) as u64))
}

/// Ids handed out by successive calls never repeat, as long as the counter
/// does not wrap around.
pub proof fn lemma_generated_ids_distinct(start: u64, n: nat)
    requires
        start + n <= u64::MAX + 1,
    ensures
        generated_ids(start, n).no_duplicates(),
{
    let ids = generated_ids(start, n);
    assert forall|k: int, l: int| 0 <= k < ids.len() && 0 <= l < ids.len() && k != l implies ids[k] != ids[l] by {
        lemma_internal_ids_distinct((start + k) as u64, (start + l) as u64);
    }
}

/// Law: a fresh map (`IdMap::new` starts its counter at 0, and each
/// `generate` hands out `internal_id_text` of the counter and advances it
/// by one) hands out, over its first `n` calls, the ids
/// `internal_id_text(0)`, ..., `internal_id_text(n - 1)`: each is `scp-`,
/// eight hex digits and `-` followed by the call's number (from 0), padded
/// to four digits; and no two of them are equal, whatever client ids the
/// calls were for.
pub proof fn lemma_fresh_map_ids(n: nat)
    requires
        n <= u64::MAX + 1,
    ensures
        generated_ids(0, n).no_duplicates(),
        forall|j: int| 0 <= j < n ==> {
            let t = #[trigger] generated_ids(0, n)[j];
            &&& t == internal_id_text(j as u64)
            &&& t.take(4) == seq!['s', 'c', 'p', '-']
            &&& t[12] == '-'
            &&& t.skip(13) == zero_pad(digits(j as nat, 10), 4)
        },
{
    lemma_generated_ids_distinct(0, n);
    assert forall|j: int| 0 <= j < n implies {
        let t = #[trigger] generated_ids(0, n)[j];
        &&& t == internal_id_text(j as u64)
        &&& t.take(4) == seq!['s', 'c', 'p', '-']
        &&& t[12] == '-'
        &&& t.skip(13) == zero_pad(digits(j as nat, 10), 4)
    } by {
        let t = generated_ids(0, n)[j];
        let h = zero_pad(digits(id_mix(j as u64) as nat, 16), 8);
        assert(h.len() >= 8);
        assert(t.take(4) =~= seq!['s', 'c', 'p', '-']);
        assert(t.skip(13) =~= zero_pad(digits(j as u64 as nat, 10), 4));
    }
}

/// The two maps are inverse to each other: `n` maps `i` to `c` exactly when
/// `m` maps `c` to `i`.
pub open spec fn maps_consistent(m: Map<RequestIdView, Seq<char>>, n: Map<Seq<char>, RequestIdView>) -> bool {
    forall|i: Seq<char>, c: RequestIdView|
        #![trigger n.contains_key(i), m.contains_key(c)]
        (n.contains_key(i) && n[i] == c) <==> (m.contains_key(c) && m[c] == i)
}

/// Mapping client id `c` to a fresh internal id `id`, and dropping the
/// internal id `c` had before, keeps two inverse maps inverse.
proof fn lemma_generate_consistent(
    m: Map<RequestIdView, Seq<char>>,
    n: Map<Seq<char>, RequestIdView>,
    c: RequestIdView,
    id: Seq<char>,
)
    requires
        maps_consistent(m, n),
        !n.contains_key(id),
    ensures
        maps_consistent(
            m.insert(c, id),
            (if m.contains_key(c) { n.remove(m[c]) } else { n }).insert(id, c),
        ),
{
    let m2 = m.insert(c, id);
    let n2 = (if m.contains_key(c) { n.remove(m[c]) } else { n }).insert(id, c);
    assert forall|i: Seq<char>, d: RequestIdView|
        #![trigger n2.contains_key(i), m2.contains_key(d)]
        (n2.contains_key(i) && n2[i] == d) <==> (m2.contains_key(d) && m2[d] == i) by {
        if n.contains_key(i) {
            let ci = n[i];
            assert(n.contains_key(i) && m.contains_key(ci));
            assert(m.contains_key(ci) && m[ci] == i);
        }
        if m.contains_key(d) {
            let md = m[d];
            assert(n.contains_key(md) && m.contains_key(d));
            assert(n.contains_key(md) && n[md] == d);
        }
        if m.contains_key(c) {
            let mc = m[c];
            assert(n.contains_key(mc) && m.contains_key(c));
            assert(n.contains_key(mc) && n[mc] == c);
        }
    }
}

/// Bidirectional request id mapping.
pub struct IdMap {
    client_to_internal: Vec<(RequestId, InternalId)>,
    internal_to_client: Vec<(InternalId, RequestId)>,
    counter: u64,
    session_id: String,
}

/// The abstract value of a client-to-internal pair.
pub open spec fn c2i_pair(e: (RequestId, InternalId)) -> (RequestIdView, Seq<char>) {
    (e.0@, e.1.0@)
}

/// The abstract value of an internal-to-client pair.
pub open spec fn i2c_pair(e: (InternalId, RequestId)) -> (Seq<char>, RequestIdView) {
    (e.0.0@, e.1@)
}

impl IdMap {
    /// The pairs client id to internal id, in insertion order.
    pub closed spec fn client_pairs(&self) -> Seq<(RequestIdView, Seq<char>)> {
        self.client_to_internal@.map_values(|e: (RequestId, InternalId)| c2i_pair(e))
    }

    /// The pairs internal id to client id, in insertion order.
    pub closed spec fn internal_pairs(&self) -> Seq<(Seq<char>, RequestIdView)> {
        self.internal_to_client@.map_values(|e: (InternalId, RequestId)| i2c_pair(e))
    }

    /// Client id to internal id.
    pub open spec fn client_map(&self) -> Map<RequestIdView, Seq<char>> {
        assoc_map(self.client_pairs())
    }

    /// Internal id to client id.
    pub open spec fn internal_map(&self) -> Map<Seq<char>, RequestIdView> {
        assoc_map(self.internal_pairs())
    }

    /// The counter value the next generated id will be made from.
    pub closed spec fn next_count(&self) -> u64 {
        self.counter
    }

    /// The session this map belongs to.
    pub closed spec fn session(&self) -> Seq<char> {
        self.session_id@
    }

    /// Every internal id in the map was made from a counter value below the
    /// current one.
    pub open spec fn wf(&self) -> bool {
        forall|k: Seq<char>|
            #![trigger self.internal_map().contains_key(k)]
            self.internal_map().contains_key(k) ==> exists|n: u64|
                n < self.next_count() && k == #[trigger] internal_id_text(n)
    }

    /// An empty map for a session.
    pub fn new(session_id: String) -> (m: IdMap)
        ensures
            m.client_map() == Map::<RequestIdView, Seq<char>>::empty(),
            m.internal_map() == Map::<Seq<char>, RequestIdView>::empty(),
            m.next_count() == 0,
            m.session() == session_id@,
            m.wf(),
    {
        let m = IdMap {
            client_to_internal: Vec::new(),
            internal_to_client: Vec::new(),
            counter: 0,
            session_id,
        };
        assert(m.client_pairs() =~= Seq::empty());
        assert(m.internal_pairs() =~= Seq::empty());
        m
    }

    /// The two directions agree: an internal id maps to a client id exactly
    /// when that client id maps back to it.
    pub open spec fn consistent(&self) -> bool {
        maps_consistent(self.client_map(), self.internal_map())
    }

    /// Makes the internal id for the current counter value, advances the
    /// counter (wrapping) and records the mapping in both directions. A
    /// client id that was already mapped loses its earlier internal id, so
    /// that the two directions stay one-to-one.
    pub fn generate(&mut self, client_id: RequestId) -> (id: InternalId)
        ensures
            id.0@ == internal_id_text(old(self).next_count()),
            final(self).next_count() == old(self).next_count().wrapping_add(1),
            final(self).client_map() == old(self).client_map().insert(client_id@, id.0@),
            final(self).internal_map() == (if old(self).client_map().contains_key(client_id@) {
                old(self).internal_map().remove(old(self).client_map()[client_id@])
            } else {
                old(self).internal_map()
            }).insert(id.0@, client_id@),
            final(self).session() == old(self).session(),
            old(self).wf() ==> !old(self).internal_map().contains_key(id.0@),
            old(self).wf() && old(self).next_count() < u64::MAX ==> final(self).wf(),
            old(self).wf() && old(self).consistent() ==> final(self).consistent(),
    {
        let stale = match self.get_internal(&client_id) {
            Some(o) => Some(InternalId(o.0.clone())),
            None => None,
        };
        match stale {
            Some(o) => {
                let ghost s = self.internal_pairs();
                let kept = drop_internal(&self.internal_to_client, &o);
                self.internal_to_client = kept;
                proof {
                    lemma_assoc_without(s, o.0@);
                }
            },
            None => {},
        }
        let ghost mid_internal = self.internal_map();
        let count = self.counter;
        self.counter = count.wrapping_add(1);
        let mixed = count.wrapping_mul(ID_MIX);
        let mut hex = String::new();
        push_zero_padded_digits(&mut hex, mixed, 16, 8);
        let hex8 = hex.as_str().substring_char(0, 8);
        let mut text = String::from_str("scp-");
        text.append(hex8);
        text.append("-");
        push_zero_padded_digits(&mut text, count, 10, 4);
        proof {
            reveal_strlit("scp-");
            reveal_strlit("-");
            assert(text@ =~= internal_id_text(count));
        }
        let id = InternalId(text);
        self.put_client(client_id.duplicate(), InternalId(id.0.clone()));
        self.put_internal(InternalId(id.0.clone()), client_id);
        proof {
            if old(self).wf() {
                if old(self).internal_map().contains_key(id.0@) {
                    let n = choose|n: u64| n < count && id.0@ == internal_id_text(n);
                    lemma_internal_ids_distinct(n, count);
                }
                if old(self).consistent() {
                    lemma_generate_consistent(old(self).client_map(), old(self).internal_map(), client_id@, id.0@);
                }
                if count < u64::MAX {
                    assert forall|k: Seq<char>|
                        #![trigger self.internal_map().contains_key(k)]
                        self.internal_map().contains_key(k) implies exists|n: u64|
                            n < self.next_count() && k == #[trigger] internal_id_text(n) by {
                        if k != id.0@ {
                            assert(mid_internal.contains_key(k));
                            assert(old(self).internal_map().contains_key(k));
                            let n = choose|n: u64| n < count && k == internal_id_text(n);
                            assert(n < self.next_count() && k == internal_id_text(n));
                        } else {
                            assert(count < self.next_count() && k == internal_id_text(count));
                        }
                    }
                }
            }
        }
        id
    }

    /// Replaces the pair for `client_id` in the client direction.
    fn put_client(&mut self, client_id: RequestId, id: InternalId)
        ensures
            final(self).client_map() == old(self).client_map().insert(client_id@, id.0@),
            final(self).internal_to_client == old(self).internal_to_client,
            final(self).counter == old(self).counter,
            final(self).session_id == old(self).session_id,
    {
        let ghost k = client_id@;
        let ghost s = self.client_pairs();
        let mut kept: Vec<(RequestId, InternalId)> = Vec::new();
        let mut i: usize = 0;
        while i < self.client_to_internal.len()
            invariant
                i <= self.client_to_internal.len(),
                s == self.client_pairs(),
                s.len() == self.client_to_internal.len(),
                k == client_id@,
                kept@.map_values(|e: (RequestId, InternalId)| c2i_pair(e)) == without_key(s.take(i as int), k),
            decreases self.client_to_internal.len() - i,
        {
            proof {
                lemma_without_step(s, k, i as int);
            }
            let e = &self.client_to_internal[i];
            assert(s[i as int] == c2i_pair(*e));
            if !e.0.same_as(&client_id) {
                kept.push((e.0.duplicate(), InternalId(e.1.0.clone())));
                assert(kept@.map_values(|e: (RequestId, InternalId)| c2i_pair(e)) =~= without_key(s.take(i as int), k).push(s[i as int]));
            }
            i = i + 1;
        }
        assert(s.take(s.len() as int) =~= s);
        kept.push((client_id, id));
        proof {
            let w = without_key(s, k);
            assert(kept@.map_values(|e: (RequestId, InternalId)| c2i_pair(e)) =~= w.push((k, id.0@)));
            lemma_assoc_push(w, k, id.0@);
            lemma_assoc_without(s, k);
            assert(assoc_map(s).remove(k).insert(k, id.0@) =~= assoc_map(s).insert(k, id.0@));
        }
        self.client_to_internal = kept;
    }

    /// Replaces the pair for `id` in the internal direction.
    fn put_internal(&mut self, id: InternalId, client_id: RequestId)
        ensures
            final(self).internal_map() == old(self).internal_map().insert(id.0@, client_id@),
            final(self).client_to_internal == old(self).client_to_internal,
            final(self).counter == old(self).counter,
            final(self).session_id == old(self).session_id,
    {
        let ghost k = id.0@;
        let ghost s = self.internal_pairs();
        let kept = drop_internal(&self.internal_to_client, &id);
        let mut kept = kept;
        kept.push((id, client_id));
        proof {
            let w = without_key(s, k);
            assert(kept@.map_values(|e: (InternalId, RequestId)| i2c_pair(e)) =~= w.push((k, client_id@)));
            lemma_assoc_push(w, k, client_id@);
            lemma_assoc_without(s, k);
            assert(assoc_map(s).remove(k).insert(k, client_id@) =~= assoc_map(s).insert(k, client_id@));
        }
        self.internal_to_client = kept;
    }

    /// Looks up the client id for an internal id.
    pub fn get_client(&self, internal: &InternalId) -> (r: Option<&RequestId>)
        ensures
            match r {
                Some(c) => self.internal_map().contains_key(internal.0@) && self.internal_map()[internal.0@] == c@,
                None => !self.internal_map().contains_key(internal.0@),
            },
    {
        let ghost s = self.internal_pairs();
        let ghost k = internal.0@;
        let mut i: usize = self.internal_to_client.len();
        while i > 0
            invariant
                i <= self.internal_to_client.len(),
                s == self.internal_pairs(),
                s.len() == self.internal_to_client.len(),
                k == internal.0@,
                forall|j: int| i <= j < s.len() ==> s[j].0 != k,
            decreases i,
        {
            let e = &self.internal_to_client[i - 1];
            assert(s[i - 1] == i2c_pair(*e));
            if e.0.0 == internal.0 {
                proof {
                    lemma_assoc_last(s, i - 1);
                }
                return Some(&e.1);
            }
            i = i - 1;
        }
        proof {
            lemma_assoc_absent(s, k);
        }
        None
    }

    /// Looks up the internal id for a client id.
    pub fn get_internal(&self, client: &RequestId) -> (r: Option<&InternalId>)
        ensures
            match r {
                Some(id) => self.client_map().contains_key(client@) && self.client_map()[client@] == id.0@,
                None => !self.client_map().contains_key(client@),
            },
    {
        let ghost s = self.client_pairs();
        let ghost k = client@;
        let mut i: usize = self.client_to_internal.len();
        while i > 0
            invariant
                i <= self.client_to_internal.len(),
                s == self.client_pairs(),
                s.len() == self.client_to_internal.len(),
                k == client@,
                forall|j: int| i <= j < s.len() ==> s[j].0 != k,
            decreases i,
        {
            let e = &self.client_to_internal[i - 1];
            assert(s[i - 1] == c2i_pair(*e));
            if e.0.same_as(client) {
                proof {
                    lemma_assoc_last(s, i - 1);
                }
                return Some(&e.1);
            }
            i = i - 1;
        }
        proof {
            lemma_assoc_absent(s, k);
        }
        None
    }

    /// Removes the mapping of an internal id, and the client id's mapping
    /// with it; returns the client id it was mapped to.
    pub fn remove(&mut self, internal: &InternalId) -> (r: Option<RequestId>)
        ensures
            match r {
                Some(c) => {
                    &&& old(self).internal_map().contains_key(internal.0@)
                    &&& old(self).internal_map()[internal.0@] == c@
                    &&& final(self).internal_map() == old(self).internal_map().remove(internal.0@)
                    &&& final(self).client_map() == old(self).client_map().remove(c@)
                },
                None => {
                    &&& !old(self).internal_map().contains_key(internal.0@)
                    &&& final(self).internal_map() == old(self).internal_map()
                    &&& final(self).client_map() == old(self).client_map()
                },
            },
            final(self).next_count() == old(self).next_count(),
            final(self).session() == old(self).session(),
            old(self).wf() ==> final(self).wf(),
    {
        let found = match self.get_client(internal) {
            Some(c) => Some(c.duplicate()),
            None => None,
        };
        match found {
            Some(client_id) => {
                let ghost s = self.internal_pairs();
                let kept = drop_internal(&self.internal_to_client, internal);
                self.internal_to_client = kept;
                proof {
                    lemma_assoc_without(s, internal.0@);
                }
                self.drop_client(&client_id);
                Some(client_id)
            },
            None => None,
        }
    }

    /// Removes the pair for `client_id` in the client direction.
    fn drop_client(&mut self, client_id: &RequestId)
        ensures
            final(self).client_map() == old(self).client_map().remove(client_id@),
            final(self).internal_to_client == old(self).internal_to_client,
            final(self).counter == old(self).counter,
            final(self).session_id == old(self).session_id,
    {
        let ghost k = client_id@;
        let ghost s = self.client_pairs();
        let mut kept: Vec<(RequestId, InternalId)> = Vec::new();
        let mut i: usize = 0;
        while i < self.client_to_internal.len()
            invariant
                i <= self.client_to_internal.len(),
                s == self.client_pairs(),
                s.len() == self.client_to_internal.len(),
                k == client_id@,
                kept@.map_values(|e: (RequestId, InternalId)| c2i_pair(e)) == without_key(s.take(i as int), k),
            decreases self.client_to_internal.len() - i,
        {
            proof {
                lemma_without_step(s, k, i as int);
            }
            let e = &self.client_to_internal[i];
            assert(s[i as int] == c2i_pair(*e));
            if !e.0.same_as(client_id) {
                kept.push((e.0.duplicate(), InternalId(e.1.0.clone())));
                assert(kept@.map_values(|e: (RequestId, InternalId)| c2i_pair(e)) =~= without_key(s.take(i as int), k).push(s[i as int]));
            }
            i = i + 1;
        }
        assert(s.take(s.len() as int) =~= s);
        proof {
            lemma_assoc_without(s, k);
        }
        self.client_to_internal = kept;
    }
}

/// The internal-to-client pairs without those for `id`.
fn drop_internal(v: &Vec<(InternalId, RequestId)>, id: &InternalId) -> (kept: Vec<(InternalId, RequestId)>)
    ensures
        kept@.map_values(|e: (InternalId, RequestId)| i2c_pair(e))
            == without_key(v@.map_values(|e: (InternalId, RequestId)| i2c_pair(e)), id.0@),
{
    let ghost k = id.0@;
    let ghost s = v@.map_values(|e: (InternalId, RequestId)| i2c_pair(e));
    let mut kept: Vec<(InternalId, RequestId)> = Vec::new();
    let mut i: usize = 0;
    while i < v.len()
        invariant
            i <= v.len(),
            s == v@.map_values(|e: (InternalId, RequestId)| i2c_pair(e)),
            k == id.0@,
            kept@.map_values(|e: (InternalId, RequestId)| i2c_pair(e)) == without_key(s.take(i as int), k),
        decreases v.len() - i,
    {
        proof {
            lemma_without_step(s, k, i as int);
        }
        let e = &v[i];
        assert(s[i as int] == i2c_pair(*e));
        if !(e.0.0 == id.0) {
            kept.push((InternalId(e.0.0.clone()), e.1.duplicate()));
            assert(kept@.map_values(|e: (InternalId, RequestId)| i2c_pair(e)) =~= without_key(s.take(i as int), k).push(s[i as int]));
        }
        i = i + 1;
    }
    assert(s.take(s.len() as int) =~= s);
    kept
}

/// Appends the base-`b` digits of `n`, zero-padded to at least `width`.
fn push_zero_padded_digits(out: &mut String, n: u64, b: u64, width: usize)
    requires
        2 <= b <= 16,
    ensures
        final(out)@ == old(out)@ + zero_pad(digits(n as nat, b as nat), width as nat),
{
    let mut d = String::new();
    push_digits(&mut d, n, b);
    assert(d@ =~= digits(n as nat, b as nat));
    push_zero_padded(out, d.as_str(), width);
}

} // verus!

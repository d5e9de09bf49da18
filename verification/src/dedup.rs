//! Detection of content already delivered to a session.
use vstd::prelude::*;
use vstd::string::*;

verus! {

/// SHA-256 hash of a content chunk (32 bytes).
pub type ChunkHash = [u8; 32];

/// The SHA-256 digest of a byte string.
pub uninterp spec fn sha256(data: Seq<u8>) -> Seq<u8>;

/// `sha2::Sha256::digest`: the SHA-256 digest of `data`, 32 bytes. The
/// contract names the digest and says nothing more of it.
#[verifier::external_body]
pub(crate) fn sha256_digest(data: &[u8]) -> (h: ChunkHash)
    ensures
        h@ == sha256(data@),
{
    let d = <sha2::Sha256 as sha2::Digest>::digest(data);
    let mut h = [0u8; 32];
    h.copy_from_slice(&d);
    h
}

/// Bounded log of the hashes delivered to a session, oldest first; when
/// full, the oldest hash makes room for a new one.
pub struct DeliveryLog {
    order: Vec<ChunkHash>,
    capacity: usize,
}

/// The log after recording `h`: unchanged when `h` is already there or
/// the log has no room at all (capacity 0); otherwise `h` is appended, after
/// dropping the oldest hash when the log already holds `capacity` hashes.
pub open spec fn log_insert(log: Seq<Seq<u8>>, capacity: nat, h: Seq<u8>) -> Seq<Seq<u8>> {
    if log.contains(h) || capacity == 0 {
        log
    } else if log.len() >= capacity && log.len() > 0 {
        log.drop_first().push(h)
    } else {
        log.push(h)
    }
}

/// A copy of a list of hashes.
fn copy_hashes(v: &Vec<ChunkHash>) -> (r: Vec<ChunkHash>)
    ensures
        r@ == v@,
{
    let mut r: Vec<ChunkHash> = Vec::new();
    let mut i: usize = 0;
    while i < v.len()
        invariant
            i <= v.len(),
            r@ == v@.take(i as int),
        decreases v.len() - i,
    {
        r.push(v[i]);
        assert(v@.take(i + 1) =~= v@.take(i as int).push(v@[i as int]));
        i = i + 1;
    }
    assert(v@.take(i as int) =~= v@);
    r
}

/// Whether two hashes are equal.
fn hash_eq(a: &ChunkHash, b: &ChunkHash) -> (r: bool)
    ensures
        r == (a@ == b@),
{
    let mut i: usize = 0;
    while i < 32
        invariant
            i <= 32,
            a@.len() == 32,
            b@.len() == 32,
            forall|j: int| 0 <= j < i ==> a@[j] == b@[j],
        decreases 32 - i,
    {
        if a[i] != b[i] {
            return false;
        }
        i = i + 1;
    }
    assert(a@ =~= b@);
    true
}

impl DeliveryLog {
    /// The hashes in the log, oldest first.
    pub closed spec fn hashes(&self) -> Seq<Seq<u8>> {
        self.order@.map_values(|h: ChunkHash| h@)
    }

    /// The capacity the log was made with.
    pub closed spec fn cap(&self) -> nat {
        self.capacity as nat
    }

    /// No hash occurs twice, and the log holds no more hashes than its
    /// capacity.
    pub open spec fn wf(&self) -> bool {
        &&& self.hashes().no_duplicates()
        &&& self.hashes().len() <= self.cap()
    }

    /// Every log keeps `wf`: `new` makes one that holds it and `insert`
    /// keeps it.
    #[verifier::type_invariant]
    pub(crate) open spec fn log_inv(&self) -> bool {
        self.wf()
    }

    /// An empty log for up to `capacity` hashes.
    pub fn new(capacity: usize) -> (log: DeliveryLog)
        ensures
            log.hashes() == Seq::<Seq<u8>>::empty(),
            log.cap() == capacity,
            log.wf(),
    {
        let log = DeliveryLog { order: Vec::new(), capacity };
        assert(log.hashes() =~= Seq::<Seq<u8>>::empty());
        log
    }

    /// Whether `hash` was already delivered.
    pub fn contains(&self, hash: &ChunkHash) -> (r: bool)
        ensures
            r == self.hashes().contains(hash@),
    {
        let mut i: usize = 0;
        while i < self.order.len()
            invariant
                i <= self.order.len(),
                forall|j: int| 0 <= j < i ==> self.hashes()[j] != hash@,
            decreases self.order.len() - i,
        {
            if hash_eq(&self.order[i], hash) {
                assert(self.hashes()[i as int] == hash@);
                return true;
            }
            i = i + 1;
        }
        false
    }

    /// Records `hash` as delivered, dropping the oldest hash when full.
    pub fn insert(&mut self, hash: ChunkHash)
        ensures
            final(self).hashes() == log_insert(old(self).hashes(), old(self).cap(), hash@),
            final(self).cap() == old(self).cap(),
            final(self).wf(),
            old(self).wf(),
    {
        proof {
            use_type_invariant(&*self);
        }
        if self.contains(&hash) || self.capacity == 0 {
            return;
        }
        let ghost before = self.hashes();
        let mut order = copy_hashes(&self.order);
        if order.len() >= self.capacity && order.len() > 0 {
            order.remove(0);
            assert(order@.map_values(|h: ChunkHash| h@) =~= before.drop_first());
        }
        let ghost mid = order@.map_values(|h: ChunkHash| h@);
        order.push(hash);
        let ghost after = order@.map_values(|h: ChunkHash| h@);
        assert(after =~= mid.push(hash@));
        proof {
            if before.no_duplicates() {
                assert forall|k: int, l: int| 0 <= k < l < after.len() implies after[k] != after[l] by {
                    if l == after.len() - 1 {
                        assert(mid.contains(mid[k]));
                        if before.len() >= self.capacity && before.len() > 0 {
                            assert(before[k + 1] == mid[k]);
                        } else {
                            assert(before[k] == mid[k]);
                        }
                    } else if before.len() >= self.capacity && before.len() > 0 {
                        assert(before[k + 1] == mid[k] && before[l + 1] == mid[l]);
                    } else {
                        assert(before[k] == mid[k] && before[l] == mid[l]);
                    }
                }
            }
        }
        self.order = order;
    }

    /// The number of hashes in the log.
    pub fn len(&self) -> (n: usize)
        ensures
            n == self.hashes().len(),
    {
        self.order.len()
    }

    /// Whether the log is empty.
    pub fn is_empty(&self) -> (r: bool)
        ensures
            r == (self.hashes().len() == 0),
    {
        self.order.len() == 0
    }
}

/// A recorded hash is found in the log right after it is recorded, in a
/// log with room for at least one hash.
pub proof fn lemma_inserted_is_contained(log: Seq<Seq<u8>>, capacity: nat, h: Seq<u8>)
    requires
        capacity > 0,
    ensures
        log_insert(log, capacity, h).contains(h),
{
    let r = log_insert(log, capacity, h);
    if !log.contains(h) {
        assert(r[r.len() - 1] == h);
    }
}

/// A log never holds more than its capacity: recording a hash into a log
/// within its capacity keeps it within its capacity.
pub proof fn lemma_log_bounded(log: Seq<Seq<u8>>, capacity: nat, h: Seq<u8>)
    requires
        log.len() <= capacity,
    ensures
        log_insert(log, capacity, h).len() <= capacity,
{
}

/// Checks text against the session's delivery log.
pub struct DedupFilter;

impl DedupFilter {
    /// The SHA-256 hash of the text's bytes.
    pub fn hash_text(text: &str) -> (h: ChunkHash)
        ensures
            h@ == sha256(text.spec_bytes()),
    {
        sha256_digest(text.as_bytes())
    }

    /// Whether the text was already delivered (the log is not changed).
    pub fn is_duplicate(text: &str, log: &DeliveryLog) -> (r: bool)
        ensures
            r == log.hashes().contains(sha256(text.spec_bytes())),
    {
        let hash = Self::hash_text(text);
        log.contains(&hash)
    }
}

} // verus!

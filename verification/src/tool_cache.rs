//! Per-server cache of tool listings, each entry valid for a time-to-live.
use vstd::prelude::*;
use crate::clock::{elapsed_more_than, instant_now};
use crate::registry::{ToolEntry, ToolEntryView};
use crate::table::NameTable;

verus! {

/// A cached listing and when it was fetched.
pub struct CacheEntry {
    pub tools: Vec<ToolEntry>,
    pub fetched_at: std::time::Instant,
}

impl DeepView for CacheEntry {
    type V = Seq<ToolEntryView>;

    open spec fn deep_view(&self) -> Seq<ToolEntryView> {
        self.tools.deep_view()
    }
}

impl CacheEntry {
    /// Whether more than `ttl_secs` seconds have passed since the listing
    /// was fetched. The answer depends on the clock.
    pub fn is_expired(&self, ttl_secs: u64) -> (r: bool) {
        elapsed_more_than(&self.fetched_at, ttl_secs)
    }
}

/// A copy of a list of entries.
fn copy_entries(v: &Vec<ToolEntry>) -> (r: Vec<ToolEntry>)
    ensures
        r.deep_view() == v.deep_view(),
{
    let mut r: Vec<ToolEntry> = Vec::new();
    let mut i: usize = 0;
    while i < v.len()
        invariant
            i <= v.len(),
            r.deep_view() == v.deep_view().take(i as int),
        decreases v.len() - i,
    {
        let ghost r0 = r.deep_view();
        r.push(v[i].duplicate());
        assert(r.deep_view() =~= r0.push(v[i as int].deep_view()));
        assert(v.deep_view().take(i + 1) =~= v.deep_view().take(i as int).push(v[i as int].deep_view()));
        i = i + 1;
    }
    assert(v.deep_view().take(v.len() as int) =~= v.deep_view());
    r
}

/// Tool listings by server name, each valid for `ttl_secs` seconds after
/// it was stored.
pub struct ToolCache {
    entries: NameTable<CacheEntry>,
    ttl_secs: u64,
}

impl ToolCache {
    /// The stored listings by server name, fresh or expired.
    pub closed spec fn stored(&self) -> Map<Seq<char>, Seq<ToolEntryView>> {
        self.entries.map()
    }

    /// The time-to-live in seconds.
    pub closed spec fn ttl(&self) -> u64 {
        self.ttl_secs
    }

    /// Well-formed: server names are distinct.
    pub closed spec fn wf(&self) -> bool {
        self.entries.wf()
    }

    /// An empty cache whose entries live `ttl_secs` seconds.
    pub fn new(ttl_secs: u64) -> (c: ToolCache)
        ensures
            c.wf(),
            c.stored().is_empty(),
            c.ttl() == ttl_secs,
    {
        ToolCache { entries: NameTable::new(), ttl_secs }
    }

    /// The listing stored for `server_name` while it has not expired. A
    /// server with nothing stored gets `None`; whether a stored listing has
    /// expired depends on the clock (see `listing` for what follows from
    /// either answer).
    pub fn get(&self, server_name: &str) -> (r: Option<Vec<ToolEntry>>)
        requires
            self.wf(),
        ensures
            !self.stored().contains_key(server_name@) ==> r is None,
            r matches Some(tools) ==> self.stored().contains_key(server_name@) && tools.deep_view() == self.stored()[server_name@],
    {
        let expired = match self.entries.get(server_name) {
            Some(entry) => entry.is_expired(self.ttl_secs),
            None => false,
        };
        self.listing(server_name, expired)
    }

    /// The listing stored for `server_name`, given whether it has expired:
    /// a copy of it when it is stored and has not expired, else `None`.
    pub fn listing(&self, server_name: &str, expired: bool) -> (r: Option<Vec<ToolEntry>>)
        requires
            self.wf(),
        ensures
            match r {
                Some(tools) => self.stored().contains_key(server_name@) && !expired
                    && tools.deep_view() == self.stored()[server_name@],
                None => !self.stored().contains_key(server_name@) || expired,
            },
    {
        match self.entries.get(server_name) {
            Some(entry) => {
                if expired {
                    None
                } else {
                    Some(copy_entries(&entry.tools))
                }
            },
            None => None,
        }
    }

    /// Stores the listing of `server_name`, fetched now.
    pub fn set(&mut self, server_name: &str, tools: Vec<ToolEntry>)
        requires
            old(self).wf(),
        ensures
            final(self).wf(),
            final(self).stored() == old(self).stored().insert(server_name@, tools.deep_view()),
            final(self).ttl() == old(self).ttl(),
    {
        let entry = CacheEntry { tools, fetched_at: instant_now() };
        self.entries.insert(String::from_str(server_name), entry);
    }

    /// Forgets the listing of `server_name`.
    pub fn invalidate(&mut self, server_name: &str)
        requires
            old(self).wf(),
        ensures
            final(self).wf(),
            final(self).stored() == old(self).stored().remove(server_name@),
            final(self).ttl() == old(self).ttl(),
    {
        self.entries.remove(server_name);
    }

    /// Forgets every listing.
    pub fn invalidate_all(&mut self)
        ensures
            final(self).wf(),
            final(self).stored().is_empty(),
            final(self).ttl() == old(self).ttl(),
    {
        self.entries = NameTable::new();
    }
}

} // verus!

//! Per-profile tool call counts, the inputs of the usage score.
use vstd::prelude::*;
use vstd::string::*;
use crate::text::str_eq;

verus! {

/// Tracks how often each profile called each tool.
pub struct UsageTracker {
    counts: Vec<(String, String, u64)>,
}

/// One record: profile, tool, number of calls.
pub type UsageEntry = (Seq<char>, Seq<char>, u64);

/// The position of the record for `profile` and `tool`, the last one when
/// several match, or -1.
pub open spec fn entry_index(s: Seq<UsageEntry>, profile: Seq<char>, tool: Seq<char>) -> int
    decreases s.len(),
{
    if s.len() == 0 {
        -1
    } else if s.last().0 == profile && s.last().1 == tool {
        s.len() - 1
    } else {
        entry_index(s.drop_last(), profile, tool)
    }
}

/// The number of calls recorded for `profile` and `tool`.
pub open spec fn count_of(s: Seq<UsageEntry>, profile: Seq<char>, tool: Seq<char>) -> nat {
    let i = entry_index(s, profile, tool);
    if i < 0 { 0 } else { s[i].2 as nat }
}

/// The records after one more call of `tool` by `profile`.
pub open spec fn spec_record(s: Seq<UsageEntry>, profile: Seq<char>, tool: Seq<char>) -> Seq<UsageEntry> {
    let i = entry_index(s, profile, tool);
    if i < 0 {
        s.push((profile, tool, 1u64))
    } else {
        s.update(i, (profile, tool, (s[i].2 + 1) as u64))
    }
}

/// All calls recorded for `profile`.
pub open spec fn total_calls(s: Seq<UsageEntry>, profile: Seq<char>) -> nat
    decreases s.len(),
{
    if s.len() == 0 {
        0
    } else {
        total_calls(s.drop_last(), profile) + if s.last().0 == profile { s.last().2 as nat } else { 0 }
    }
}

/// The number of distinct tools recorded for `profile`.
pub open spec fn tool_count(s: Seq<UsageEntry>, profile: Seq<char>) -> nat
    decreases s.len(),
{
    if s.len() == 0 {
        0
    } else {
        tool_count(s.drop_last(), profile) + if s.last().0 == profile { 1nat } else { 0 }
    }
}

/// The sum of `count + 1` over the tools recorded for `profile`: the
/// numerators of the smoothed scores.
pub open spec fn smoothed_sum(s: Seq<UsageEntry>, profile: Seq<char>) -> nat
    decreases s.len(),
{
    if s.len() == 0 {
        0
    } else {
        smoothed_sum(s.drop_last(), profile) + if s.last().0 == profile { s.last().2 as nat + 1 } else { 0 }
    }
}

/// No profile and tool are recorded twice.
pub open spec fn pairs_distinct(s: Seq<UsageEntry>) -> bool {
    forall|i: int, j: int| 0 <= i < j < s.len() ==> !(s[i].0 == s[j].0 && s[i].1 == s[j].1)
}

/// The index found matches, and nothing after it does.
proof fn lemma_entry_index(s: Seq<UsageEntry>, profile: Seq<char>, tool: Seq<char>)
    ensures
        -1 <= entry_index(s, profile, tool) < s.len(),
        entry_index(s, profile, tool) >= 0 ==> {
            let i = entry_index(s, profile, tool);
            s[i].0 == profile && s[i].1 == tool
        },
        forall|j: int| entry_index(s, profile, tool) < j < s.len() ==> !(#[trigger] s[j].0 == profile && s[j].1 == tool),
    decreases s.len(),
{
    if s.len() > 0 {
        let d = s.drop_last();
        lemma_entry_index(d, profile, tool);
        if !(s.last().0 == profile && s.last().1 == tool) {
            assert forall|j: int| entry_index(s, profile, tool) < j < s.len() implies !(#[trigger] s[j].0 == profile && s[j].1 == tool) by {
                if j < s.len() - 1 {
                    assert(d[j] == s[j]);
                }
            }
            let i = entry_index(s, profile, tool);
            if i >= 0 {
                assert(d[i] == s[i]);
            }
        }
    }
}

/// With distinct pairs, an index that matches is the one found.
proof fn lemma_entry_index_unique(s: Seq<UsageEntry>, i: int)
    requires
        pairs_distinct(s),
        0 <= i < s.len(),
    ensures
        entry_index(s, s[i].0, s[i].1) == i,
    decreases s.len(),
{
    if i < s.len() - 1 {
        assert(!(s[i].0 == s.last().0 && s[i].1 == s.last().1));
        let d = s.drop_last();
        assert(d[i] == s[i]);
        lemma_entry_index_unique(d, i);
    }
}

/// Recording a call raises that profile's count for that tool by one and
/// leaves every other count as it was.
pub proof fn lemma_record_counts(s: Seq<UsageEntry>, profile: Seq<char>, tool: Seq<char>, p2: Seq<char>, t2: Seq<char>)
    requires
        pairs_distinct(s),
        count_of(s, profile, tool) < u64::MAX,
    ensures
        pairs_distinct(spec_record(s, profile, tool)),
        count_of(spec_record(s, profile, tool), p2, t2)
            == count_of(s, p2, t2) + if p2 == profile && t2 == tool { 1nat } else { 0 },
{
    let r = spec_record(s, profile, tool);
    let i = entry_index(s, profile, tool);
    lemma_entry_index(s, profile, tool);
    lemma_entry_index(s, p2, t2);
    if i < 0 {
        assert forall|a: int, b: int| 0 <= a < b < r.len() implies !(r[a].0 == r[b].0 && r[a].1 == r[b].1) by {
            if b == s.len() {
                assert(!(s[a].0 == profile && s[a].1 == tool));
            }
        }
    } else {
        assert forall|a: int, b: int| 0 <= a < b < r.len() implies !(r[a].0 == r[b].0 && r[a].1 == r[b].1) by {
            assert(r[a].0 == s[a].0 && r[a].1 == s[a].1);
            assert(r[b].0 == s[b].0 && r[b].1 == s[b].1);
        }
    }
    lemma_entry_index(r, p2, t2);
    let j = entry_index(s, p2, t2);
    let jr = entry_index(r, p2, t2);
    if jr >= 0 {
        if jr < s.len() {
            assert(r[jr].0 == s[jr].0 && r[jr].1 == s[jr].1);
            lemma_entry_index_unique(s, jr);
        }
    }
    if j >= 0 {
        assert(r[j].0 == s[j].0 && r[j].1 == s[j].1);
        lemma_entry_index_unique(r, j);
    }
}

/// The records after the calls of `calls` (profile, tool), one after the
/// other.
pub open spec fn record_all(s: Seq<UsageEntry>, calls: Seq<(Seq<char>, Seq<char>)>) -> Seq<UsageEntry>
    decreases calls.len(),
{
    if calls.len() == 0 {
        s
    } else {
        spec_record(record_all(s, calls.drop_last()), calls.last().0, calls.last().1)
    }
}

/// How many of `calls` are calls of `tool` by `profile`.
pub open spec fn occurrences(calls: Seq<(Seq<char>, Seq<char>)>, profile: Seq<char>, tool: Seq<char>) -> nat
    decreases calls.len(),
{
    if calls.len() == 0 {
        0
    } else {
        occurrences(calls.drop_last(), profile, tool) + if calls.last() == (profile, tool) { 1nat } else { 0 }
    }
}

/// Law: after a sequence of recorded calls, each profile's count for each
/// tool has grown by the number of those calls that were calls of that tool
/// by that profile (counts staying below `u64::MAX`).
pub proof fn lemma_record_all_counts(s: Seq<UsageEntry>, calls: Seq<(Seq<char>, Seq<char>)>)
    requires
        pairs_distinct(s),
        forall|i: int| 0 <= i < calls.len() ==> count_of(s, (#[trigger] calls[i]).0, calls[i].1) + calls.len() < u64::MAX,
    ensures
        pairs_distinct(record_all(s, calls)),
        forall|p: Seq<char>, t: Seq<char>|
            #[trigger] count_of(record_all(s, calls), p, t) == count_of(s, p, t) + occurrences(calls, p, t),
        forall|p: Seq<char>, t: Seq<char>| #[trigger] occurrences(calls, p, t) <= calls.len(),
    decreases calls.len(),
{
    if calls.len() > 0 {
        let pre = calls.drop_last();
        assert forall|i: int| 0 <= i < pre.len() implies count_of(s, (#[trigger] pre[i]).0, pre[i].1) + pre.len() < u64::MAX by {
            assert(pre[i] == calls[i]);
        }
        lemma_record_all_counts(s, pre);
        let r0 = record_all(s, pre);
        let (p, t) = calls.last();
        assert(calls.last() == calls[calls.len() - 1]);
        assert(count_of(r0, p, t) == count_of(s, p, t) + occurrences(pre, p, t));
        assert(occurrences(pre, p, t) <= pre.len());
        assert forall|p2: Seq<char>, t2: Seq<char>|
            #[trigger] count_of(record_all(s, calls), p2, t2) == count_of(s, p2, t2) + occurrences(calls, p2, t2) by {
            lemma_record_counts(r0, p, t, p2, t2);
            assert(count_of(r0, p2, t2) == count_of(s, p2, t2) + occurrences(pre, p2, t2));
        }
        lemma_record_counts(r0, p, t, p, t);
        assert forall|p2: Seq<char>, t2: Seq<char>| #[trigger] occurrences(calls, p2, t2) <= calls.len() by {
            assert(occurrences(pre, p2, t2) <= pre.len());
        }
    }
}

/// Law: for a fresh tracker (`UsageTracker::new` holds no records, and
/// each `record_call` records per `spec_record`), after any sequence of
/// calls each profile's count for each tool is the number of those calls
/// that were calls of that tool by that profile; profiles are independent,
/// and a profile or tool never called counts 0 (as long as the number of
/// calls stays below `u64::MAX`).
pub proof fn lemma_fresh_tracker_counts(calls: Seq<(Seq<char>, Seq<char>)>)
    requires
        calls.len() < u64::MAX,
    ensures
        forall|p: Seq<char>, t: Seq<char>|
            #[trigger] count_of(record_all(Seq::empty(), calls), p, t) == occurrences(calls, p, t),
{
    let s = Seq::<UsageEntry>::empty();
    assert forall|p: Seq<char>, t: Seq<char>| #[trigger] count_of(s, p, t) == 0 by {
        assert(entry_index(s, p, t) == -1);
    }
    assert forall|i: int| 0 <= i < calls.len() implies count_of(s, (#[trigger] calls[i]).0, calls[i].1) + calls.len() < u64::MAX by {
        assert(count_of(s, calls[i].0, calls[i].1) == 0);
    }
    lemma_record_all_counts(s, calls);
}

/// The smoothed numerators of a profile's tools add up to its total calls
/// plus its number of tools, the denominator every score of the profile
/// shares; so the profile's scores add up to one.
pub proof fn lemma_smoothed_sum(s: Seq<UsageEntry>, profile: Seq<char>)
    ensures
        smoothed_sum(s, profile) == total_calls(s, profile) + tool_count(s, profile),
    decreases s.len(),
{
    if s.len() > 0 {
        lemma_smoothed_sum(s.drop_last(), profile);
    }
}

impl UsageTracker {
    /// The records, in the order profiles first called tools.
    pub closed spec fn entries(&self) -> Seq<UsageEntry> {
        self.counts@.map_values(|e: (String, String, u64)| (e.0@, e.1@, e.2))
    }

    /// No profile and tool are recorded twice.
    pub open spec fn wf(&self) -> bool {
        pairs_distinct(self.entries())
    }

    /// A tracker with no calls.
    pub fn new() -> (t: UsageTracker)
        ensures
            t.entries() == Seq::<UsageEntry>::empty(),
            t.wf(),
    {
        let t = UsageTracker { counts: Vec::new() };
        assert(t.entries() =~= Seq::<UsageEntry>::empty());
        t
    }

    /// Where the record for `profile` and `tool` is, if any.
    fn find(&self, profile: &str, qualified_name: &str) -> (r: Option<usize>)
        ensures
            match r {
                Some(i) => i < self.counts.len() && i == entry_index(self.entries(), profile@, qualified_name@),
                None => entry_index(self.entries(), profile@, qualified_name@) < 0,
            },
    {
        let ghost s = self.entries();
        proof {
            assert(s.take(s.len() as int) =~= s);
        }
        let mut i: usize = self.counts.len();
        while i > 0
            invariant
                i <= self.counts.len(),
                s == self.entries(),
                s.len() == self.counts.len(),
                forall|j: int| i <= j < s.len() ==> !(#[trigger] s[j].0 == profile@ && s[j].1 == qualified_name@),
                entry_index(s, profile@, qualified_name@) == entry_index(s.take(i as int), profile@, qualified_name@),
            decreases i,
        {
            let e = &self.counts[i - 1];
            proof {
                assert(s[i - 1] == (e.0@, e.1@, e.2));
                assert(s.take(i as int).drop_last() =~= s.take(i - 1));
                assert(s.take(i as int).last() == s[i - 1]);
            }
            if str_eq(e.0.as_str(), profile) && str_eq(e.1.as_str(), qualified_name) {
                return Some(i - 1);
            }
            i = i - 1;
        }
        proof {
            assert(s.take(0) =~= Seq::<UsageEntry>::empty());
        }
        None
    }

    /// Records one call of `qualified_name` by `profile`.
    pub fn record_call(&mut self, profile: &str, qualified_name: &str)
        requires
            count_of(old(self).entries(), profile@, qualified_name@) < u64::MAX,
        ensures
            final(self).entries() == spec_record(old(self).entries(), profile@, qualified_name@),
            old(self).wf() ==> final(self).wf(),
    {
        let ghost s = self.entries();
        proof {
            if pairs_distinct(s) {
                lemma_record_counts(s, profile@, qualified_name@, profile@, qualified_name@);
            }
        }
        match self.find(profile, qualified_name) {
            Some(i) => {
                proof {
                    lemma_entry_index(s, profile@, qualified_name@);
                }
                assert(self.counts[i as int].2 == s[i as int].2);
                let (p, t, c) = self.counts.remove(i);
                self.counts.insert(i, (p, t, c + 1));
                assert(self.entries() =~= s.update(i as int, (profile@, qualified_name@, (c + 1) as u64)));
            },
            None => {
                self.counts.push((String::from_str(profile), String::from_str(qualified_name), 1));
                assert(self.entries() =~= s.push((profile@, qualified_name@, 1u64)));
            },
        }
    }

    /// The number of calls of `qualified_name` by `profile`.
    pub fn call_count(&self, profile: &str, qualified_name: &str) -> (n: u64)
        ensures
            n == count_of(self.entries(), profile@, qualified_name@),
    {
        match self.find(profile, qualified_name) {
            Some(i) => {
                assert(self.counts[i as int].2 == self.entries()[i as int].2);
                self.counts[i].2
            },
            None => 0,
        }
    }

    /// What the usage score of `qualified_name` for `profile` is made of:
    /// its calls, the profile's calls, and the profile's number of tools;
    /// `None` when the profile has no history (its score is 0).
    pub fn score_inputs(&self, profile: &str, qualified_name: &str) -> (r: Option<(u64, u128, u64)>)
        ensures
            match r {
                Some((count, total, tools)) => {
                    &&& tool_count(self.entries(), profile@) > 0
                    &&& count == count_of(self.entries(), profile@, qualified_name@)
                    &&& total == total_calls(self.entries(), profile@)
                    &&& tools == tool_count(self.entries(), profile@)
                },
                None => tool_count(self.entries(), profile@) == 0,
            },
    {
        let ghost s = self.entries();
        let mut total: u128 = 0;
        let mut tools: u64 = 0;
        let mut i: usize = 0;
        while i < self.counts.len()
            invariant
                i <= self.counts.len(),
                s == self.entries(),
                s.len() == self.counts.len(),
                total == total_calls(s.take(i as int), profile@),
                tools == tool_count(s.take(i as int), profile@),
                total <= i * 0xffff_ffff_ffff_ffffu128,
                tools <= i,
            decreases self.counts.len() - i,
        {
            let e = &self.counts[i];
            proof {
                assert(s[i as int] == (e.0@, e.1@, e.2));
                assert(s.take(i + 1).drop_last() =~= s.take(i as int));
                assert(s.take(i + 1).last() == s[i as int]);
            }
            if str_eq(e.0.as_str(), profile) {
                assert(total + e.2 <= (i + 1) * 0xffff_ffff_ffff_ffffu128) by (nonlinear_arith)
                    requires
                        total <= i * 0xffff_ffff_ffff_ffffu128,
                        e.2 <= 0xffff_ffff_ffff_ffffu64,
                ;
                total = total + e.2 as u128;
                tools = tools + 1;
            } else {
                assert(total <= (i + 1) * 0xffff_ffff_ffff_ffffu128) by (nonlinear_arith)
                    requires
                        total <= i * 0xffff_ffff_ffff_ffffu128,
                ;
            }
            i = i + 1;
        }
        assert(s.take(i as int) =~= s);
        if tools == 0 {
            return None;
        }
        let count = self.call_count(profile, qualified_name);
        Some((count, total, tools))
    }
}

} // verus!

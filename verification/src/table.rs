//! A map from names to values, kept as a list of entries whose names are
//! pairwise distinct. Its view is the finite map from each name's
//! characters to the deep view of its value; the list order is the order
//! of first insertion.
use vstd::prelude::*;
use vstd::string::*;
use crate::text::str_eq;

verus! {

/// Entries `(name, value)` with distinct names.
pub struct NameTable<V> {
    pub entries: Vec<(String, V)>,
}

/// Whether the names in `s` are pairwise distinct.
pub open spec fn names_distinct<V>(s: Seq<(String, V)>) -> bool {
    forall|i: int, j: int|
        0 <= i < s.len() && 0 <= j < s.len() && i != j ==> #[trigger] s[i].0@ != #[trigger] s[j].0@
}

/// Whether some entry of `s` is named `k`.
pub open spec fn has_name<V>(s: Seq<(String, V)>, k: Seq<char>) -> bool {
    exists|i: int| 0 <= i < s.len() && #[trigger] s[i].0@ == k
}

/// The position of an entry of `s` named `k`.
pub open spec fn name_index<V>(s: Seq<(String, V)>, k: Seq<char>) -> int {
    choose|i: int| 0 <= i < s.len() && #[trigger] s[i].0@ == k
}

/// The map that the entries denote.
pub open spec fn table_view<V: DeepView>(s: Seq<(String, V)>) -> Map<Seq<char>, V::V> {
    Map::new(|k: Seq<char>| has_name(s, k), |k: Seq<char>| s[name_index(s, k)].1.deep_view())
}

/// The names of the entries, in order.
pub open spec fn names_of<V>(s: Seq<(String, V)>) -> Seq<Seq<char>> {
    s.map_values(|e: (String, V)| e.0@)
}

/// The entries as (name, deep view of value) pairs, in order.
pub open spec fn pairs_of<V: DeepView>(s: Seq<(String, V)>) -> Seq<(Seq<char>, V::V)> {
    s.map_values(|e: (String, V)| (e.0@, e.1.deep_view()))
}

/// Whether some pair of `p` is named `k`.
pub open spec fn pair_has<W>(p: Seq<(Seq<char>, W)>, k: Seq<char>) -> bool {
    exists|i: int| 0 <= i < p.len() && #[trigger] p[i].0 == k
}

/// The position of a pair of `p` named `k`.
pub open spec fn pair_pos<W>(p: Seq<(Seq<char>, W)>, k: Seq<char>) -> int {
    choose|i: int| 0 <= i < p.len() && #[trigger] p[i].0 == k
}

/// The value of the pair named `k`, if any.
pub open spec fn pair_get<W>(p: Seq<(Seq<char>, W)>, k: Seq<char>) -> Option<W> {
    if pair_has(p, k) {
        Some(p[pair_pos(p, k)].1)
    } else {
        None
    }
}

/// `p` with the value named `k` set to `w`: in place if the name is
/// there, else appended.
pub open spec fn put_pair<W>(p: Seq<(Seq<char>, W)>, k: Seq<char>, w: W) -> Seq<(Seq<char>, W)> {
    if pair_has(p, k) {
        p.update(pair_pos(p, k), (k, w))
    } else {
        p.push((k, w))
    }
}

/// `p` without the pair named `k`.
pub open spec fn drop_pair<W>(p: Seq<(Seq<char>, W)>, k: Seq<char>) -> Seq<(Seq<char>, W)> {
    if pair_has(p, k) {
        p.remove(pair_pos(p, k))
    } else {
        p
    }
}

/// Whether the names of the pairs are pairwise distinct.
pub open spec fn pair_names_distinct<W>(p: Seq<(Seq<char>, W)>) -> bool {
    forall|i: int, j: int|
        0 <= i < p.len() && 0 <= j < p.len() && i != j ==> #[trigger] p[i].0 != #[trigger] p[j].0
}

/// The pair at `i` is the one that `pair_pos` finds for its name.
pub proof fn lemma_pair_at<W>(p: Seq<(Seq<char>, W)>, i: int)
    requires
        pair_names_distinct(p),
        0 <= i < p.len(),
    ensures
        pair_has(p, p[i].0),
        pair_pos(p, p[i].0) == i,
        pair_get(p, p[i].0) == Some(p[i].1),
{
    assert(pair_has(p, p[i].0));
    let j = pair_pos(p, p[i].0);
    assert(p[j].0 == p[i].0);
}

/// Distinct entry names give distinct pair names.
pub proof fn lemma_pairs_distinct<V: DeepView>(s: Seq<(String, V)>)
    requires
        names_distinct(s),
    ensures
        pair_names_distinct(pairs_of(s)),
        pairs_of(s).len() == s.len(),
        forall|i: int| 0 <= i < s.len() ==> (#[trigger] pairs_of(s)[i]).0 == s[i].0@,
        forall|k: Seq<char>| has_name(s, k) <==> pair_has(pairs_of(s), k),
{
    let p = pairs_of(s);
    assert forall|i: int, j: int| 0 <= i < p.len() && 0 <= j < p.len() && i != j implies #[trigger] p[i].0 != #[trigger] p[j].0 by {
        assert(s[i].0@ != s[j].0@);
    }
    assert forall|k: Seq<char>| has_name(s, k) <==> pair_has(p, k) by {
        if has_name(s, k) {
            let i = name_index(s, k);
            assert(p[i].0 == k);
        }
        if pair_has(p, k) {
            let i = pair_pos(p, k);
            assert(s[i].0@ == k);
        }
    }
}

/// The entry at `i` gives the map's value at its name.
pub proof fn lemma_view_at<V: DeepView>(s: Seq<(String, V)>, i: int)
    requires
        names_distinct(s),
        0 <= i < s.len(),
    ensures
        table_view(s).contains_key(s[i].0@),
        table_view(s)[s[i].0@] == s[i].1.deep_view(),
        name_index(s, s[i].0@) == i,
{
    assert(has_name(s, s[i].0@));
    let j = name_index(s, s[i].0@);
    assert(s[j].0@ == s[i].0@);
}

/// Overwriting the value of an existing entry updates the map.
pub proof fn lemma_view_update<V: DeepView>(s: Seq<(String, V)>, i: int, k: String, v: V)
    requires
        names_distinct(s),
        0 <= i < s.len(),
        s[i].0@ == k@,
    ensures
        names_distinct(s.update(i, (k, v))),
        table_view(s.update(i, (k, v))) == table_view(s).insert(k@, v.deep_view()),
{
    let t = s.update(i, (k, v));
    assert(names_distinct(t)) by {
        assert forall|a: int, b: int| 0 <= a < t.len() && 0 <= b < t.len() && a != b implies #[trigger] t[a].0@ != #[trigger] t[b].0@ by {
            assert(t[a].0@ == s[a].0@);
            assert(t[b].0@ == s[b].0@);
            assert(s[a].0@ != s[b].0@);
        }
    }
    let l = table_view(t);
    let r = table_view(s).insert(k@, v.deep_view());
    assert forall|kk: Seq<char>| l.contains_key(kk) <==> r.contains_key(kk) by {
        if has_name(t, kk) {
            let j = name_index(t, kk);
            assert(s[j].0@ == kk);
        }
        if has_name(s, kk) {
            let j = name_index(s, kk);
            assert(t[j].0@ == kk);
        }
        if kk == k@ {
            assert(t[i].0@ == kk);
        }
    }
    assert forall|kk: Seq<char>| l.contains_key(kk) implies l[kk] == r[kk] by {
        let j = name_index(t, kk);
        lemma_view_at(t, j);
        if j != i {
            assert(s[j].0@ == kk);
            lemma_view_at(s, j);
        }
    }
    assert(l =~= r);
}

/// Appending an entry under a new name inserts it into the map.
pub proof fn lemma_view_push<V: DeepView>(s: Seq<(String, V)>, k: String, v: V)
    requires
        names_distinct(s),
        !has_name(s, k@),
    ensures
        names_distinct(s.push((k, v))),
        table_view(s.push((k, v))) == table_view(s).insert(k@, v.deep_view()),
{
    let t = s.push((k, v));
    assert(names_distinct(t)) by {
        assert forall|a: int, b: int| 0 <= a < t.len() && 0 <= b < t.len() && a != b implies #[trigger] t[a].0@ != #[trigger] t[b].0@ by {
            if a < s.len() && b < s.len() {
                assert(t[a] == s[a] && t[b] == s[b]);
            } else if a < s.len() {
                assert(t[a] == s[a]);
            } else {
                assert(t[b] == s[b]);
            }
        }
    }
    let l = table_view(t);
    let r = table_view(s).insert(k@, v.deep_view());
    assert forall|kk: Seq<char>| l.contains_key(kk) <==> r.contains_key(kk) by {
        if has_name(t, kk) {
            let j = name_index(t, kk);
            if j < s.len() {
                assert(s[j].0@ == kk);
            }
        }
        if has_name(s, kk) {
            let j = name_index(s, kk);
            assert(t[j].0@ == kk);
        }
        if kk == k@ {
            assert(t[s.len() as int].0@ == kk);
        }
    }
    assert forall|kk: Seq<char>| l.contains_key(kk) implies l[kk] == r[kk] by {
        let j = name_index(t, kk);
        lemma_view_at(t, j);
        if j < s.len() {
            assert(t[j] == s[j]);
            lemma_view_at(s, j);
        }
    }
    assert(l =~= r);
}

/// Dropping the entry at `i` removes its name from the map.
pub proof fn lemma_view_remove<V: DeepView>(s: Seq<(String, V)>, i: int)
    requires
        names_distinct(s),
        0 <= i < s.len(),
    ensures
        names_distinct(s.remove(i)),
        table_view(s.remove(i)) == table_view(s).remove(s[i].0@),
{
    let t = s.remove(i);
    let k = s[i].0@;
    assert forall|a: int| 0 <= a < t.len() implies #[trigger] t[a] == s[if a < i { a } else { a + 1 }] by {}
    assert(names_distinct(t)) by {
        assert forall|a: int, b: int| 0 <= a < t.len() && 0 <= b < t.len() && a != b implies #[trigger] t[a].0@ != #[trigger] t[b].0@ by {
            let a1 = if a < i { a } else { a + 1 };
            let b1 = if b < i { b } else { b + 1 };
            assert(t[a] == s[a1] && t[b] == s[b1]);
            assert(s[a1].0@ != s[b1].0@);
        }
    }
    let l = table_view(t);
    let r = table_view(s).remove(k);
    assert forall|kk: Seq<char>| l.contains_key(kk) <==> r.contains_key(kk) by {
        if has_name(t, kk) {
            let j = name_index(t, kk);
            let j1 = if j < i { j } else { j + 1 };
            assert(t[j] == s[j1]);
            assert(s[j1].0@ == kk);
            assert(j1 != i);
            assert(kk != k);
        }
        if has_name(s, kk) && kk != k {
            let j = name_index(s, kk);
            assert(j != i);
            let j0 = if j < i { j } else { j - 1 };
            assert(t[j0] == s[j]);
            assert(t[j0].0@ == kk);
        }
    }
    assert forall|kk: Seq<char>| l.contains_key(kk) implies l[kk] == r[kk] by {
        let j = name_index(t, kk);
        lemma_view_at(t, j);
        let j1 = if j < i { j } else { j + 1 };
        assert(t[j] == s[j1]);
        lemma_view_at(s, j1);
    }
    assert(l =~= r);
}

/// The map has as many names as there are entries.
pub proof fn lemma_view_len<V: DeepView>(s: Seq<(String, V)>)
    requires
        names_distinct(s),
    ensures
        table_view(s).dom() == names_of(s).to_set(),
        table_view(s).len() == s.len(),
{
    let n = names_of(s);
    assert forall|k: Seq<char>| table_view(s).dom().contains(k) <==> n.to_set().contains(k) by {
        if has_name(s, k) {
            let j = name_index(s, k);
            assert(n[j] == k);
        }
        if n.contains(k) {
            let j = choose|j: int| 0 <= j < n.len() && n[j] == k;
            assert(s[j].0@ == k);
        }
    }
    assert(table_view(s).dom() =~= n.to_set());
    assert(n.no_duplicates()) by {
        assert forall|a: int, b: int| 0 <= a < n.len() && 0 <= b < n.len() && a != b implies n[a] != n[b] by {
            assert(s[a].0@ != s[b].0@);
        }
    }
    n.unique_seq_to_set();
}

impl<V: DeepView> NameTable<V> {
    /// Well-formed: the names are pairwise distinct.
    pub open spec fn wf(&self) -> bool {
        names_distinct(self.entries@)
    }

    /// The map from names to the deep views of their values.
    pub open spec fn map(&self) -> Map<Seq<char>, V::V> {
        table_view(self.entries@)
    }

    /// The entries as (name, deep view of value) pairs, in order.
    pub open spec fn pairs(&self) -> Seq<(Seq<char>, V::V)> {
        pairs_of(self.entries@)
    }

    /// An empty table.
    pub fn new() -> (t: Self)
        ensures
            t.wf(),
            t.map() == Map::<Seq<char>, V::V>::empty(),
            t.pairs() == Seq::<(Seq<char>, V::V)>::empty(),
            t.entries@.len() == 0,
    {
        let t = NameTable { entries: Vec::new() };
        assert(t.map() =~= Map::<Seq<char>, V::V>::empty());
        assert(t.pairs() =~= Seq::<(Seq<char>, V::V)>::empty());
        t
    }

    /// The position of the entry named `k`, if any.
    pub fn find(&self, k: &str) -> (r: Option<usize>)
        requires
            self.wf(),
        ensures
            match r {
                Some(i) => i < self.entries.len() && self.entries@[i as int].0@ == k@,
                None => !has_name(self.entries@, k@),
            },
            r is Some <==> self.map().contains_key(k@),
    {
        let mut i: usize = 0;
        while i < self.entries.len()
            invariant
                i <= self.entries.len(),
                forall|j: int| 0 <= j < i ==> #[trigger] self.entries@[j].0@ != k@,
            decreases self.entries.len() - i,
        {
            if str_eq(self.entries[i].0.as_str(), k) {
                return Some(i);
            }
            i = i + 1;
        }
        None
    }

    /// Whether some entry is named `k`.
    pub fn contains_key(&self, k: &str) -> (r: bool)
        requires
            self.wf(),
        ensures
            r == self.map().contains_key(k@),
    {
        self.find(k).is_some()
    }

    /// The value named `k`, if any.
    pub fn get(&self, k: &str) -> (r: Option<&V>)
        requires
            self.wf(),
        ensures
            match r {
                Some(v) => self.map().contains_key(k@) && v.deep_view() == self.map()[k@],
                None => !self.map().contains_key(k@),
            },
            match r {
                Some(v) => pair_get(self.pairs(), k@) == Some(v.deep_view()),
                None => pair_get(self.pairs(), k@) is None,
            },
    {
        proof {
            lemma_pairs_distinct(self.entries@);
        }
        match self.find(k) {
            Some(i) => {
                proof {
                    lemma_view_at(self.entries@, i as int);
                    lemma_pair_at(self.pairs(), i as int);
                }
                Some(&self.entries[i].1)
            },
            None => None,
        }
    }

    /// Sets the value named `k`: an existing entry keeps its place, a new
    /// one goes last.
    pub fn insert(&mut self, k: String, v: V)
        requires
            old(self).wf(),
        ensures
            final(self).wf(),
            final(self).map() == old(self).map().insert(k@, v.deep_view()),
            final(self).pairs() == put_pair(old(self).pairs(), k@, v.deep_view()),
    {
        proof {
            lemma_pairs_distinct(self.entries@);
        }
        match self.find(k.as_str()) {
            Some(i) => {
                proof {
                    lemma_view_update(self.entries@, i as int, k, v);
                    lemma_pair_at(self.pairs(), i as int);
                }
                let ghost before = self.entries@;
                self.entries.set(i, (k, v));
                assert(pairs_of(self.entries@) =~= pairs_of(before).update(i as int, (k@, v.deep_view())));
            },
            None => {
                proof {
                    lemma_view_push(self.entries@, k, v);
                }
                let ghost before = self.entries@;
                self.entries.push((k, v));
                assert(pairs_of(self.entries@) =~= pairs_of(before).push((k@, v.deep_view())));
            },
        }
    }

    /// Removes the entry named `k` and gives back its value, if there was one.
    pub fn remove(&mut self, k: &str) -> (r: Option<V>)
        requires
            old(self).wf(),
        ensures
            final(self).wf(),
            final(self).map() == old(self).map().remove(k@),
            final(self).pairs() == drop_pair(old(self).pairs(), k@),
            match r {
                Some(v) => old(self).map().contains_key(k@) && v.deep_view() == old(self).map()[k@],
                None => !old(self).map().contains_key(k@),
            },
            match r {
                Some(v) => pair_get(old(self).pairs(), k@) == Some(v.deep_view()),
                None => pair_get(old(self).pairs(), k@) is None,
            },
    {
        proof {
            lemma_pairs_distinct(self.entries@);
        }
        match self.find(k) {
            Some(i) => {
                proof {
                    lemma_view_remove(self.entries@, i as int);
                    lemma_view_at(self.entries@, i as int);
                    lemma_pair_at(self.pairs(), i as int);
                }
                let ghost before = self.entries@;
                let (_, v) = self.entries.remove(i);
                assert(pairs_of(self.entries@) =~= pairs_of(before).remove(i as int));
                Some(v)
            },
            None => {
                assert(old(self).map().remove(k@) =~= old(self).map());
                None
            },
        }
    }

    /// The number of entries.
    pub fn len(&self) -> (n: usize)
        requires
            self.wf(),
        ensures
            n == self.map().len(),
            n == self.entries.len(),
    {
        proof {
            lemma_view_len(self.entries@);
        }
        self.entries.len()
    }
}

} // verus!

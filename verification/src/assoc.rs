//! Association lists: sequences of key/value pairs read as maps, where a
//! later pair overrides an earlier one with the same key.
use vstd::prelude::*;

verus! {

/// The map that a list of pairs denotes.
pub open spec fn assoc_map<K, V>(s: Seq<(K, V)>) -> Map<K, V>
    decreases s.len(),
{
    if s.len() == 0 {
        Map::empty()
    } else {
        assoc_map(s.drop_last()).insert(s.last().0, s.last().1)
    }
}

/// The list without the pairs whose key is `k`, order kept.
pub open spec fn without_key<K, V>(s: Seq<(K, V)>, k: K) -> Seq<(K, V)>
    decreases s.len(),
{
    if s.len() == 0 {
        s
    } else if s.last().0 == k {
        without_key(s.drop_last(), k)
    } else {
        without_key(s.drop_last(), k).push(s.last())
    }
}

/// Appending a pair inserts it into the map.
pub proof fn lemma_assoc_push<K, V>(s: Seq<(K, V)>, k: K, v: V)
    ensures
        assoc_map(s.push((k, v))) == assoc_map(s).insert(k, v),
{
    assert(s.push((k, v)).drop_last() =~= s);
}

/// The last pair with key `k` gives the map's value at `k`.
pub proof fn lemma_assoc_last<K, V>(s: Seq<(K, V)>, i: int)
    requires
        0 <= i < s.len(),
        forall|j: int| i < j < s.len() ==> s[j].0 != s[i].0,
    ensures
        assoc_map(s).contains_key(s[i].0),
        assoc_map(s)[s[i].0] == s[i].1,
    decreases s.len(),
{
    if i < s.len() - 1 {
        lemma_assoc_last(s.drop_last(), i);
    }
}

/// A key that no pair has is not in the map.
pub proof fn lemma_assoc_absent<K, V>(s: Seq<(K, V)>, k: K)
    requires
        forall|j: int| 0 <= j < s.len() ==> s[j].0 != k,
    ensures
        !assoc_map(s).contains_key(k),
    decreases s.len(),
{
    if s.len() > 0 {
        lemma_assoc_absent(s.drop_last(), k);
    }
}

/// Dropping the pairs with key `k` removes `k` from the map.
pub proof fn lemma_assoc_without<K, V>(s: Seq<(K, V)>, k: K)
    ensures
        assoc_map(without_key(s, k)) == assoc_map(s).remove(k),
    decreases s.len(),
{
    if s.len() > 0 {
        lemma_assoc_without(s.drop_last(), k);
        let w = without_key(s.drop_last(), k);
        if s.last().0 != k {
            lemma_assoc_push(w, s.last().0, s.last().1);
        }
        assert(assoc_map(without_key(s, k)) =~= assoc_map(s).remove(k));
    } else {
        assert(assoc_map(s).remove(k) =~= Map::empty());
    }
}

/// No pair left has key `k`.
pub proof fn lemma_without_has_no_key<K, V>(s: Seq<(K, V)>, k: K)
    ensures
        forall|j: int| 0 <= j < without_key(s, k).len() ==> without_key(s, k)[j].0 != k,
        without_key(s, k).len() <= s.len(),
    decreases s.len(),
{
    if s.len() > 0 {
        lemma_without_has_no_key(s.drop_last(), k);
    }
}

/// Extending the filtered prefix by one element.
pub proof fn lemma_without_step<K, V>(s: Seq<(K, V)>, k: K, i: int)
    requires
        0 <= i < s.len(),
    ensures
        without_key(s.take(i + 1), k) == if s[i].0 == k {
            without_key(s.take(i), k)
        } else {
            without_key(s.take(i), k).push(s[i])
        },
{
    assert(s.take(i + 1).drop_last() =~= s.take(i));
}

} // verus!

//! Stable ordering of positions by integer keys (insertion sort), used
//! wherever items are ranked by score and put back in document order.
use vstd::prelude::*;

verus! {

/// Whether key `a` may stand before key `b`: not smaller when descending,
/// not larger when ascending.
pub open spec fn may_precede(a: u64, b: u64, descending: bool) -> bool {
    if descending { a >= b } else { a <= b }
}

/// Inserts position `p` into `order`, after every position whose key may
/// precede `p`'s key, scanning from the back.
pub open spec fn insert_pos(order: Seq<int>, keys: Seq<u64>, p: int, descending: bool) -> Seq<int>
    decreases order.len(),
{
    if order.len() == 0 {
        seq![p]
    } else if may_precede(keys[order.last()], keys[p], descending) {
        order.push(p)
    } else {
        insert_pos(order.drop_last(), keys, p, descending).push(order.last())
    }
}

/// Positions `0..n` ordered by key (descending or ascending); equal keys
/// keep their positions' order.
pub open spec fn sorted_positions(keys: Seq<u64>, n: nat, descending: bool) -> Seq<int>
    decreases n,
{
    if n == 0 {
        Seq::empty()
    } else {
        insert_pos(sorted_positions(keys, (n - 1) as nat, descending), keys, n - 1, descending)
    }
}

/// `a` comes before `b` in the stable order: strictly better key, or equal
/// key and earlier position.
pub open spec fn stable_before(keys: Seq<u64>, a: int, b: int, descending: bool) -> bool {
    (may_precede(keys[a], keys[b], descending) && keys[a] != keys[b]) || (keys[a] == keys[b] && a < b)
}

/// `order` is a permutation of `0..n` in stable key order.
pub open spec fn is_stable_order(keys: Seq<u64>, order: Seq<int>, n: nat, descending: bool) -> bool {
    &&& order.len() == n
    &&& forall|k: int| 0 <= k < n ==> 0 <= #[trigger] order[k] < n
    &&& forall|k: int, l: int| 0 <= k < l < n ==> order[k] != order[l]
    &&& forall|k: int, l: int| 0 <= k < l < n ==> stable_before(keys, #[trigger] order[k], #[trigger] order[l], descending)
}

/// Scanning back: the part of `order` after the insertion point is kept.
proof fn lemma_insert_split(order: Seq<int>, keys: Seq<u64>, p: int, descending: bool, j: int)
    requires
        0 <= j < order.len(),
        !may_precede(keys[order[j]], keys[p], descending),
    ensures
        insert_pos(order.take(j + 1), keys, p, descending)
            == insert_pos(order.take(j), keys, p, descending).push(order[j]),
{
    assert(order.take(j + 1).drop_last() =~= order.take(j));
}

/// Whether key `a` may stand before key `b`.
fn precedes(a: u64, b: u64, descending: bool) -> (r: bool)
    ensures
        r == may_precede(a, b, descending),
{
    if descending { a >= b } else { a <= b }
}

/// The stable insertion of position `p` into `order`.
fn insert_position(order: &mut Vec<usize>, keys: &Vec<u64>, p: usize, descending: bool)
    requires
        p < keys.len(),
        forall|k: int| 0 <= k < old(order).len() ==> old(order)[k] < keys.len(),
    ensures
        final(order)@.map_values(|x: usize| x as int)
            == insert_pos(old(order)@.map_values(|x: usize| x as int), keys@, p as int, descending),
{
    let ghost o = old(order)@.map_values(|x: usize| x as int);
    let kp = keys[p];
    let mut j: usize = order.len();
    assert(o.take(j as int) =~= o);
    assert(insert_pos(o, keys@, p as int, descending) + o.skip(j as int)
        =~= insert_pos(o, keys@, p as int, descending));
    while j > 0 && !precedes(keys[order[j - 1]], kp, descending)
        invariant
            j <= order.len(),
            order@ == old(order)@,
            o == old(order)@.map_values(|x: usize| x as int),
            kp == keys@[p as int],
            p < keys.len(),
            forall|k: int| 0 <= k < order.len() ==> order[k] < keys.len(),
            insert_pos(o, keys@, p as int, descending)
                == insert_pos(o.take(j as int), keys@, p as int, descending) + o.skip(j as int),
        decreases j,
    {
        proof {
            lemma_insert_split(o, keys@, p as int, descending, j - 1);
            assert(o.take(j as int) =~= o.take(j - 1).push(o[j - 1]));
            assert(o.skip(j - 1) =~= seq![o[j - 1]] + o.skip(j as int));
            assert(insert_pos(o.take(j - 1), keys@, p as int, descending) + o.skip(j - 1)
                =~= insert_pos(o.take(j - 1), keys@, p as int, descending).push(o[j - 1]) + o.skip(j as int));
        }
        j = j - 1;
    }
    proof {
        if j == 0 {
            assert(o.take(0) =~= Seq::<int>::empty());
        } else {
            assert(o.take(j as int).drop_last() =~= o.take(j - 1));
            assert(o.take(j as int).last() == o[j - 1]);
        }
    }
    order.insert(j, p);
    proof {
        assert(order@.map_values(|x: usize| x as int) =~= o.take(j as int).push(p as int) + o.skip(j as int));
    }
}

/// Inserting keeps every member and adds `p`.
pub proof fn lemma_insert_pos_members(o: Seq<int>, keys: Seq<u64>, p: int, descending: bool)
    ensures
        insert_pos(o, keys, p, descending).len() == o.len() + 1,
        forall|x: int| #[trigger] insert_pos(o, keys, p, descending).contains(x) <==> (x == p || o.contains(x)),
    decreases o.len(),
{
    let r = insert_pos(o, keys, p, descending);
    if o.len() == 0 {
        assert forall|x: int| #[trigger] r.contains(x) <==> (x == p || o.contains(x)) by {
            if r.contains(x) {
                assert(r[0] == p);
            }
            if x == p {
                assert(r[0] == x);
            }
        }
    } else if may_precede(keys[o.last()], keys[p], descending) {
        assert forall|x: int| #[trigger] r.contains(x) <==> (x == p || o.contains(x)) by {
            if r.contains(x) {
                let k = choose|k: int| 0 <= k < r.len() && r[k] == x;
                if k < o.len() {
                    assert(o[k] == x);
                }
            }
            if x == p {
                assert(r[o.len() as int] == x);
            }
            if o.contains(x) {
                let k = choose|k: int| 0 <= k < o.len() && o[k] == x;
                assert(r[k] == x);
            }
        }
    } else {
        let d = o.drop_last();
        let r0 = insert_pos(d, keys, p, descending);
        lemma_insert_pos_members(d, keys, p, descending);
        assert forall|x: int| #[trigger] r.contains(x) <==> (x == p || o.contains(x)) by {
            if r.contains(x) {
                let k = choose|k: int| 0 <= k < r.len() && r[k] == x;
                if k < r0.len() {
                    assert(r0[k] == x);
                    assert(r0.contains(x));
                    if x != p {
                        let j = choose|j: int| 0 <= j < d.len() && d[j] == x;
                        assert(o[j] == x);
                    }
                } else {
                    assert(o[o.len() - 1] == x);
                }
            }
            if x == p {
                assert(r0.contains(x));
                let k = choose|k: int| 0 <= k < r0.len() && r0[k] == x;
                assert(r[k] == x);
            }
            if o.contains(x) {
                let j = choose|j: int| 0 <= j < o.len() && o[j] == x;
                if j < d.len() {
                    assert(d[j] == x);
                    assert(r0.contains(x));
                    let k = choose|k: int| 0 <= k < r0.len() && r0[k] == x;
                    assert(r[k] == x);
                } else {
                    assert(r[r.len() - 1] == x);
                }
            }
        }
    }
}

/// `o` lists positions below `bound` in stable key order.
pub open spec fn sorted_below(keys: Seq<u64>, o: Seq<int>, bound: int, descending: bool) -> bool {
    &&& forall|k: int| 0 <= k < o.len() ==> 0 <= #[trigger] o[k] < bound
    &&& forall|k: int, l: int| 0 <= k < l < o.len() ==> stable_before(keys, #[trigger] o[k], #[trigger] o[l], descending)
}

/// Inserting a new largest position keeps the list in stable key order.
pub proof fn lemma_insert_sorted(o: Seq<int>, keys: Seq<u64>, p: int, descending: bool)
    requires
        sorted_below(keys, o, p, descending),
        0 <= p,
    ensures
        sorted_below(keys, insert_pos(o, keys, p, descending), p + 1, descending),
    decreases o.len(),
{
    let r = insert_pos(o, keys, p, descending);
    lemma_insert_pos_members(o, keys, p, descending);
    if o.len() == 0 {
    } else if may_precede(keys[o.last()], keys[p], descending) {
        assert forall|k: int, l: int| 0 <= k < l < r.len() implies stable_before(keys, #[trigger] r[k], #[trigger] r[l], descending) by {
            if l == o.len() {
                let last = o.last();
                if k < o.len() - 1 {
                    assert(stable_before(keys, o[k], o[o.len() - 1], descending));
                }
            } else {
                assert(r[k] == o[k] && r[l] == o[l]);
            }
        }
    } else {
        let d = o.drop_last();
        let r0 = insert_pos(d, keys, p, descending);
        lemma_insert_sorted(d, keys, p, descending);
        lemma_insert_pos_members(d, keys, p, descending);
        let last = o.last();
        assert forall|k: int, l: int| 0 <= k < l < r.len() implies stable_before(keys, #[trigger] r[k], #[trigger] r[l], descending) by {
            if l == r.len() - 1 {
                assert(r[l] == last);
                assert(r0.contains(r[k]));
                if r[k] != p {
                    let j = choose|j: int| 0 <= j < d.len() && d[j] == r[k];
                    assert(stable_before(keys, o[j], o[o.len() - 1], descending));
                }
            } else {
                assert(r[k] == r0[k] && r[l] == r0[l]);
            }
        }
        assert forall|k: int| 0 <= k < r.len() implies 0 <= #[trigger] r[k] < p + 1 by {
            if k < r0.len() {
                assert(r[k] == r0[k]);
            }
        }
    }
}

/// The stable order of positions `0..n` is a permutation of them with
/// better keys first and equal keys in position order.
pub proof fn lemma_sorted_positions(keys: Seq<u64>, n: nat, descending: bool)
    ensures
        is_stable_order(keys, sorted_positions(keys, n, descending), n, descending),
    decreases n,
{
    lemma_sorted_positions_below(keys, n, descending);
    let o = sorted_positions(keys, n, descending);
    assert forall|k: int, l: int| 0 <= k < l < n implies o[k] != o[l] by {
        assert(stable_before(keys, o[k], o[l], descending));
    }
}

proof fn lemma_sorted_positions_below(keys: Seq<u64>, n: nat, descending: bool)
    ensures
        sorted_below(keys, sorted_positions(keys, n, descending), n as int, descending),
        sorted_positions(keys, n, descending).len() == n,
    decreases n,
{
    if n > 0 {
        let prev = sorted_positions(keys, (n - 1) as nat, descending);
        lemma_sorted_positions_below(keys, (n - 1) as nat, descending);
        lemma_insert_sorted(prev, keys, n - 1, descending);
        lemma_insert_pos_members(prev, keys, n - 1, descending);
    }
}

/// Positions `0..keys.len()` in stable key order.
pub fn stable_order(keys: &Vec<u64>, descending: bool) -> (order: Vec<usize>)
    ensures
        order@.map_values(|x: usize| x as int) == sorted_positions(keys@, keys@.len(), descending),
        forall|k: int| 0 <= k < order.len() ==> order[k] < keys.len(),
{
    let mut order: Vec<usize> = Vec::new();
    let mut p: usize = 0;
    assert(order@.map_values(|x: usize| x as int) =~= Seq::<int>::empty());
    while p < keys.len()
        invariant
            p <= keys.len(),
            order@.map_values(|x: usize| x as int) == sorted_positions(keys@, p as nat, descending),
            forall|k: int| 0 <= k < order.len() ==> order[k] < p,
        decreases keys.len() - p,
    {
        let ghost o = order@.map_values(|x: usize| x as int);
        insert_position(&mut order, keys, p, descending);
        proof {
            lemma_insert_pos_members(o, keys@, p as int, descending);
            let r = order@.map_values(|x: usize| x as int);
            assert forall|k: int| 0 <= k < order.len() implies order[k] < p + 1 by {
                assert(r[k] == order[k] as int);
                assert(r.contains(r[k]));
                if r[k] != p as int {
                    let j = choose|j: int| 0 <= j < o.len() && o[j] == r[k];
                }
            }
        }
        p = p + 1;
    }
    order
}

} // verus!

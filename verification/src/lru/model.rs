//! The mathematical model of the cache: a sequence of key-value pairs in
//! ascending recency order, least recently used first.
//!
//! The functions here say what each cache operation does to that sequence.
//! The proof functions state the properties that follow for every cache.
use vstd::prelude::*;

verus! {

/// Some entry of `s` is stored under `key`.
pub open spec fn has_key<K, V>(s: Seq<(K, V)>, key: K) -> bool {
    exists|i: int| 0 <= i < s.len() && (#[trigger] s[i]).0 == key
}

/// The index in `s` of an entry stored under `key`, meaningful when there is one.
pub open spec fn position<K, V>(s: Seq<(K, V)>, key: K) -> int {
    choose|i: int| 0 <= i < s.len() && (#[trigger] s[i]).0 == key
}

/// The value stored under `key`, if any.
pub open spec fn value_of<K, V>(s: Seq<(K, V)>, key: K) -> Option<V> {
    if has_key(s, key) {
        Some(s[position(s, key)].1)
    } else {
        None
    }
}

/// No key occurs twice in `s`.
pub open spec fn distinct_keys<K, V>(s: Seq<(K, V)>) -> bool {
    forall|i: int, j: int| 0 <= i < j < s.len() ==> (#[trigger] s[i]).0 != (#[trigger] s[j]).0
}

/// `s` is a possible content of a cache of the given capacity.
pub open spec fn fits<K, V>(s: Seq<(K, V)>, capacity: nat) -> bool {
    &&& capacity > 0
    &&& s.len() <= capacity
    &&& distinct_keys(s)
}

/// The content after a lookup of `key`: a resident entry moves to the most
/// recently used end, and a miss changes nothing.
pub open spec fn touched<K, V>(s: Seq<(K, V)>, key: K) -> Seq<(K, V)> {
    if has_key(s, key) {
        let i = position(s, key);
        s.remove(i).push(s[i])
    } else {
        s
    }
}

/// The content after `key` is stored with `value` in a cache of the given
/// capacity. A resident key keeps its place in the count and moves to the
/// most recently used end with the new value. A new key is appended, after
/// the least recently used entry has left if the cache is full.
pub open spec fn stored<K, V>(s: Seq<(K, V)>, capacity: nat, key: K, value: V) -> Seq<(K, V)> {
    if has_key(s, key) {
        s.remove(position(s, key)).push((key, value))
    } else if s.len() >= capacity {
        s.drop_first().push((key, value))
    } else {
        s.push((key, value))
    }
}

/// The content after every pair of `items` has been stored in turn,
/// starting from `s`.
pub open spec fn replayed<K, V>(s: Seq<(K, V)>, capacity: nat, items: Seq<(K, V)>) -> Seq<(K, V)>
    decreases items.len(),
{
    if items.len() == 0 {
        s
    } else {
        let last = items.last();
        stored(replayed(s, capacity, items.drop_last()), capacity, last.0, last.1)
    }
}

/// With distinct keys, an entry's key is found at that entry's own index.
pub proof fn lemma_position_unique<K, V>(s: Seq<(K, V)>, i: int)
    requires
        distinct_keys(s),
        0 <= i < s.len(),
    ensures
        has_key(s, s[i].0),
        position(s, s[i].0) == i,
        value_of(s, s[i].0) == Some(s[i].1),
{
    assert(s[i].0 == s[i].0);
    let p = position(s, s[i].0);
    assert(0 <= p < s.len() && s[p].0 == s[i].0);
    if p < i {
        assert(s[p].0 != s[i].0);
    }
    if i < p {
        assert(s[i].0 != s[p].0);
    }
}

/// Moving the entry at `p` to the most recently used end with a value of
/// the caller's choice keeps the keys and their distinctness, and touches
/// no other value.
pub proof fn lemma_moved_to_end<K, V>(s: Seq<(K, V)>, p: int, value: V)
    requires
        distinct_keys(s),
        0 <= p < s.len(),
    ensures
        ({
            let t = s.remove(p).push((s[p].0, value));
            &&& distinct_keys(t)
            &&& t.len() == s.len()
            &&& forall|k: K| has_key(t, k) <==> has_key(s, k)
            &&& forall|k: K| k != s[p].0 ==> value_of(t, k) == value_of(s, k)
            &&& value_of(t, s[p].0) == Some(value)
        }),
{
    let n = s.len() as int;
    let t = s.remove(p).push((s[p].0, value));
    assert forall|i: int| 0 <= i < n implies (#[trigger] t[i]).0 == s[origin(p, n, i)].0 by {}
    assert forall|i: int| 0 <= i < n - 1 implies #[trigger] t[i] == s[origin(p, n, i)] by {}
    assert forall|i: int, j: int| 0 <= i < j < t.len() implies (#[trigger] t[i]).0 != (#[trigger] t[j]).0 by {
        let a = origin(p, n, i);
        let b = origin(p, n, j);
        assert(t[i].0 == s[a].0 && t[j].0 == s[b].0);
        if a < b {
            assert(s[a].0 != s[b].0);
        } else {
            assert(s[b].0 != s[a].0);
        }
    }
    assert forall|k: K| has_key(t, k) <==> has_key(s, k) by {
        if has_key(t, k) {
            let i = position(t, k);
            assert(0 <= i < t.len() && t[i].0 == k);
            assert(s[origin(p, n, i)].0 == k);
        }
        if has_key(s, k) {
            let i = position(s, k);
            assert(0 <= i < s.len() && s[i].0 == k);
            let j = target(p, n, i);
            assert(t[j].0 == s[origin(p, n, j)].0);
        }
    }
    assert forall|k: K| k != s[p].0 implies value_of(t, k) == value_of(s, k) by {
        if has_key(s, k) {
            let i = position(s, k);
            assert(0 <= i < s.len() && s[i].0 == k);
            let j = target(p, n, i);
            assert(t[j] == s[origin(p, n, j)]);
            lemma_position_unique(t, j);
            lemma_position_unique(s, i);
        }
    }
    assert(t[n - 1] == (s[p].0, value));
    lemma_position_unique(t, n - 1);
}

/// A lookup keeps the keys, the values and the distinctness, and puts the
/// key that was found last.
pub proof fn lemma_touched<K, V>(s: Seq<(K, V)>, key: K)
    requires
        distinct_keys(s),
    ensures
        distinct_keys(touched(s, key)),
        touched(s, key).len() == s.len(),
        forall|k: K| has_key(touched(s, key), k) <==> has_key(s, k),
        forall|k: K| value_of(touched(s, key), k) == value_of(s, k),
        has_key(s, key) ==> touched(s, key).last().0 == key,
{
    if has_key(s, key) {
        let p = position(s, key);
        assert(0 <= p < s.len() && s[p].0 == key);
        lemma_moved_to_end(s, p, s[p].1);
        lemma_position_unique(s, p);
        assert(s[p] == (s[p].0, s[p].1));
    }
}

/// Storing keeps the content within the capacity and the keys distinct,
/// and leaves the stored pair as the most recently used entry.
pub proof fn lemma_stored<K, V>(s: Seq<(K, V)>, capacity: nat, key: K, value: V)
    requires
        fits(s, capacity),
    ensures
        fits(stored(s, capacity, key, value), capacity),
        stored(s, capacity, key, value).last() == (key, value),
        has_key(stored(s, capacity, key, value), key),
        value_of(stored(s, capacity, key, value), key) == Some(value),
{
    let t = stored(s, capacity, key, value);
    if has_key(s, key) {
        let p = position(s, key);
        assert(0 <= p < s.len() && s[p].0 == key);
        lemma_moved_to_end(s, p, value);
    } else {
        let base = if s.len() >= capacity { s.drop_first() } else { s };
        assert forall|i: int| 0 <= i < base.len() implies (#[trigger] base[i]).0 != key by {
            if s.len() >= capacity {
                assert(base[i] == s[i + 1]);
            }
        }
        assert forall|i: int, j: int| 0 <= i < j < t.len() implies (#[trigger] t[i]).0 != (#[trigger] t[j]).0 by {
            if j < base.len() {
                if s.len() >= capacity {
                    assert(base[i] == s[i + 1] && base[j] == s[j + 1]);
                }
                assert(t[i] == base[i] && t[j] == base[j]);
            } else {
                assert(t[i] == base[i]);
            }
        }
        lemma_position_unique(t, t.len() - 1);
    }
}

/// However many pairs are stored in turn, the
/// content stays within the capacity, with distinct keys, after every one
/// of them.
pub proof fn law_capacity_holds<K, V>(s: Seq<(K, V)>, capacity: nat, items: Seq<(K, V)>)
    requires
        fits(s, capacity),
    ensures
        fits(replayed(s, capacity, items), capacity),
        forall|n: int| 0 <= n <= items.len() ==> (#[trigger] replayed(s, capacity, items.take(n))).len()
            <= capacity,
    decreases items.len(),
{
    if items.len() > 0 {
        law_capacity_holds(s, capacity, items.drop_last());
        let last = items.last();
        lemma_stored(replayed(s, capacity, items.drop_last()), capacity, last.0, last.1);
    }
    assert forall|n: int| 0 <= n <= items.len() implies (#[trigger] replayed(
        s,
        capacity,
        items.take(n),
    )).len() <= capacity by {
        if n < items.len() {
            assert(items.take(n) =~= items.drop_last().take(n));
        } else {
            assert(items.take(n) =~= items);
        }
    }
}

/// Storing the content of a cache, pair by pair in its own
/// order, into an empty cache of the same capacity gives that content
/// again: the same order and the same value under every key.
pub proof fn law_replay_restores<K, V>(s: Seq<(K, V)>, capacity: nat)
    requires
        fits(s, capacity),
    ensures
        replayed(Seq::<(K, V)>::empty(), capacity, s) == s,
    decreases s.len(),
{
    if s.len() > 0 {
        let front = s.drop_last();
        let last = s.last();
        assert forall|i: int, j: int| 0 <= i < j < front.len() implies (#[trigger] front[i]).0 != (#[trigger] front[j]).0 by {
            assert(front[i] == s[i] && front[j] == s[j]);
        }
        law_replay_restores(front, capacity);
        assert(!has_key(front, last.0)) by {
            if has_key(front, last.0) {
                let i = position(front, last.0);
                assert(0 <= i < front.len() && front[i].0 == last.0);
                assert(front[i] == s[i]);
                assert(s[i].0 != s[s.len() - 1].0);
            }
        }
        assert(front.push(last) =~= s);
    }
}

/// After as many pairs with distinct
/// keys as the capacity plus one have been stored in an empty cache, the
/// first key is gone and every other one is resident.
pub proof fn law_oldest_is_evicted<K, V>(capacity: nat, items: Seq<(K, V)>)
    requires
        capacity > 0,
        items.len() == capacity + 1,
        distinct_keys(items),
    ensures
        replayed(Seq::<(K, V)>::empty(), capacity, items) == items.drop_first(),
        !has_key(replayed(Seq::<(K, V)>::empty(), capacity, items), items[0].0),
        forall|i: int| 1 <= i <= capacity ==> has_key(
            replayed(Seq::<(K, V)>::empty(), capacity, items),
            (#[trigger] items[i]).0,
        ),
{
    let front = items.drop_last();
    let last = items.last();
    let end = replayed(Seq::<(K, V)>::empty(), capacity, items);
    assert forall|i: int, j: int| 0 <= i < j < front.len() implies (#[trigger] front[i]).0 != (#[trigger] front[j]).0 by {
        assert(front[i] == items[i] && front[j] == items[j]);
    }
    law_replay_restores(front, capacity);
    assert(!has_key(front, last.0)) by {
        if has_key(front, last.0) {
            let i = position(front, last.0);
            assert(0 <= i < front.len() && front[i].0 == last.0);
            assert(front[i] == items[i]);
            assert(items[i].0 != items[items.len() - 1].0);
        }
    }
    assert(front.drop_first().push(last) =~= items.drop_first());
    assert(end == items.drop_first());
    assert(!has_key(end, items[0].0)) by {
        if has_key(end, items[0].0) {
            let i = position(end, items[0].0);
            assert(0 <= i < end.len() && end[i].0 == items[0].0);
            assert(end[i] == items[i + 1]);
            assert(items[0].0 != items[i + 1].0);
        }
    }
    assert forall|i: int| 1 <= i <= capacity implies has_key(end, (#[trigger] items[i]).0) by {
        assert(end[i - 1] == items[i]);
    }
}

/// Storing under a resident key
/// keeps the number of entries and evicts nothing: the same keys are
/// resident afterwards, each other key with the value it had.
pub proof fn law_update_keeps_size<K, V>(s: Seq<(K, V)>, capacity: nat, key: K, value: V)
    requires
        fits(s, capacity),
        has_key(s, key),
    ensures
        stored(s, capacity, key, value).len() == s.len(),
        forall|k: K| has_key(stored(s, capacity, key, value), k) <==> has_key(s, k),
        forall|k: K| k != key ==> value_of(stored(s, capacity, key, value), k) == value_of(s, k),
        value_of(stored(s, capacity, key, value), key) == Some(value),
{
    let p = position(s, key);
    assert(0 <= p < s.len() && s[p].0 == key);
    lemma_moved_to_end(s, p, value);
}

/// A lookup of a key that is not resident finds
/// nothing and leaves the content as it was: the same entries in the same
/// order.
pub proof fn law_miss_changes_nothing<K, V>(s: Seq<(K, V)>, key: K)
    requires
        !has_key(s, key),
    ensures
        value_of(s, key) is None,
        touched(s, key) == s,
{
}

/// A lookup of a resident key keeps every entry
/// and its value, and makes that key the most recently used one, so that it
/// is the last to be evicted.
pub proof fn law_hit_moves_last<K, V>(s: Seq<(K, V)>, capacity: nat, key: K)
    requires
        fits(s, capacity),
        has_key(s, key),
    ensures
        fits(touched(s, key), capacity),
        touched(s, key).len() == s.len(),
        touched(s, key).last().0 == key,
        forall|k: K| value_of(touched(s, key), k) == value_of(s, k),
{
    lemma_touched(s, key);
}

/// The index in the old sequence of the entry that stands at `i` after the
/// entry at `p` has moved to the end of a sequence of length `n`.
pub open spec fn origin(p: int, n: int, i: int) -> int {
    if i < p {
        i
    } else if i < n - 1 {
        i + 1
    } else {
        p
    }
}

/// The index after the move of the entry that stood at `i` before it.
pub open spec fn target(p: int, n: int, i: int) -> int {
    if i < p {
        i
    } else if i == p {
        n - 1
    } else {
        i - 1
    }
}

} // verus!

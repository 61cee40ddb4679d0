//! The cache engine: a hash index over an arena of doubly linked slots.
//!
//! The index finds the slot of a key, and the links between the slots hold
//! the recency order, so that a lookup and an insertion take constant time
//! whatever the size of the cache.
use std::collections::HashMap;
use std::hash::Hash;
use vstd::prelude::*;
use vstd::std_specs::hash::obeys_key_model;
use crate::lru::model::{
    fits, has_key, lemma_position_unique, lemma_stored, lemma_touched, origin, position, replayed,
    target,
};
use crate::lru::traits::CacheTrait;

pub mod model;
pub mod persistent;
pub mod text;
pub mod traits;

verus! {

/// The key type behaves as a key should: equal keys hash alike, `==` on
/// keys is equality, and a clone of a key is that key.
pub open spec fn key_model<K: Clone>() -> bool {
    &&& obeys_key_model::<K>()
    &&& forall|a: K, b: K| #[trigger] cloned::<K>(a, b) ==> a == b
}

/// One entry with its neighbours in recency order.
struct Slot<K, V> {
    key: K,
    value: V,
    /// The slot used just before this one; unused in the least recently used slot.
    prev: usize,
    /// The slot used just after this one; unused in the most recently used slot.
    next: usize,
}

/// A cache that holds at most `capacity` entries and evicts the least
/// recently used one to make room.
pub struct Cache<K, V> where K: Hash + Eq {
    capacity: usize,
    /// The slot of each resident key.
    index: HashMap<K, usize>,
    /// The entries, in no particular order.
    slots: Vec<Slot<K, V>>,
    /// The least recently used slot, when there is one.
    head: usize,
    /// The most recently used slot, when there is one.
    tail: usize,
    /// The slots in ascending recency order.
    order: Ghost<Seq<usize>>,
    /// The place of each slot in `order`.
    rank: Ghost<Seq<int>>,
}

/// The links of `slots` spell out `order`, from `head` to `tail`, and
/// `rank` is the inverse of `order`.
spec fn chained<K, V>(
    slots: Seq<Slot<K, V>>,
    order: Seq<usize>,
    rank: Seq<int>,
    head: usize,
    tail: usize,
) -> bool {
    let n = slots.len();
    &&& order.len() == n
    &&& rank.len() == n
    &&& forall|i: int| 0 <= i < n ==> 0 <= (#[trigger] order[i]) < n
    &&& forall|i: int| 0 <= i < n ==> rank[#[trigger] order[i] as int] == i
    &&& forall|s: int| 0 <= s < n ==> 0 <= (#[trigger] rank[s]) < n
    &&& forall|s: int| 0 <= s < n ==> order[#[trigger] rank[s]] == s
    &&& forall|i: int| 0 <= i < n - 1 ==> (#[trigger] slots[order[i] as int]).next == order[i + 1]
    &&& forall|i: int| 0 < i < n ==> (#[trigger] slots[order[i] as int]).prev == order[i - 1]
    &&& n > 0 ==> head == order[0] && tail == order[n - 1]
}

/// The order after the slot at place `r` has moved to the end.
spec fn order_after_move(order: Seq<usize>, r: int) -> Seq<usize> {
    order.remove(r).push(order[r])
}

/// The ranks after the slot at place `r` has moved to the end.
spec fn rank_after_move(rank: Seq<int>, r: int) -> Seq<int> {
    Seq::new(
        rank.len(),
        |s: int|
            if rank[s] == r {
                rank.len() - 1
            } else if rank[s] > r {
                rank[s] - 1
            } else {
                rank[s]
            },
    )
}

/// Unlinking the slot at place `r` and linking it behind the old tail
/// gives the chain in which that slot has moved to the end.
proof fn lemma_relinked<K, V>(
    before: Seq<Slot<K, V>>,
    after: Seq<Slot<K, V>>,
    order: Seq<usize>,
    rank: Seq<int>,
    head: usize,
    tail: usize,
    r: int,
)
    requires
        chained(before, order, rank, head, tail),
        0 <= r < before.len() - 1,
        after.len() == before.len(),
        forall|s: int| 0 <= s < before.len() ==> (#[trigger] after[s]).next == (if s == tail {
            order[r]
        } else if r > 0 && s == order[r - 1] {
            order[r + 1]
        } else {
            before[s].next
        }),
        forall|s: int| 0 <= s < before.len() ==> (#[trigger] after[s]).prev == (if s == order[r] {
            tail
        } else if s == order[r + 1] {
            before[order[r] as int].prev
        } else {
            before[s].prev
        }),
    ensures
        chained(
            after,
            order_after_move(order, r),
            rank_after_move(rank, r),
            if r == 0 { order[1] } else { head },
            order[r],
        ),
{
    let n = before.len() as int;
    let new_order = order_after_move(order, r);
    let new_rank = rank_after_move(rank, r);
    assert forall|i: int| 0 <= i < n implies #[trigger] new_order[i] == order[origin(r, n, i)] by {}
    assert forall|i: int| 0 <= i < n implies 0 <= (#[trigger] new_order[i]) < n by {
        assert(0 <= order[origin(r, n, i)] < n);
    }
    assert forall|i: int| 0 <= i < n implies new_rank[#[trigger] new_order[i] as int] == i by {
        let o = origin(r, n, i);
        assert(rank[order[o] as int] == o);
    }
    assert forall|s: int| 0 <= s < n implies 0 <= (#[trigger] new_rank[s]) < n by {
        assert(0 <= rank[s] < n);
    }
    assert forall|s: int| 0 <= s < n implies new_order[#[trigger] new_rank[s]] == s by {
        let q = rank[s];
        assert(order[q] == s);
        let t = target(r, n, q);
        assert(new_order[t] == order[origin(r, n, t)]);
    }
    assert forall|i: int| 0 <= i < n - 1 implies (#[trigger] after[new_order[i] as int]).next
        == new_order[i + 1] by {
        let o = origin(r, n, i);
        let s = order[o] as int;
        assert(new_order[i] == s);
        assert(new_order[i + 1] == order[origin(r, n, i + 1)]);
        assert(rank[s] == o);
        assert(rank[tail as int] == n - 1);
        if r > 0 {
            assert(rank[order[r - 1] as int] == r - 1);
        }
        if o < n - 1 {
            assert(before[s].next == order[o + 1]);
        }
    }
    assert forall|i: int| 0 < i < n implies (#[trigger] after[new_order[i] as int]).prev
        == new_order[i - 1] by {
        let o = origin(r, n, i);
        let s = order[o] as int;
        assert(new_order[i] == s);
        assert(new_order[i - 1] == order[origin(r, n, i - 1)]);
        assert(rank[s] == o);
        assert(rank[order[r] as int] == r);
        assert(rank[order[r + 1] as int] == r + 1);
        if o > 0 {
            assert(before[s].prev == order[o - 1]);
        }
        if r > 0 {
            assert(before[order[r] as int].prev == order[r - 1]);
        }
    }
    assert(new_order[0] == order[origin(r, n, 0)]);
    assert(new_order[n - 1] == order[origin(r, n, n - 1)]);
}

impl<K, V> View for Cache<K, V> where K: Hash + Eq {
    type V = Seq<(K, V)>;

    /// The resident entries, least recently used first.
    closed spec fn view(&self) -> Seq<(K, V)> {
        Seq::new(
            self.order@.len(),
            |i: int| (self.slots@[self.order@[i] as int].key, self.slots@[self.order@[i] as int].value),
        )
    }
}

impl<K, V> Cache<K, V> where K: Hash + Eq + Clone {
    /// The links between the slots spell out `order`.
    closed spec fn linked(&self) -> bool {
        chained(self.slots@, self.order@, self.rank@, self.head, self.tail)
    }

    /// The index maps each resident key to its slot, and nothing else.
    closed spec fn indexed(&self) -> bool {
        let n = self.slots@.len();
        &&& forall|s: int| 0 <= s < n ==> self.index@.contains_key((#[trigger] self.slots@[s]).key)
                && self.index@[self.slots@[s].key] == s
        &&& forall|k: K| #[trigger] self.index@.contains_key(k) ==> self.index@[k] < n
                && self.slots@[self.index@[k] as int].key == k
    }

    /// The invariant of the cache.
    pub closed spec fn wf(&self) -> bool {
        &&& key_model::<K>()
        &&& 0 < self.capacity
        &&& self.slots@.len() <= self.capacity
        &&& self.linked()
        &&& self.indexed()
    }

    /// The capacity that the cache was made with.
    pub closed spec fn capacity_spec(&self) -> nat {
        self.capacity as nat
    }

    /// What the invariant says of the view: it fits the capacity, its keys
    /// are those of the index, and each key stands where its slot ranks.
    proof fn lemma_view(&self)
        requires
            self.wf(),
        ensures
            fits(self@, self.capacity_spec()),
            self@.len() == self.slots@.len(),
            forall|k: K| has_key(self@, k) <==> self.index@.contains_key(k),
            forall|k: K| #[trigger] self.index@.contains_key(k) ==> {
                let r = self.rank@[self.index@[k] as int];
                &&& 0 <= r < self@.len()
                &&& position(self@, k) == r
                &&& self@[r] == (k, self.slots@[self.index@[k] as int].value)
            },
    {
        let v = self@;
        assert forall|i: int, j: int| 0 <= i < j < v.len() implies (#[trigger] v[i]).0 != (#[trigger] v[j]).0 by {
            let a = self.order@[i] as int;
            let b = self.order@[j] as int;
            assert(self.rank@[a] == i && self.rank@[b] == j);
            assert(self.index@[self.slots@[a].key] == a);
            assert(self.index@[self.slots@[b].key] == b);
        }
        assert forall|k: K| has_key(v, k) <==> self.index@.contains_key(k) by {
            if has_key(v, k) {
                let i = position(v, k);
                assert(0 <= i < v.len() && v[i].0 == k);
                let a = self.order@[i] as int;
                assert(self.index@.contains_key(self.slots@[a].key));
            }
            if self.index@.contains_key(k) {
                let r = self.rank@[self.index@[k] as int];
                assert(self.order@[r] == self.index@[k]);
                assert(v[r].0 == k);
            }
        }
        assert forall|k: K| #[trigger] self.index@.contains_key(k) implies {
            let r = self.rank@[self.index@[k] as int];
            &&& 0 <= r < v.len()
            &&& position(v, k) == r
            &&& v[r] == (k, self.slots@[self.index@[k] as int].value)
        } by {
            let r = self.rank@[self.index@[k] as int];
            assert(self.order@[r] == self.index@[k]);
            assert(v[r].0 == k);
            lemma_position_unique(v, r);
        }
    }

    /// Makes an empty cache that holds at most `capacity` entries.
    ///
    /// A cache that can hold nothing is a mistake of the caller: the
    /// capacity must not be zero. The key type must behave as `key_model`
    /// says, as the integer types do.
    pub fn new(capacity: usize) -> (cache: Self)
        requires
            capacity > 0,
            key_model::<K>(),
        ensures
            cache.wf(),
            cache@ == Seq::<(K, V)>::empty(),
            cache.capacity_spec() == capacity,
    {
        Cache {
            capacity,
            index: HashMap::with_capacity(capacity),
            slots: Vec::with_capacity(capacity),
            head: 0,
            tail: 0,
            order: Ghost(Seq::empty()),
            rank: Ghost(Seq::empty()),
        }
    }

    /// Makes a cache of the given capacity from what a durable store
    /// held. With nothing stored the cache is empty. Otherwise the stored
    /// pairs are put in their order, so that the last of them is the most
    /// recently used entry and the earliest ones leave if there are more
    /// than the cache can hold.
    pub fn new_persistent(capacity: usize, stored: Option<Vec<(K, V)>>) -> (cache: Self)
        requires
            capacity > 0,
            key_model::<K>(),
        ensures
            cache.wf(),
            cache.capacity_spec() == capacity,
            cache@ == match stored {
                Some(entries) => replayed(Seq::<(K, V)>::empty(), capacity as nat, entries@),
                None => Seq::<(K, V)>::empty(),
            },
    {
        let mut cache = Cache::new(capacity);
        match stored {
            Some(entries) => {
                let ghost items = entries@;
                for entry in it: entries.into_iter()
                    invariant
                        it.seq() == items,
                        cache.wf(),
                        cache.capacity_spec() == capacity,
                        cache@ == replayed(
                            Seq::<(K, V)>::empty(),
                            capacity as nat,
                            items.take(it.index() as int),
                        ),
                {
                    assert(items.take(it.index() + 1).drop_last() =~= items.take(it.index() as int));
                    let (key, value) = entry;
                    cache.put(key, value);
                }
                assert(items.take(items.len() as int) =~= items);
            },
            None => {},
        }
        cache
    }

    /// The capacity that the cache was made with.
    pub fn capacity(&self) -> (capacity: usize)
        ensures
            capacity == self.capacity_spec(),
    {
        self.capacity
    }

    /// The number of resident entries.
    pub fn len(&self) -> (len: usize)
        requires
            self.wf(),
        ensures
            len == self@.len(),
            len <= self.capacity_spec(),
    {
        self.slots.len()
    }

    /// Whether the cache holds no entry.
    pub fn is_empty(&self) -> (empty: bool)
        requires
            self.wf(),
        ensures
            empty <==> self@.len() == 0,
    {
        self.slots.len() == 0
    }

    /// Removes every entry. The capacity stays.
    pub fn clear(&mut self)
        requires
            old(self).wf(),
        ensures
            final(self).wf(),
            final(self)@ == Seq::<(K, V)>::empty(),
            final(self).capacity_spec() == old(self).capacity_spec(),
    {
        self.index.clear();
        self.slots.clear();
        self.order = Ghost(Seq::empty());
        self.rank = Ghost(Seq::empty());
    }

    /// The entries in ascending recency order, least recently used first.
    pub fn iter(&self) -> (items: Vec<(&K, &V)>)
        requires
            self.wf(),
        ensures
            items@.len() == self@.len(),
            forall|i: int| 0 <= i < items@.len() ==> *(#[trigger] items@[i]).0 == self@[i].0
                && *items@[i].1 == self@[i].1,
    {
        let mut items: Vec<(&K, &V)> = Vec::with_capacity(self.slots.len());
        let mut current: usize = self.head;
        let mut done: usize = 0;
        while done < self.slots.len()
            invariant
                self.wf(),
                done <= self.slots@.len(),
                done < self.slots@.len() ==> current == self.order@[done as int],
                items@.len() == done,
                forall|i: int| 0 <= i < done ==> *(#[trigger] items@[i]).0 == self@[i].0
                    && *items@[i].1 == self@[i].1,
            decreases self.slots@.len() - done,
        {
            let slot = &self.slots[current];
            items.push((&slot.key, &slot.value));
            current = slot.next;
            done = done + 1;
        }
        items
    }

    /// Gives the entry in `slot` a new value and makes it the most
    /// recently used one.
    fn refresh(&mut self, slot: usize, value: V)
        requires
            old(self).wf(),
            slot < old(self).slots@.len(),
        ensures
            final(self).wf(),
            final(self).capacity == old(self).capacity,
            final(self)@ == old(self)@.remove(old(self).rank@[slot as int]).push(
                (old(self).slots@[slot as int].key, value),
            ),
    {
        let ghost before = self@;
        let ghost r = self.rank@[slot as int];
        assert(self.order@[r] == slot);
        self.slots[slot].value = value;
        assert(self@ =~= before.update(r, (self.slots@[slot as int].key, value)));
        self.move_to_recently_used(slot);
        assert(self@ =~= before.remove(r).push((self.slots@[slot as int].key, value)));
    }

    /// Puts a key that is not resident in the place of the least recently
    /// used entry of a full cache, as the most recently used one.
    fn recycle(&mut self, key: K, value: V)
        requires
            old(self).wf(),
            old(self).slots@.len() == old(self).capacity,
            !old(self).index@.contains_key(key),
        ensures
            final(self).wf(),
            final(self).capacity == old(self).capacity,
            final(self)@ == old(self)@.drop_first().push((key, value)),
    {
        let ghost before = self@;
        let stored_key = key.clone();
        assert(cloned::<K>(key, stored_key));
        let slot = self.head;
        assert(self.rank@[slot as int] == 0);
        self.index.remove(&self.slots[slot].key);
        self.index.insert(stored_key, slot);
        self.slots[slot].key = key;
        self.slots[slot].value = value;
        assert(self.indexed());
        assert(self@ =~= before.update(0, (key, value)));
        self.move_to_recently_used(slot);
        assert(self@ =~= before.drop_first().push((key, value)));
    }

    /// Adds a key that is not resident to a cache with room left, as the
    /// most recently used entry.
    fn append(&mut self, key: K, value: V)
        requires
            old(self).wf(),
            old(self).slots@.len() < old(self).capacity,
            !old(self).index@.contains_key(key),
        ensures
            final(self).wf(),
            final(self).capacity == old(self).capacity,
            final(self)@ == old(self)@.push((key, value)),
    {
        let ghost before = self@;
        let stored_key = key.clone();
        assert(cloned::<K>(key, stored_key));
        let slot = self.slots.len();
        self.index.insert(stored_key, slot);
        self.slots.push(Slot { key, value, prev: self.tail, next: slot });
        if slot > 0 {
            let last = self.tail;
            self.slots[last].next = slot;
        } else {
            self.head = slot;
        }
        self.tail = slot;
        proof {
            self.order = Ghost(self.order@.push(slot));
            self.rank = Ghost(self.rank@.push(slot as int));
        }
        assert(self.indexed());
        assert(self.linked());
        assert(self@ =~= before.push((key, value)));
    }

    /// Makes `slot` the most recently used one.
    fn move_to_recently_used(&mut self, slot: usize)
        requires
            old(self).linked(),
            slot < old(self).slots@.len(),
        ensures
            final(self).linked(),
            final(self).capacity == old(self).capacity,
            final(self).index == old(self).index,
            final(self).slots@.len() == old(self).slots@.len(),
            forall|s: int| 0 <= s < old(self).slots@.len() ==> (#[trigger] final(self).slots@[s]).key
                == old(self).slots@[s].key && final(self).slots@[s].value == old(self).slots@[s].value,
            final(self)@ == old(self)@.remove(old(self).rank@[slot as int]).push(
                old(self)@[old(self).rank@[slot as int]],
            ),
    {
        let ghost n = self.slots@.len() as int;
        let ghost r = self.rank@[slot as int];
        let ghost before = self@;
        assert(self.order@[r] == slot);
        if slot != self.tail {
            assert(r < n - 1);
            let prev = self.slots[slot].prev;
            let next = self.slots[slot].next;
            assert(next == self.order@[r + 1]);
            assert(self.rank@[next as int] == r + 1);
            if slot == self.head {
                assert(r == 0);
                self.head = next;
            } else {
                assert(r > 0);
                assert(prev == self.order@[r - 1]);
                self.slots[prev].next = next;
            }
            self.slots[next].prev = prev;
            let last = self.tail;
            self.slots[last].next = slot;
            self.slots[slot].prev = last;
            self.tail = slot;
            proof {
                lemma_relinked(
                    old(self).slots@,
                    self.slots@,
                    self.order@,
                    self.rank@,
                    old(self).head,
                    old(self).tail,
                    r,
                );
                let old_order = self.order@;
                self.order = Ghost(order_after_move(self.order@, r));
                self.rank = Ghost(rank_after_move(self.rank@, r));
                assert forall|i: int| 0 <= i < n implies #[trigger] self@[i] == before.remove(r).push(
                    before[r],
                )[i] by {
                    assert(self.order@[i] == old_order[origin(r, n, i)]);
                }
                assert(self@ =~= before.remove(r).push(before[r]));
            }
        } else {
            assert(r == n - 1);
            assert(before.remove(r).push(before[r]) =~= before);
        }
    }
}

impl<K, V> CacheTrait<K, V> for Cache<K, V> where K: Hash + Eq + Clone {
    open spec fn well_formed(&self) -> bool {
        self.wf()
    }

    open spec fn contents(&self) -> Seq<(K, V)> {
        self@
    }

    open spec fn bound(&self) -> nat {
        self.capacity_spec()
    }

    proof fn contents_fit(&self) {
        self.lemma_view();
    }

    fn get(&mut self, key: &K) -> (result: Option<&V>) {
        proof {
            self.lemma_view();
        }
        let found: Option<usize> = match self.index.get(key) {
            Some(slot) => Some(*slot),
            None => None,
        };
        match found {
            Some(slot) => {
                proof {
                    lemma_touched(self@, *key);
                }
                self.move_to_recently_used(slot);
                Some(&self.slots[slot].value)
            },
            None => None,
        }
    }

    fn put(&mut self, key: K, value: V) {
        proof {
            self.lemma_view();
        }
        let found: Option<usize> = match self.index.get(&key) {
            Some(slot) => Some(*slot),
            None => None,
        };
        match found {
            Some(slot) => self.refresh(slot, value),
            None => {
                if self.slots.len() >= self.capacity {
                    self.recycle(key, value);
                } else {
                    self.append(key, value);
                }
            },
        }
        proof {
            lemma_stored(old(self)@, old(self).capacity_spec(), key, value);
        }
    }
}

} // verus!

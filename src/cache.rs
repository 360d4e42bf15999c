use std::collections::hash_map::Entry as MapEntry;
use std::collections::HashMap;
use vstd::prelude::*;
use crate::recency::{
    insert_step, lemma_index_of_unique, lemma_to_front_absent, lemma_to_front_present, to_front,
};

verus! {

broadcast use vstd::std_specs::hash::group_hash_axioms;

/// Largest `u16` value; a capacity must stay below it, so keys can index every slot.
pub const KEY_MAX: usize = 65535;

/// A record of the slot table: the value and its neighbours in recency order.
#[derive(Debug, Clone)]
pub struct Entry<T> {
    val: T,
    /// Key of the more recently used neighbour; meaningless for the head.
    prev: u16,
    /// Key of the less recently used neighbour; meaningless for the tail.
    next: u16,
}

/// A least-recently-used cache holding at most `capacity` entries.
#[derive(Clone)]
pub struct LRUCache<T> {
    entries: HashMap<u16, Entry<T>>,
    /// Key of the most recently used entry; ignored when empty.
    head: u16,
    /// Key of the least recently used entry; ignored when empty.
    tail: u16,
    capacity: usize,
    /// Whether a new key arriving when full evicts the least recently used entry;
    /// when not, the capacity is advisory only.
    evicts: bool,
    /// Keys from most to least recently used.
    order: Ghost<Seq<u16>>,
}

/// `s` is the list that the links of `m` spell out from `head` to `tail`.
spec fn linked<T>(m: Map<u16, Entry<T>>, s: Seq<u16>, head: u16, tail: u16) -> bool {
    &&& s.no_duplicates()
    &&& forall|i: int| 0 <= i < s.len() ==> #[trigger] m.contains_key(s[i])
    &&& s.len() > 0 ==> head == s[0] && tail == s.last()
    &&& forall|i: int| 0 <= i < s.len() - 1 ==> #[trigger] m[s[i]].next == s[i + 1]
    &&& forall|i: int| 0 < i < s.len() ==> #[trigger] m[s[i]].prev == s[i - 1]
}

impl<T> LRUCache<T> {
    /// Keys from most to least recently used.
    pub closed spec fn order(&self) -> Seq<u16> {
        self.order@
    }

    /// The value stored under each key.
    pub closed spec fn values(&self) -> Map<u16, T> {
        self.entries@.map_values(|e: Entry<T>| e.val)
    }

    /// The most entries the cache holds.
    pub closed spec fn spec_capacity(&self) -> usize {
        self.capacity
    }

    /// Whether inserting a new key into a full cache evicts the least recently used entry.
    pub closed spec fn evicts(&self) -> bool {
        self.evicts
    }

    /// The links spell out the order, the order holds exactly the keys of the
    /// table, once each, and an evicting cache's capacity bounds their number.
    pub closed spec fn wf(&self) -> bool {
        &&& linked(self.entries@, self.order@, self.head, self.tail)
        &&& forall|k: u16| #[trigger] self.entries@.contains_key(k) ==> self.order@.contains(k)
        &&& self.entries@.len() == self.order@.len()
        &&& self.evicts ==> self.order@.len() <= self.capacity
        &&& self.capacity < KEY_MAX
    }

    /// Creates an empty cache that holds at most `capacity` entries, evicting the
    /// least recently used entry to make room.
    pub fn new(capacity: usize) -> (r: Self)
        requires
            capacity < KEY_MAX,
        ensures
            r.wf(),
            r.order() == Seq::<u16>::empty(),
            r.values() == Map::<u16, T>::empty(),
            r.spec_capacity() == capacity,
            r.evicts(),
    {
        let r = LRUCache {
            entries: HashMap::new(),
            head: 0,
            tail: 0,
            capacity,
            evicts: true,
            order: Ghost(Seq::empty()),
        };
        assert(r.values() =~= Map::<u16, T>::empty());
        r
    }

    /// Creates an empty cache that never evicts on its own: `capacity` is advisory,
    /// and `remove_lru` is how entries leave it.
    pub fn unbounded(capacity: usize) -> (r: Self)
        requires
            capacity < KEY_MAX,
        ensures
            r.wf(),
            r.order() == Seq::<u16>::empty(),
            r.values() == Map::<u16, T>::empty(),
            r.spec_capacity() == capacity,
            !r.evicts(),
    {
        let r = LRUCache {
            entries: HashMap::new(),
            head: 0,
            tail: 0,
            capacity,
            evicts: false,
            order: Ghost(Seq::empty()),
        };
        assert(r.values() =~= Map::<u16, T>::empty());
        r
    }

    /// Number of entries held.
    pub fn len(&self) -> (r: usize)
        requires
            self.wf(),
        ensures
            r == self.order().len(),
    {
        self.entries.len()
    }

    /// The most entries the cache holds.
    pub fn capacity(&self) -> (r: usize)
        ensures
            r == self.spec_capacity(),
    {
        self.capacity
    }

    /// Points the `next` link of the entry under `k` at `n`.
    fn set_next(&mut self, k: u16, n: u16)
        requires
            old(self).entries@.contains_key(k),
        ensures
            final(self).entries@ == old(self).entries@.insert(
                k,
                Entry { val: old(self).entries@[k].val, prev: old(self).entries@[k].prev, next: n },
            ),
            final(self).head == old(self).head,
            final(self).tail == old(self).tail,
            final(self).capacity == old(self).capacity,
            final(self).evicts == old(self).evicts,
            final(self).order == old(self).order,
    {
        match self.entries.entry(k) {
            MapEntry::Occupied(mut o) => {
                o.get_mut().next = n;
            },
            MapEntry::Vacant(_) => {},
        }
    }

    /// Points the `prev` link of the entry under `k` at `p`.
    fn set_prev(&mut self, k: u16, p: u16)
        requires
            old(self).entries@.contains_key(k),
        ensures
            final(self).entries@ == old(self).entries@.insert(
                k,
                Entry { val: old(self).entries@[k].val, prev: p, next: old(self).entries@[k].next },
            ),
            final(self).head == old(self).head,
            final(self).tail == old(self).tail,
            final(self).capacity == old(self).capacity,
            final(self).evicts == old(self).evicts,
            final(self).order == old(self).order,
    {
        match self.entries.entry(k) {
            MapEntry::Occupied(mut o) => {
                o.get_mut().prev = p;
            },
            MapEntry::Vacant(_) => {},
        }
    }

    /// Unlinks the key at position `j` of the order; its entry stays in the table.
    fn evict(&mut self, i: u16, Ghost(j): Ghost<int>)
        requires
            linked(old(self).entries@, old(self).order@, old(self).head, old(self).tail),
            0 <= j < old(self).order@.len(),
            old(self).order@[j] == i,
        ensures
            linked(final(self).entries@, final(self).order@, final(self).head, final(self).tail),
            final(self).order@ == old(self).order@.remove(j),
            final(self).entries@.dom() == old(self).entries@.dom(),
            forall|k: u16| #[trigger] final(self).entries@.contains_key(k)
                ==> final(self).entries@[k].val == old(self).entries@[k].val,
            final(self).capacity == old(self).capacity,
            final(self).evicts == old(self).evicts,
    {
        let ghost s = self.order@;
        let ghost m0 = self.entries@;
        let evicted = self.entries.get(&i).unwrap();
        let prev = evicted.prev;
        let next = evicted.next;
        assert(j > 0 ==> s[0] != s[j]);
        assert(j < s.len() - 1 ==> s[s.len() - 1] != s[j]);
        if i == self.head {
            self.head = next;
        } else {
            self.set_next(prev, next);
        }
        let ghost m1 = self.entries@;
        if i == self.tail {
            self.tail = prev;
        } else {
            assert(j + 1 < s.len());
            assert(m1.contains_key(s[j + 1]));
            self.set_prev(next, prev);
        }
        self.order = Ghost(s.remove(j));
        let ghost t = self.order@;
        let ghost m = self.entries@;
        assert(0 < j ==> prev == s[j - 1]);
        assert(j < s.len() - 1 ==> next == s[j + 1]);
        assert(forall|a: int| 0 <= a < t.len() ==> #[trigger] t[a] == s[if a < j { a } else { a + 1 }]);
        assert forall|a: int| 0 <= a < t.len() - 1 implies #[trigger] m[t[a]].next == t[a + 1] by {
            let p = if a < j { a } else { a + 1 };
            if p != j - 1 && j > 0 {
                assert(s[p] != s[j - 1]);
            }
            if p != j + 1 && j + 1 < s.len() {
                assert(s[p] != s[j + 1]);
            }
        }
        assert forall|a: int| 0 < a < t.len() implies #[trigger] m[t[a]].prev == t[a - 1] by {
            let p = if a < j { a } else { a + 1 };
            if p != j - 1 && j > 0 {
                assert(s[p] != s[j - 1]);
            }
            if p != j + 1 && j + 1 < s.len() {
                assert(s[p] != s[j + 1]);
            }
        }
        assert(m.dom() =~= m0.dom());
    }

    /// Links `i`, whose entry is already in the table, in front of the order.
    fn push_front(&mut self, i: u16)
        requires
            linked(old(self).entries@, old(self).order@, old(self).head, old(self).tail),
            old(self).entries@.contains_key(i),
            !old(self).order@.contains(i),
            old(self).entries@.len() == old(self).order@.len() + 1,
        ensures
            linked(final(self).entries@, final(self).order@, final(self).head, final(self).tail),
            final(self).order@ == seq![i] + old(self).order@,
            final(self).entries@.dom() == old(self).entries@.dom(),
            forall|k: u16| #[trigger] final(self).entries@.contains_key(k)
                ==> final(self).entries@[k].val == old(self).entries@[k].val,
            final(self).capacity == old(self).capacity,
            final(self).evicts == old(self).evicts,
    {
        let ghost s = self.order@;
        let ghost m0 = self.entries@;
        if self.entries.len() == 1 {
            self.tail = i;
        } else {
            let head = self.head;
            assert(s.len() > 0);
            assert(m0.contains_key(s[0]));
            self.set_next(i, head);
            self.set_prev(head, i);
        }
        self.head = i;
        self.order = Ghost(seq![i] + s);
        let ghost t = self.order@;
        let ghost m = self.entries@;
        assert(forall|a: int| 0 < a < t.len() ==> #[trigger] t[a] == s[a - 1]);
        assert forall|a: int, b: int| 0 <= a < b < t.len() implies t[a] != t[b] by {
            if a == 0 {
                assert(s.contains(t[b]));
            }
        }
        assert forall|a: int| 0 <= a < t.len() - 1 implies #[trigger] m[t[a]].next == t[a + 1] by {
            if a > 0 {
                assert(s[a - 1] != i);
                assert(a > 1 ==> s[a - 1] != s[0]);
            }
        }
        assert forall|a: int| 0 < a < t.len() implies #[trigger] m[t[a]].prev == t[a - 1] by {
            assert(s[a - 1] != i);
            assert(a > 1 ==> s[a - 1] != s[0]);
        }
        assert(m.dom() =~= m0.dom());
    }

    /// Moves the present key `idx` to the front of the order.
    fn touch_index(&mut self, idx: u16)
        requires
            old(self).wf(),
            old(self).order@.contains(idx),
        ensures
            final(self).wf(),
            final(self).order@ == to_front(old(self).order@, idx),
            final(self).entries@.dom() == old(self).entries@.dom(),
            forall|k: u16| #[trigger] final(self).entries@.contains_key(k)
                ==> final(self).entries@[k].val == old(self).entries@[k].val,
            final(self).capacity == old(self).capacity,
            final(self).evicts == old(self).evicts,
    {
        let ghost s = self.order@;
        let ghost j = s.index_of(idx);
        proof {
            lemma_to_front_present(s, idx);
        }
        if idx != self.head {
            self.evict(idx, Ghost(j));
            proof {
                lemma_index_of_unique(s, j);
            }
            self.push_front(idx);
        } else {
            proof {
                lemma_index_of_unique(s, 0);
                assert(to_front(s, idx) =~= s);
            }
        }
        assert forall|k: u16| #[trigger] self.entries@.contains_key(k) implies self.order@.contains(k) by {
            assert(s.contains(k));
        }
    }

    /// What a well-formed cache guarantees: each key appears once in the order,
    /// exactly the keys of the order hold values, and, where the cache evicts, the
    /// capacity bounds the count.
    pub proof fn lemma_wf(&self)
        requires
            self.wf(),
        ensures
            self.order().no_duplicates(),
            forall|k: u16| #[trigger] self.values().contains_key(k) <==> self.order().contains(k),
            self.evicts() ==> self.order().len() <= self.spec_capacity(),
            self.spec_capacity() < KEY_MAX,
    {
        assert forall|k: u16| #[trigger] self.order().contains(k) implies self.values().contains_key(k) by {
            assert(self.entries@.contains_key(self.order@[self.order@.index_of(k)]));
        }
    }

    /// Removes and returns the least recently used entry, if any.
    pub fn remove_lru(&mut self) -> (r: Option<(u16, T)>)
        requires
            old(self).wf(),
        ensures
            final(self).wf(),
            final(self).spec_capacity() == old(self).spec_capacity(),
            final(self).evicts() == old(self).evicts(),
            old(self).order().len() == 0 ==> {
                &&& r.is_none()
                &&& final(self).order() == old(self).order()
                &&& final(self).values() == old(self).values()
            },
            old(self).order().len() > 0 ==> {
                &&& r == Some((old(self).order().last(), old(self).values()[old(self).order().last()]))
                &&& final(self).order() == old(self).order().drop_last()
                &&& final(self).values() == old(self).values().remove(old(self).order().last())
            },
    {
        let ghost s = self.order@;
        let ghost m0 = self.entries@;
        proof {
            if s.len() == 0 {
                assert(m0.dom().finite());
                assert(!m0.contains_key(self.tail)) by {
                    if m0.contains_key(self.tail) {
                        assert(m0.dom().contains(self.tail));
                    }
                }
            } else {
                assert(m0.contains_key(s[s.len() - 1]));
            }
        }
        match self.entries.remove(&self.tail) {
            Some(old_tail) => {
                let old_key = self.tail;
                self.tail = old_tail.prev;
                self.order = Ghost(s.drop_last());
                proof {
                    let t = self.order@;
                    let m = self.entries@;
                    assert(s.len() > 1 ==> s[s.len() - 2] != old_key);
                    assert(forall|a: int| 0 <= a < t.len() ==> #[trigger] t[a] == s[a] && s[a] != old_key);
                    assert forall|k: u16| #[trigger] m.contains_key(k) implies t.contains(k) by {
                        assert(s.contains(k));
                        let a = s.index_of(k);
                        assert(t[a] == k);
                    }
                    assert(self.values() =~= old(self).values().remove(old_key));
                }
                Some((old_key, old_tail.val))
            },
            None => None,
        }
    }

    /// Removes every entry.
    pub fn clear(&mut self)
        requires
            old(self).wf(),
        ensures
            final(self).wf(),
            final(self).spec_capacity() == old(self).spec_capacity(),
            final(self).evicts() == old(self).evicts(),
            final(self).order() == Seq::<u16>::empty(),
            final(self).values() == Map::<u16, T>::empty(),
    {
        self.entries.clear();
        self.order = Ghost(Seq::empty());
        assert(self.values() =~= Map::<u16, T>::empty());
    }

    /// Inserts `val` under `key` and makes `key` the most recently used.
    /// In an evicting cache, a new key arriving when the cache is full first evicts
    /// the least recently used entry. Returns the value `key` held before, if any.
    pub fn insert(&mut self, key: u16, val: T) -> (r: Option<T>)
        requires
            old(self).wf(),
            old(self).evicts() ==> old(self).spec_capacity() > 0,
        ensures
            final(self).wf(),
            final(self).spec_capacity() == old(self).spec_capacity(),
            final(self).evicts() == old(self).evicts(),
            final(self).order() == if old(self).evicts() {
                insert_step(old(self).order(), old(self).spec_capacity() as nat, key)
            } else {
                to_front(old(self).order(), key)
            },
            old(self).order().contains(key) ==> r == Some(old(self).values()[key]),
            !old(self).order().contains(key) ==> r.is_none(),
            old(self).evicts() && !old(self).order().contains(key) && old(self).order().len()
                == old(self).spec_capacity() ==> final(self).values() == old(self).values().remove(
                old(self).order().last(),
            ).insert(key, val),
            !old(self).evicts() || old(self).order().contains(key) || old(self).order().len()
                < old(self).spec_capacity() ==> final(self).values() == old(self).values().insert(
                key,
                val,
            ),
    {
        proof {
            self.lemma_wf();
        }
        if self.evicts && self.entries.len() == self.capacity && !self.entries.contains_key(&key) {
            let _ = self.remove_lru();
        }
        proof {
            self.lemma_wf();
        }
        let ghost v1 = self.values();
        let ghost s1 = self.order@;
        let ghost m1 = self.entries@;
        match self.entries.entry(key) {
            MapEntry::Occupied(mut e) => {
                let prev = e.get().prev;
                let next = e.get().next;
                let old_entry = e.insert(Entry { val, prev, next });
                proof {
                    assert(self.entries@.dom() =~= m1.dom());
                    assert(self.values() =~= v1.insert(key, val));
                    assert forall|k: u16| #[trigger] self.entries@.contains_key(k) implies s1.contains(k) by {
                        assert(m1.contains_key(k));
                    }
                    assert(forall|a: int| 0 <= a < s1.len() ==> #[trigger] m1.contains_key(s1[a]));
                    assert(forall|a: int| 0 <= a < s1.len() && s1[a] != key
                        ==> #[trigger] self.entries@[s1[a]] == m1[s1[a]]);
                }
                self.touch_index(key);
                Some(old_entry.val)
            },
            MapEntry::Vacant(e) => {
                e.insert(Entry { val, prev: 0, next: 0 });
                proof {
                    lemma_to_front_absent(s1, key);
                    assert(self.entries@.dom() =~= m1.dom().insert(key));
                    assert(forall|a: int| 0 <= a < s1.len() ==> #[trigger] m1.contains_key(s1[a]));
                    assert(forall|a: int| 0 <= a < s1.len() ==> s1[a] != key);
                }
                self.push_front(key);
                proof {
                    assert(self.values() =~= v1.insert(key, val));
                }
                None
            },
        }
    }

    /// Returns the value under `key`, making `key` the most recently used.
    pub fn get(&mut self, key: &u16) -> (r: Option<&T>)
        requires
            old(self).wf(),
        ensures
            final(self).wf(),
            final(self).spec_capacity() == old(self).spec_capacity(),
            final(self).evicts() == old(self).evicts(),
            final(self).values() == old(self).values(),
            old(self).order().contains(*key) ==> {
                &&& r.is_some()
                &&& *r.unwrap() == old(self).values()[*key]
                &&& final(self).order() == to_front(old(self).order(), *key)
            },
            !old(self).order().contains(*key) ==> r.is_none() && final(self).order() == old(self).order(),
    {
        proof {
            self.lemma_wf();
        }
        if self.entries.contains_key(key) {
            self.touch_index(*key);
        }
        proof {
            assert(self.values() =~= old(self).values());
        }
        match self.entries.get(key) {
            Some(e) => Some(&e.val),
            None => None,
        }
    }

    /// Returns the value under `key` for writing, making `key` the most recently used.
    pub fn get_mut(&mut self, key: &u16) -> (r: Option<&mut T>)
        requires
            old(self).wf(),
        ensures
            final(self).wf(),
            final(self).spec_capacity() == old(self).spec_capacity(),
            final(self).evicts() == old(self).evicts(),
            old(self).order().contains(*key) ==> {
                &&& r.is_some()
                &&& *r.unwrap() == old(self).values()[*key]
                &&& final(self).order() == to_front(old(self).order(), *key)
                &&& final(self).values() == old(self).values().insert(*key, *final(r.unwrap()))
            },
            !old(self).order().contains(*key) ==> {
                &&& r.is_none()
                &&& final(self).order() == old(self).order()
                &&& final(self).values() == old(self).values()
            },
    {
        proof {
            self.lemma_wf();
        }
        if self.entries.contains_key(key) {
            self.touch_index(*key);
        }
        match self.entries.entry(*key) {
            MapEntry::Occupied(o) => Some(&mut o.into_mut().val),
            MapEntry::Vacant(_) => None,
        }
    }

    /// A cursor over the entries, from most to least recently used.
    pub fn iter(&self) -> (r: Iter<'_, T>)
        requires
            self.wf(),
        ensures
            r.wf(),
            r.cache() == *self,
            r.remaining() == self.order(),
    {
        Iter { cache: self, pos: self.head, done: self.entries.len() == 0, taken: Ghost(0) }
    }
}

/// A read-only cursor over a cache, from most to least recently used.
pub struct Iter<'a, T> {
    cache: &'a LRUCache<T>,
    pos: u16,
    done: bool,
    /// How many entries have been produced.
    taken: Ghost<int>,
}

impl<'a, T> Iter<'a, T> {
    /// The cache being walked.
    pub closed spec fn cache(&self) -> LRUCache<T> {
        *self.cache
    }

    /// Keys still to be produced, in order.
    pub closed spec fn remaining(&self) -> Seq<u16> {
        self.cache.order@.subrange(self.taken@, self.cache.order@.len() as int)
    }

    /// The cursor stands at the entry after the `taken` already produced.
    pub closed spec fn wf(&self) -> bool {
        &&& self.cache.wf()
        &&& 0 <= self.taken@ <= self.cache.order@.len()
        &&& self.done <==> self.taken@ == self.cache.order@.len()
        &&& !self.done ==> self.pos == self.cache.order@[self.taken@]
    }

    /// Produces the next key and value, or `None` once the tail has been produced.
    pub fn next(&mut self) -> (r: Option<(u16, &'a T)>)
        requires
            old(self).wf(),
        ensures
            final(self).wf(),
            final(self).cache() == old(self).cache(),
            old(self).remaining().len() == 0 ==> r.is_none() && final(self).remaining() == old(self).remaining(),
            old(self).remaining().len() > 0 ==> {
                &&& r.is_some()
                &&& r.unwrap().0 == old(self).remaining()[0]
                &&& *r.unwrap().1 == old(self).cache().values()[old(self).remaining()[0]]
                &&& final(self).remaining() == old(self).remaining().drop_first()
            },
    {
        if self.done {
            return None;
        }
        let cache: &'a LRUCache<T> = self.cache;
        let ghost s = cache.order@;
        let ghost j = self.taken@;
        proof {
            assert(cache.entries@.contains_key(s[j]));
            assert(j < s.len() - 1 ==> s[j] != s[s.len() - 1]);
        }
        let entry = cache.entries.get(&self.pos).unwrap();
        let key = self.pos;
        if self.pos == cache.tail {
            self.done = true;
        }
        self.pos = entry.next;
        self.taken = Ghost(j + 1);
        proof {
            assert(self.remaining() =~= old(self).remaining().drop_first());
        }
        Some((key, &entry.val))
    }
}

} // verus!

//! The bounded key-value cache store.
//!
//! A [`CacheSystem`] owns a capacity-bounded mapping from `u32` keys to
//! [`CacheEntry`] values, together with two auxiliary key orderings:
//! `order`, the keys in the order they were first inserted (drives
//! first-in-first-out eviction), and `recently_used`, the keys ordered by
//! recency of access (drives least-recently-used eviction). Insertion never
//! evicts on its own: the caller makes room through [`CacheSystem::fifo`] or
//! [`CacheSystem::lru`].

use std::collections::VecDeque;
use vstd::prelude::*;

use crate::errors::CacheSystemError;

verus! {

/// One cached value together with its timestamp metadata.
///
/// `creation_time` is set once, when the entry is made, and never changes;
/// `last_accessed_time` starts equal to it and is refreshed by the store on
/// every successful read.
#[derive(Debug)]
pub struct CacheEntry<T> {
    pub value: T,
    pub creation_time: u64,
    pub last_accessed_time: u64,
}

/// Relies on `std::time::SystemTime::now`, read as whole milliseconds since
/// the Unix epoch (0 if the clock reads earlier than the epoch). The result
/// depends on the machine's clock, so nothing is stated of it.
#[verifier::external_body]
fn now_millis() -> u64 {
    match std::time::SystemTime::now().duration_since(std::time::UNIX_EPOCH) {
        Ok(d) => d.as_millis() as u64,
        Err(_) => 0,
    }
}

impl<T> CacheEntry<T> {
    /// Makes a fresh entry: both timestamps are the present moment.
    pub fn new(value: T) -> (e: CacheEntry<T>)
        ensures
            e.value == value,
            e.last_accessed_time == e.creation_time,
    {
        let t = now_millis();
        CacheEntry { value, creation_time: t, last_accessed_time: t }
    }
}

/// The key of each pair, in sequence order.
pub open spec fn keys_of<T>(s: Seq<(u32, CacheEntry<T>)>) -> Seq<u32> {
    Seq::new(s.len(), |i: int| s[i].0)
}

/// A capacity-bounded mapping from key to entry, with the two eviction
/// orderings. `entries` holds the pairs in insertion order under the
/// invariant that no key occurs twice; `order` mirrors its key sequence,
/// and `recently_used` holds the same keys, least recently read first.
#[derive(Debug)]
pub struct CacheSystem<T> {
    pub entries: Vec<(u32, CacheEntry<T>)>,
    pub order: VecDeque<u32>,
    pub recently_used: VecDeque<u32>,
    pub capacity: u32,
}

impl<T> CacheSystem<T> {
    /// The keys of `entries`, in insertion order.
    pub open spec fn keys(self) -> Seq<u32> {
        keys_of(self.entries@)
    }

    /// Whether the store holds `key`.
    pub open spec fn contains_key(self, key: u32) -> bool {
        self.keys().contains(key)
    }

    /// The number of entries the store holds.
    pub open spec fn num_entries(self) -> nat {
        self.entries@.len()
    }

    /// The position of `key` among the entries.
    pub open spec fn key_index(self, key: u32) -> int {
        self.keys().index_of(key)
    }

    /// The entry stored under `key`.
    pub open spec fn entry_of(self, key: u32) -> CacheEntry<T> {
        self.entries@[self.key_index(key)].1
    }

    /// The value stored under `key`.
    pub open spec fn value_of(self, key: u32) -> T {
        self.entry_of(key).value
    }

    /// Well-formedness: `order` is exactly the key sequence of `entries`,
    /// no key occurs twice, `recently_used` holds the same keys exactly
    /// once each, and the store is within its capacity.
    pub open spec fn wf(self) -> bool {
        &&& self.order@ == self.keys()
        &&& self.keys().no_duplicates()
        &&& self.recently_used@.no_duplicates()
        &&& (forall|k: u32| #[trigger] self.recently_used@.contains(k) ==> self.keys().contains(k))
        &&& (forall|k: u32| #[trigger] self.keys().contains(k) ==> self.recently_used@.contains(k))
        &&& self.recently_used@.len() == self.entries@.len()
        &&& self.entries@.len() <= self.capacity
    }

    /// Both stores hold the very same state.
    pub open spec fn same_state(self, other: CacheSystem<T>) -> bool {
        &&& self.entries@ == other.entries@
        &&& self.order@ == other.order@
        &&& self.recently_used@ == other.recently_used@
        &&& self.capacity == other.capacity
    }

    /// Makes an empty store whose capacity is fixed for its lifetime.
    pub fn new(capacity: u32) -> (c: CacheSystem<T>)
        ensures
            c.wf(),
            c.capacity == capacity,
            c.num_entries() == 0,
            c.order@ == Seq::<u32>::empty(),
            c.recently_used@ == Seq::<u32>::empty(),
    {
        let c = CacheSystem {
            entries: Vec::new(),
            order: VecDeque::new(),
            recently_used: VecDeque::new(),
            capacity,
        };
        proof {
            assert(c.keys() =~= Seq::<u32>::empty());
        }
        c
    }

    /// The position of `key` among the entries, or nothing if it is absent.
    pub(crate) fn find_key(entries: &Vec<(u32, CacheEntry<T>)>, key: u32) -> (r: Option<usize>)
        ensures
            match r {
                Some(i) => i < entries@.len() && entries@[i as int].0 == key,
                None => !keys_of(entries@).contains(key),
            },
    {
        let mut i: usize = 0;
        while i < entries.len()
            invariant
                i <= entries@.len(),
                forall|j: int| 0 <= j < i ==> entries@[j].0 != key,
            decreases entries@.len() - i,
        {
            if entries[i].0 == key {
                return Some(i);
            }
            i += 1;
        }
        proof {
            assert forall|j: int| 0 <= j < keys_of(entries@).len() implies keys_of(entries@)[j] != key by {
                assert(entries@[j].0 != key);
            }
        }
        None
    }

    /// The position of `key` in a deque that is known to hold it.
    fn find_in_deque(q: &VecDeque<u32>, key: u32) -> (i: usize)
        requires
            q@.contains(key),
        ensures
            i < q@.len() && q@[i as int] == key,
    {
        let n = q.len();
        let mut i: usize = 0;
        while i < n
            invariant
                n == q@.len(),
                q@.contains(key),
                i <= n,
                forall|j: int| 0 <= j < i ==> q@[j] != key,
            decreases n - i,
        {
            if q[i] == key {
                return i;
            }
            i += 1;
        }
        proof {
            let w = choose|w: int| 0 <= w < q@.len() && q@[w] == key;
            assert(false);
        }
        0
    }

    /// Stores `data` under `key`.
    ///
    /// Fails with `CacheFull`, changing nothing, when the store already
    /// holds `capacity` entries. Otherwise it succeeds: a fresh key is
    /// appended to both orderings with a fresh entry; a key already present
    /// keeps its position in both orderings and only its entry is replaced
    /// by a fresh one.
    pub fn insert_data(&mut self, key: u32, data: T) -> (r: Result<(), CacheSystemError>)
        requires
            old(self).wf(),
        ensures
            final(self).wf(),
            final(self).capacity == old(self).capacity,
            r is Err <==> old(self).num_entries() >= old(self).capacity,
            old(self).num_entries() >= old(self).capacity ==> {
                &&& r == Err::<(), CacheSystemError>(CacheSystemError::CacheFull)
                &&& final(self).same_state(*old(self))
            },
            old(self).num_entries() < old(self).capacity && !old(self).contains_key(key) ==> {
                &&& final(self).entries@.len() == old(self).entries@.len() + 1
                &&& (forall|j: int| 0 <= j < old(self).entries@.len()
                    ==> final(self).entries@[j] == old(self).entries@[j])
                &&& final(self).entries@.last().0 == key
                &&& final(self).entries@.last().1.value == data
                &&& final(self).entries@.last().1.last_accessed_time
                    == final(self).entries@.last().1.creation_time
                &&& final(self).order@ == old(self).order@.push(key)
                &&& final(self).recently_used@ == old(self).recently_used@.push(key)
            },
            old(self).num_entries() < old(self).capacity && old(self).contains_key(key) ==> {
                let i = old(self).key_index(key);
                &&& final(self).entries@.len() == old(self).entries@.len()
                &&& (forall|j: int| 0 <= j < old(self).entries@.len() && j != i
                    ==> final(self).entries@[j] == old(self).entries@[j])
                &&& final(self).entries@[i].0 == key
                &&& final(self).entries@[i].1.value == data
                &&& final(self).entries@[i].1.last_accessed_time
                    == final(self).entries@[i].1.creation_time
                &&& final(self).order@ == old(self).order@
                &&& final(self).recently_used@ == old(self).recently_used@
            },
    {
        if self.entries.len() >= self.capacity as usize {
            return Err(CacheSystemError::CacheFull);
        }
        match Self::find_key(&self.entries, key) {
            Some(i) => {
                proof {
                    lemma_key_index_unique(self.keys(), i as int, key);
                }
                self.entries.set(i, (key, CacheEntry::new(data)));
                proof {
                    assert(self.keys() =~= old(self).keys());
                }
                Ok(())
            }
            None => {
                self.order.push_back(key);
                self.recently_used.push_back(key);
                self.entries.push((key, CacheEntry::new(data)));
                proof {
                    assert(self.keys() =~= old(self).keys().push(key));
                    lemma_push_no_dup(old(self).keys(), key);
                    lemma_push_no_dup(old(self).recently_used@, key);
                    assert forall|k: u32| #[trigger] self.recently_used@.contains(k)
                        implies self.keys().contains(k) by {
                        lemma_push_contains(old(self).recently_used@, key, k);
                        lemma_push_contains(old(self).keys(), key, k);
                    }
                    assert forall|k: u32| #[trigger] self.keys().contains(k)
                        implies self.recently_used@.contains(k) by {
                        lemma_push_contains(old(self).recently_used@, key, k);
                        lemma_push_contains(old(self).keys(), key, k);
                    }
                }
                Ok(())
            }
        }
    }

    /// Reads the entry stored under `key`.
    ///
    /// Returns nothing, changing nothing, when the key is absent. On a hit
    /// the entry's `last_accessed_time` is refreshed, the key moves to the
    /// back of `recently_used`, and a borrowed view of the entry is
    /// returned; value and creation time are left as they were.
    pub fn get_data(&mut self, key: u32) -> (r: Option<&CacheEntry<T>>)
        requires
            old(self).wf(),
        ensures
            final(self).wf(),
            final(self).capacity == old(self).capacity,
            r is Some <==> old(self).contains_key(key),
            !old(self).contains_key(key) ==> final(self).same_state(*old(self)),
            old(self).contains_key(key) ==> {
                let i = old(self).key_index(key);
                &&& r matches Some(e) && *e == final(self).entries@[i].1
                &&& final(self).entries@.len() == old(self).entries@.len()
                &&& (forall|j: int| 0 <= j < old(self).entries@.len() && j != i
                    ==> final(self).entries@[j] == old(self).entries@[j])
                &&& final(self).entries@[i].0 == key
                &&& final(self).entries@[i].1.value == old(self).entries@[i].1.value
                &&& final(self).entries@[i].1.creation_time == old(self).entries@[i].1.creation_time
                &&& final(self).order@ == old(self).order@
                &&& final(self).recently_used@
                    == old(self).recently_used@.remove(old(self).recently_used@.index_of(key)).push(key)
            },
    {
        match Self::find_key(&self.entries, key) {
            Some(i) => {
                proof {
                    lemma_key_index_unique(self.keys(), i as int, key);
                    assert(self.keys().contains(key));
                }
                let t = now_millis();
                let pair = &mut self.entries[i];
                pair.1.last_accessed_time = t;
                proof {
                    assert(self.keys() =~= old(self).keys());
                }
                let p = Self::find_in_deque(&self.recently_used, key);
                proof {
                    lemma_key_index_unique(self.recently_used@, p as int, key);
                }
                let _ = self.recently_used.remove(p);
                self.recently_used.push_back(key);
                proof {
                    let ru0 = old(self).recently_used@;
                    lemma_remove_no_dup(ru0, p as int);
                    lemma_push_no_dup(ru0.remove(p as int), key);
                    assert forall|k: u32| #[trigger] self.recently_used@.contains(k)
                        implies self.keys().contains(k) by {
                        lemma_push_contains(ru0.remove(p as int), key, k);
                        lemma_remove_contains(ru0, p as int, k);
                    }
                    assert forall|k: u32| #[trigger] self.keys().contains(k)
                        implies self.recently_used@.contains(k) by {
                        lemma_push_contains(ru0.remove(p as int), key, k);
                        lemma_remove_contains(ru0, p as int, k);
                    }
                }
                Some(&self.entries[i].1)
            }
            None => None,
        }
    }

    /// Empties the store.
    ///
    /// Fails with `CacheAlreadyEmpty`, changing nothing, when there is
    /// nothing to remove; otherwise the entries and both orderings are
    /// emptied together.
    pub fn clear_cache(&mut self) -> (r: Result<(), CacheSystemError>)
        requires
            old(self).wf(),
        ensures
            final(self).wf(),
            final(self).capacity == old(self).capacity,
            r is Err <==> old(self).num_entries() == 0,
            old(self).num_entries() == 0 ==> {
                &&& r == Err::<(), CacheSystemError>(CacheSystemError::CacheAlreadyEmpty)
                &&& final(self).same_state(*old(self))
            },
            old(self).num_entries() > 0 ==> {
                &&& r is Ok
                &&& final(self).entries@ == Seq::<(u32, CacheEntry<T>)>::empty()
                &&& final(self).order@ == Seq::<u32>::empty()
                &&& final(self).recently_used@ == Seq::<u32>::empty()
            },
    {
        if self.entries.len() == 0 {
            return Err(CacheSystemError::CacheAlreadyEmpty);
        }
        self.entries.clear();
        self.order.clear();
        self.recently_used.clear();
        proof {
            assert(self.keys() =~= Seq::<u32>::empty());
        }
        Ok(())
    }

    /// Evicts the earliest-inserted entry.
    ///
    /// Valid only on a store that has reached its capacity: below that it
    /// fails with `CacheNotFull`, changing nothing. At capacity zero there
    /// is no entry to pop, which is reported as `InvalidKey`. Otherwise the
    /// front key of `order` — the earliest-inserted surviving key — leaves
    /// the entries and both orderings.
    pub fn fifo(&mut self) -> (r: Result<(), CacheSystemError>)
        requires
            old(self).wf(),
        ensures
            final(self).wf(),
            final(self).capacity == old(self).capacity,
            old(self).num_entries() < old(self).capacity ==> {
                &&& r == Err::<(), CacheSystemError>(CacheSystemError::CacheNotFull)
                &&& final(self).same_state(*old(self))
            },
            old(self).num_entries() >= old(self).capacity && old(self).num_entries() == 0 ==> {
                &&& r == Err::<(), CacheSystemError>(CacheSystemError::InvalidKey)
                &&& final(self).same_state(*old(self))
            },
            old(self).num_entries() >= old(self).capacity && old(self).num_entries() > 0 ==> {
                let victim = old(self).order@[0];
                &&& r is Ok
                &&& victim == old(self).keys()[0]
                &&& final(self).entries@ == old(self).entries@.remove(0)
                &&& final(self).order@ == old(self).order@.remove(0)
                &&& final(self).recently_used@
                    == old(self).recently_used@.remove(old(self).recently_used@.index_of(victim))
                &&& !final(self).contains_key(victim)
                &&& (forall|k: u32| #[trigger] final(self).contains_key(k)
                    <==> old(self).contains_key(k) && k != victim)
                &&& (forall|k: u32| k != victim && old(self).contains_key(k)
                    ==> final(self).entry_of(k) == old(self).entry_of(k))
            },
    {
        if self.entries.len() < self.capacity as usize {
            return Err(CacheSystemError::CacheNotFull);
        }
        match self.order.pop_front() {
            Some(oldest) => {
                let _ = self.entries.remove(0);
                proof {
                    assert(old(self).keys()[0] == oldest);
                    assert(old(self).keys().contains(oldest));
                    assert(old(self).recently_used@.contains(oldest));
                }
                let p = Self::find_in_deque(&self.recently_used, oldest);
                proof {
                    lemma_key_index_unique(self.recently_used@, p as int, oldest);
                }
                let _ = self.recently_used.remove(p);
                proof {
                    self.lemma_after_evict(*old(self), 0, p as int);
                    assert(old(self).order@.remove(0) =~= old(self).order@.subrange(
                        1, old(self).order@.len() as int));
                }
                Ok(())
            }
            None => Err(CacheSystemError::InvalidKey),
        }
    }

    /// Evicts the least-recently-accessed entry.
    ///
    /// Valid only on a store that has reached its capacity: below that it
    /// fails with `CacheNotFull`, changing nothing. At capacity zero there
    /// is no entry to pop, which is reported as `InvalidKey`. Otherwise the
    /// front key of `recently_used` — the key read longest ago — leaves the
    /// entries and both orderings.
    pub fn lru(&mut self) -> (r: Result<(), CacheSystemError>)
        requires
            old(self).wf(),
        ensures
            final(self).wf(),
            final(self).capacity == old(self).capacity,
            old(self).num_entries() < old(self).capacity ==> {
                &&& r == Err::<(), CacheSystemError>(CacheSystemError::CacheNotFull)
                &&& final(self).same_state(*old(self))
            },
            old(self).num_entries() >= old(self).capacity && old(self).num_entries() == 0 ==> {
                &&& r == Err::<(), CacheSystemError>(CacheSystemError::InvalidKey)
                &&& final(self).same_state(*old(self))
            },
            old(self).num_entries() >= old(self).capacity && old(self).num_entries() > 0 ==> {
                let victim = old(self).recently_used@[0];
                let i = old(self).key_index(victim);
                &&& r is Ok
                &&& final(self).entries@ == old(self).entries@.remove(i)
                &&& final(self).order@ == old(self).order@.remove(i)
                &&& final(self).recently_used@ == old(self).recently_used@.remove(0)
                &&& !final(self).contains_key(victim)
                &&& (forall|k: u32| #[trigger] final(self).contains_key(k)
                    <==> old(self).contains_key(k) && k != victim)
                &&& (forall|k: u32| k != victim && old(self).contains_key(k)
                    ==> final(self).entry_of(k) == old(self).entry_of(k))
            },
    {
        if self.entries.len() < self.capacity as usize {
            return Err(CacheSystemError::CacheNotFull);
        }
        match self.recently_used.pop_front() {
            Some(victim) => {
                proof {
                    assert(old(self).recently_used@.contains(victim));
                    assert(old(self).recently_used@.remove(0) =~= old(self).recently_used@.subrange(
                        1, old(self).recently_used@.len() as int));
                }
                match Self::find_key(&self.entries, victim) {
                    Some(i) => {
                        proof {
                            lemma_key_index_unique(self.keys(), i as int, victim);
                        }
                        let _ = self.entries.remove(i);
                        let removed = self.order.remove(i);
                        proof {
                            assert(removed == Some(victim));
                            self.lemma_after_evict(*old(self), i as int, 0);
                        }
                        Ok(())
                    }
                    None => {
                        proof {
                            assert(false);
                        }
                        Err(CacheSystemError::InvalidKey)
                    }
                }
            }
            None => Err(CacheSystemError::InvalidKey),
        }
    }

    /// After removing position `i` of the entries (and of `order`) and
    /// position `p` of `recently_used`, where both positions held the same
    /// key, a well-formed store is well formed again and holds exactly the
    /// other keys, each under its old entry.
    proof fn lemma_after_evict(self, pre: CacheSystem<T>, i: int, p: int)
        requires
            pre.wf(),
            0 <= i < pre.entries@.len(),
            0 <= p < pre.recently_used@.len(),
            pre.recently_used@[p] == pre.keys()[i],
            self.entries@ == pre.entries@.remove(i),
            self.order@ == pre.order@.remove(i),
            self.recently_used@ == pre.recently_used@.remove(p),
            self.capacity == pre.capacity,
        ensures
            self.wf(),
            !self.contains_key(pre.keys()[i]),
            forall|k: u32| #[trigger] self.contains_key(k)
                <==> pre.contains_key(k) && k != pre.keys()[i],
            forall|k: u32| k != pre.keys()[i] && pre.contains_key(k)
                ==> self.entry_of(k) == pre.entry_of(k),
    {
        let victim = pre.keys()[i];
        assert(self.keys() =~= pre.keys().remove(i));
        lemma_remove_no_dup(pre.keys(), i);
        lemma_remove_no_dup(pre.recently_used@, p);
        assert forall|k: u32| #[trigger] self.recently_used@.contains(k)
            implies self.keys().contains(k) by {
            lemma_remove_contains(pre.recently_used@, p, k);
            lemma_remove_contains(pre.keys(), i, k);
        }
        assert forall|k: u32| #[trigger] self.keys().contains(k)
            implies self.recently_used@.contains(k) by {
            lemma_remove_contains(pre.recently_used@, p, k);
            lemma_remove_contains(pre.keys(), i, k);
        }
        assert forall|k: u32| #[trigger] self.contains_key(k)
            implies pre.contains_key(k) && k != victim by {
            lemma_remove_contains(pre.keys(), i, k);
        }
        assert forall|k: u32| pre.contains_key(k) && k != victim
            implies #[trigger] self.contains_key(k) by {
            lemma_remove_contains(pre.keys(), i, k);
        }
        lemma_remove_contains(pre.keys(), i, victim);
        assert forall|k: u32| k != victim && pre.contains_key(k)
            implies self.entry_of(k) == pre.entry_of(k) by {
            lemma_remove_contains(pre.keys(), i, k);
            let jpre = pre.key_index(k);
            assert(0 <= jpre < pre.keys().len() && pre.keys()[jpre] == k);
            let jpost = if jpre < i { jpre } else { jpre - 1 };
            assert(self.keys()[jpost] == k);
            lemma_key_index_unique(self.keys(), jpost, k);
            assert(self.entries@[jpost] == pre.entries@[jpre]);
        }
    }
}

/// After any sequence of operations the store's three structures agree:
/// the entries, the insertion ordering and the usage ordering all have the
/// same length, and that length never passes the capacity. Every operation
/// of the store requires and re-establishes `wf`, and `wf` pins exactly
/// this shape.
pub proof fn lemma_store_shape<T>(c: CacheSystem<T>)
    requires
        c.wf(),
    ensures
        c.entries@.len() == c.order@.len(),
        c.entries@.len() == c.recently_used@.len(),
        c.entries@.len() <= c.capacity,
{
    assert(c.order@.len() == c.keys().len());
}

/// In a duplicate-free sequence, a position that holds `key` is the
/// position `index_of` names.
pub(crate) proof fn lemma_key_index_unique(s: Seq<u32>, i: int, key: u32)
    requires
        s.no_duplicates(),
        0 <= i < s.len(),
        s[i] == key,
    ensures
        s.contains(key),
        s.index_of(key) == i,
{
    assert(s.contains(key));
    let j = s.index_of(key);
    assert(0 <= j < s.len() && s[j] == key);
}

/// Appending a fresh element keeps a sequence duplicate-free.
pub(crate) proof fn lemma_push_no_dup(s: Seq<u32>, x: u32)
    requires
        s.no_duplicates(),
        !s.contains(x),
    ensures
        s.push(x).no_duplicates(),
{
    assert forall|i: int, j: int|
        0 <= i < s.push(x).len() && 0 <= j < s.push(x).len() && i != j
        implies s.push(x)[i] != s.push(x)[j] by {
        if i < s.len() && j < s.len() {
        } else if i < s.len() {
            assert(s.push(x)[i] == s[i]);
            if s[i] == x {
                assert(s.contains(x));
            }
        } else if j < s.len() {
            assert(s.push(x)[j] == s[j]);
            if s[j] == x {
                assert(s.contains(x));
            }
        }
    }
}

/// What an appended sequence holds: the old elements and the new one.
pub(crate) proof fn lemma_push_contains(s: Seq<u32>, x: u32, k: u32)
    ensures
        s.push(x).contains(k) <==> (s.contains(k) || k == x),
{
    if s.contains(k) {
        let i = choose|i: int| 0 <= i < s.len() && s[i] == k;
        assert(s.push(x)[i] == k);
    }
    if k == x {
        assert(s.push(x)[s.len() as int] == k);
    }
    if s.push(x).contains(k) {
        let i = choose|i: int| 0 <= i < s.push(x).len() && s.push(x)[i] == k;
        if i < s.len() {
            assert(s[i] == k);
        }
    }
}

/// Removing a position keeps a sequence duplicate-free.
pub(crate) proof fn lemma_remove_no_dup(s: Seq<u32>, p: int)
    requires
        s.no_duplicates(),
        0 <= p < s.len(),
    ensures
        s.remove(p).no_duplicates(),
{
    let r = s.remove(p);
    assert forall|i: int, j: int| 0 <= i < r.len() && 0 <= j < r.len() && i != j
        implies r[i] != r[j] by {
        let i0 = if i < p { i } else { i + 1 };
        let j0 = if j < p { j } else { j + 1 };
        assert(r[i] == s[i0]);
        assert(r[j] == s[j0]);
    }
}

/// What is left after removing the one position that holds a key: in a
/// duplicate-free sequence, everything but that key.
pub(crate) proof fn lemma_remove_contains(s: Seq<u32>, p: int, k: u32)
    requires
        s.no_duplicates(),
        0 <= p < s.len(),
    ensures
        s.remove(p).contains(k) <==> (s.contains(k) && k != s[p]),
{
    let r = s.remove(p);
    if r.contains(k) {
        let i = choose|i: int| 0 <= i < r.len() && r[i] == k;
        let i0 = if i < p { i } else { i + 1 };
        assert(r[i] == s[i0]);
        assert(s[i0] == k);
        assert(s.contains(k));
        assert(i0 != p);
    }
    if s.contains(k) && k != s[p] {
        let i0 = choose|i0: int| 0 <= i0 < s.len() && s[i0] == k;
        let i = if i0 < p { i0 } else { i0 - 1 };
        assert(i0 != p);
        assert(r[i] == s[i0]);
        assert(r.contains(k));
    }
}

} // verus!

//! A fixed-capacity least-recently-used cache.
//!
//! Entries live in a dense arena; a hash index maps each key to its
//! arena slot, and the slots are threaded into a doubly linked recency
//! chain through `prev`/`next` slot numbers, most recently used first.
//! A ghost sequence records the chain order, so every link operation is
//! proved to keep the chain, the index and the arena in sync.

use crate::lru_model::{distinct_keys, get_model, keys_of, lookup, put_model};
use crate::lru_model::{lemma_lookup_absent, lemma_lookup_at_position};
use std::collections::HashMap;
use vstd::prelude::*;

verus! {

broadcast use vstd::std_specs::hash::group_hash_axioms;

struct Entry<V> {
    key: u64,
    value: V,
    prev: Option<usize>,
    next: Option<usize>,
}

/// An LRU cache from `u64` keys to values, with at most `capacity`
/// entries; inserting into a full cache evicts the least recently used
/// entry.
pub struct LRUCache<V> {
    index: HashMap<u64, usize>,
    arena: Vec<Entry<V>>,
    head: Option<usize>,
    tail: Option<usize>,
    capacity: usize,
    order: Ghost<Seq<usize>>,
}

impl<V> LRUCache<V> {
    /// The abstract contents: key/value pairs from most to least
    /// recently used.
    pub closed spec fn entries(&self) -> Seq<(u64, V)> {
        self.order@.map_values(
            |i: usize| (self.arena@[i as int].key, self.arena@[i as int].value),
        )
    }

    /// The fixed capacity.
    pub closed spec fn cap(&self) -> nat {
        self.capacity as nat
    }

    /// The recency chain is a well-formed doubly linked list over
    /// distinct arena slots, with `head` and `tail` at its ends.
    closed spec fn chain_ok(&self) -> bool {
        &&& forall|j: int|
            0 <= j < self.order@.len() ==> (#[trigger] self.order@[j]) < self.arena@.len()
        &&& forall|j1: int, j2: int|
            0 <= j1 < j2 < self.order@.len() ==> self.order@[j1] != self.order@[j2]
        &&& (if self.order@.len() == 0 {
            self.head is None && self.tail is None
        } else {
            self.head == Some(self.order@[0]) && self.tail == Some(
                self.order@[self.order@.len() - 1],
            )
        })
        &&& forall|j: int|
            0 <= j < self.order@.len() ==> (#[trigger] self.arena@[self.order@[j] as int].prev)
                == (if j == 0 {
                None::<usize>
            } else {
                Some(self.order@[j - 1])
            })
        &&& forall|j: int|
            0 <= j < self.order@.len() ==> (#[trigger] self.arena@[self.order@[j] as int].next)
                == (if j == self.order@.len() - 1 {
                None::<usize>
            } else {
                Some(self.order@[j + 1])
            })
    }

    /// The hash index and the arena agree: the index maps exactly the
    /// keys in the arena, each to its slot.
    closed spec fn index_ok(&self) -> bool {
        &&& forall|i: int|
            0 <= i < self.arena@.len() ==> self.index@.contains_key(
                #[trigger] self.arena@[i].key,
            ) && self.index@[self.arena@[i].key] == i as usize
        &&& forall|k: u64|
            #[trigger] self.index@.contains_key(k) ==> self.index@[k] < self.arena@.len()
                && self.arena@[self.index@[k] as int].key == k
    }

    /// Full well-formedness: positive capacity, a chain covering the
    /// whole arena, distinct keys, and an index in sync.
    pub closed spec fn wf(&self) -> bool {
        &&& self.capacity > 0
        &&& self.arena@.len() <= self.capacity
        &&& self.order@.len() == self.arena@.len()
        &&& forall|i: usize| i < self.arena@.len() ==> self.order@.contains(i)
        &&& self.chain_ok()
        &&& forall|i1: int, i2: int|
            0 <= i1 < i2 < self.arena@.len() ==> self.arena@[i1].key != self.arena@[i2].key
        &&& self.index_ok()
    }

    proof fn lemma_entries_distinct(&self)
        requires
            self.wf(),
        ensures
            distinct_keys(self.entries()),
            self.entries().len() == self.arena@.len(),
    {
        assert forall|i1: int, i2: int|
            0 <= i1 < i2 < self.entries().len() implies self.entries()[i1].0
            != self.entries()[i2].0 by {
            let a = self.order@[i1] as int;
            let b = self.order@[i2] as int;
            assert(self.entries()[i1].0 == self.arena@[a].key);
            assert(self.entries()[i2].0 == self.arena@[b].key);
            if a < b {
                assert(self.arena@[a].key != self.arena@[b].key);
            } else {
                assert(self.arena@[b].key != self.arena@[a].key);
            }
        }
    }

    /// Create an empty cache that can hold `capacity` entries.
    pub fn new_with_capacity(capacity: usize) -> (r: Self)
        requires
            capacity > 0,
        ensures
            r.wf(),
            r.cap() == capacity as nat,
            r.entries() == Seq::<(u64, V)>::empty(),
    {
        let r = LRUCache {
            index: HashMap::new(),
            arena: Vec::new(),
            head: None,
            tail: None,
            capacity,
            order: Ghost(Seq::empty()),
        };
        proof {
            assert(r.entries() =~= Seq::<(u64, V)>::empty());
        }
        r
    }

    /// Splice slot `i` (at chain position `j`) out of the recency
    /// chain; the arena keeps the entry itself.
    fn unlink(&mut self, i: usize, Ghost(j): Ghost<int>)
        requires
            old(self).chain_ok(),
            0 <= j < old(self).order@.len(),
            old(self).order@[j] == i,
        ensures
            final(self).chain_ok(),
            final(self).order@ == old(self).order@.remove(j),
            final(self).arena@.len() == old(self).arena@.len(),
            forall|l: int|
                0 <= l < final(self).arena@.len() ==> (#[trigger] final(self).arena@[l]).key
                    == old(self).arena@[l].key && final(self).arena@[l].value
                    == old(self).arena@[l].value,
            final(self).index == old(self).index,
            final(self).capacity == old(self).capacity,
    {
        let prev = self.arena[i].prev;
        let next = self.arena[i].next;
        match next {
            Some(n) => {
                self.arena[n].prev = prev;
            },
            None => {
                self.tail = prev;
            },
        }
        match prev {
            Some(p) => {
                self.arena[p].next = next;
            },
            None => {
                self.head = next;
            },
        }
        proof {
            self.order@ = self.order@.remove(j);
        }
    }

    /// Link slot `i` in at the front of the recency chain, making it
    /// the most recently used entry.
    fn push_front(&mut self, i: usize)
        requires
            old(self).chain_ok(),
            i < old(self).arena@.len(),
            forall|j: int| 0 <= j < old(self).order@.len() ==> old(self).order@[j] != i,
        ensures
            final(self).chain_ok(),
            final(self).order@ == seq![i] + old(self).order@,
            final(self).arena@.len() == old(self).arena@.len(),
            forall|l: int|
                0 <= l < final(self).arena@.len() ==> (#[trigger] final(self).arena@[l]).key
                    == old(self).arena@[l].key && final(self).arena@[l].value
                    == old(self).arena@[l].value,
            final(self).index == old(self).index,
            final(self).capacity == old(self).capacity,
    {
        let h = self.head;
        match h {
            Some(hh) => {
                self.arena[hh].prev = Some(i);
            },
            None => {
                self.tail = Some(i);
            },
        }
        self.arena[i].next = h;
        self.arena[i].prev = None;
        self.head = Some(i);
        proof {
            self.order@ = seq![i] + self.order@;
        }
    }

    /// Move slot `i` (at chain position `j`) to the front of the
    /// chain.  When it is already the head nothing is touched: the
    /// identity check matters, as relinking the head around itself
    /// would corrupt the chain.
    fn promote(&mut self, i: usize, Ghost(j): Ghost<int>)
        requires
            old(self).chain_ok(),
            0 <= j < old(self).order@.len(),
            old(self).order@[j] == i,
        ensures
            final(self).chain_ok(),
            final(self).order@ == seq![i] + old(self).order@.remove(j),
            final(self).arena@.len() == old(self).arena@.len(),
            forall|l: int|
                0 <= l < final(self).arena@.len() ==> (#[trigger] final(self).arena@[l]).key
                    == old(self).arena@[l].key && final(self).arena@[l].value
                    == old(self).arena@[l].value,
            final(self).index == old(self).index,
            final(self).capacity == old(self).capacity,
    {
        let is_head = match self.head {
            Some(h) => h == i,
            None => false,
        };
        if is_head {
            proof {
                assert(self.order@[0] == i);
                if j != 0 {
                    assert(self.order@[0] != self.order@[j]);
                }
                assert(seq![i] + self.order@.remove(0) =~= self.order@);
            }
        } else {
            self.unlink(i, Ghost(j));
            proof {
                assert forall|l: int| 0 <= l < self.order@.len() implies self.order@[l] != i by {
                    let a = if l < j {
                        l
                    } else {
                        l + 1
                    };
                    assert(self.order@[l] == old(self).order@[a]);
                    if a < j {
                        assert(old(self).order@[a] != old(self).order@[j]);
                    } else {
                        assert(old(self).order@[j] != old(self).order@[a]);
                    }
                }
            }
            self.push_front(i);
        }
    }

    /// Find the chain position of slot `i`.
    proof fn position_of(&self, i: usize) -> (j: int)
        requires
            self.wf(),
            i < self.arena@.len(),
        ensures
            0 <= j < self.order@.len(),
            self.order@[j] == i,
            self.entries()[j] == (self.arena@[i as int].key, self.arena@[i as int].value),
    {
        assert(self.order@.contains(i));
        let j = choose|l: int| 0 <= l < self.order@.len() && self.order@[l] == i;
        j
    }

    /// Look `key` up; on a hit the entry is promoted to most recently
    /// used and a copy of its value is returned.
    pub fn get(&mut self, key: u64) -> (r: Option<V>) where V: Copy
        requires
            old(self).wf(),
        ensures
            final(self).wf(),
            final(self).cap() == old(self).cap(),
            r == lookup(old(self).entries(), key),
            final(self).entries() == get_model(old(self).entries(), key),
            final(self).entries().len() <= final(self).cap(),
            distinct_keys(final(self).entries()),
    {
        let ghost entries0 = self.entries();
        let found: Option<usize> = match self.index.get(&key) {
            Some(i) => Some(*i),
            None => None,
        };
        match found {
            Some(i) => {
                proof {
                    self.lemma_entries_distinct();
                }
                let ghost j = self.position_of(i);
                proof {
                    assert(entries0[j].0 == key);
                    lemma_lookup_at_position(entries0, j);
                }
                self.promote(i, Ghost(j));
                let val = self.arena[i].value;
                proof {
                    self.lemma_after_reorder(*old(self), j, i);
                    assert(val == entries0[j].1);
                    assert(self.entries() == get_model(entries0, key));
                    self.lemma_entries_distinct();
                }
                Some(val)
            },
            None => {
                proof {
                    self.lemma_absent(key);
                    lemma_lookup_absent(entries0, key);
                    self.lemma_entries_distinct();
                }
                None
            },
        }
    }

    /// After a pure reordering (`promote`), the entries are the old
    /// entry at `j` in front of the rest, and the cache is again
    /// well formed.
    proof fn lemma_after_reorder(&self, pre: Self, j: int, i: usize)
        requires
            pre.wf(),
            0 <= j < pre.order@.len(),
            pre.order@[j] == i,
            self.order@ == seq![i] + pre.order@.remove(j),
            self.arena@.len() == pre.arena@.len(),
            forall|l: int|
                0 <= l < self.arena@.len() ==> (#[trigger] self.arena@[l]).key
                    == pre.arena@[l].key && self.arena@[l].value == pre.arena@[l].value,
            self.index == pre.index,
            self.capacity == pre.capacity,
            self.chain_ok(),
        ensures
            self.wf(),
            self.entries() == seq![pre.entries()[j]] + pre.entries().remove(j),
    {
        assert forall|x: usize| x < self.arena@.len() implies self.order@.contains(x) by {
            assert(pre.order@.contains(x));
            let l = choose|l: int| 0 <= l < pre.order@.len() && pre.order@[l] == x;
            if l == j {
                assert(self.order@[0] == x);
            } else if l < j {
                assert(self.order@[l + 1] == pre.order@.remove(j)[l]);
                assert(self.order@[l + 1] == x);
            } else {
                assert(self.order@[l] == pre.order@.remove(j)[l - 1]);
                assert(self.order@[l] == x);
            }
        }
        assert(self.entries() =~= seq![pre.entries()[j]] + pre.entries().remove(j)) by {
            assert forall|l: int| 0 <= l < self.order@.len() implies self.entries()[l] == (seq![
                pre.entries()[j],
            ] + pre.entries().remove(j))[l] by {
                if l == 0 {
                    assert(self.order@[0] == i);
                } else {
                    let a = if l - 1 < j {
                        l - 1
                    } else {
                        l
                    };
                    assert(self.order@[l] == pre.order@.remove(j)[l - 1]);
                    assert(pre.order@.remove(j)[l - 1] == pre.order@[a]);
                    assert(pre.entries().remove(j)[l - 1] == pre.entries()[a]);
                }
            }
        }
    }

    /// A key the index does not know is on no entry at all.
    proof fn lemma_absent(&self, key: u64)
        requires
            self.wf(),
            !self.index@.contains_key(key),
        ensures
            forall|l: int| 0 <= l < self.entries().len() ==> (#[trigger] self.entries()[l]).0
                != key,
    {
        assert forall|l: int| 0 <= l < self.entries().len() implies (#[trigger] self.entries()[l]).0
            != key by {
            let s = self.order@[l] as int;
            assert(self.entries()[l].0 == self.arena@[s].key);
            assert(self.index@.contains_key(self.arena@[s].key));
        }
    }

    /// Insert or update `key`.  An existing entry gets the new value
    /// and is promoted; otherwise the entry is inserted in front, and
    /// when the cache is full the least recently used entry is evicted
    /// first.
    pub fn put(&mut self, key: u64, value: V)
        requires
            old(self).wf(),
        ensures
            final(self).wf(),
            final(self).cap() == old(self).cap(),
            final(self).entries() == put_model(
                old(self).entries(),
                old(self).cap(),
                key,
                value,
            ),
            final(self).entries().len() <= final(self).cap(),
            distinct_keys(final(self).entries()),
    {
        let ghost entries0 = self.entries();
        let found: Option<usize> = match self.index.get(&key) {
            Some(i) => Some(*i),
            None => None,
        };
        match found {
            Some(i) => {
                proof {
                    self.lemma_entries_distinct();
                }
                let ghost j = self.position_of(i);
                proof {
                    assert(entries0[j].0 == key);
                    lemma_lookup_at_position(entries0, j);
                }
                self.arena[i].value = value;
                let ghost mid = *self;
                proof {
                    assert(mid.chain_ok());
                    assert(mid.wf());
                    assert(mid.entries() =~= entries0.update(j, (key, value))) by {
                        assert forall|l: int| 0 <= l < mid.entries().len() implies mid.entries()[l]
                            == entries0.update(j, (key, value))[l] by {
                            if mid.order@[l] == i {
                                if l != j {
                                    assert(mid.order@[l] != mid.order@[j]);
                                }
                            }
                        }
                    }
                    assert(mid.entries()[j] == (key, value));
                    assert(entries0.update(j, (key, value)).remove(j) =~= entries0.remove(j));
                }
                self.promote(i, Ghost(j));
                proof {
                    self.lemma_after_reorder(mid, j, i);
                    assert(self.entries() == put_model(entries0, old(self).cap(), key, value));
                    self.lemma_entries_distinct();
                }
            },
            None => {
                proof {
                    self.lemma_absent(key);
                    lemma_lookup_absent(entries0, key);
                }
                if self.arena.len() == self.capacity {
                    let t = match self.tail {
                        Some(t) => t,
                        None => {
                            proof {
                                assert(self.order@.len() > 0);
                                assert(false);
                            }
                            0
                        },
                    };
                    let ghost jt = self.order@.len() - 1;
                    proof {
                        assert(self.order@[jt] == t);
                    }
                    let old_key = self.arena[t].key;
                    self.unlink(t, Ghost(jt));
                    self.index.remove(&old_key);
                    self.arena[t] = Entry { key, value, prev: None, next: None };
                    self.index.insert(key, t);
                    let ghost mid = *self;
                    proof {
                        assert forall|l: int| 0 <= l < mid.order@.len() implies mid.order@[l]
                            != t by {
                            assert(mid.order@[l] == old(self).order@[l]);
                            assert(old(self).order@[l] != old(self).order@[jt]);
                        }
                    }
                    self.push_front(t);
                    proof {
                        self.lemma_put_evict_wf(*old(self), mid, key, value, t);
                        assert(self.entries() == put_model(
                            entries0,
                            old(self).cap(),
                            key,
                            value,
                        ));
                        self.lemma_entries_distinct();
                    }
                } else {
                    let n = self.arena.len();
                    self.arena.push(Entry { key, value, prev: None, next: None });
                    self.index.insert(key, n);
                    let ghost mid = *self;
                    self.push_front(n);
                    proof {
                        self.lemma_put_fresh_wf(*old(self), mid, key, value, n);
                        assert(self.entries() == put_model(
                            entries0,
                            old(self).cap(),
                            key,
                            value,
                        ));
                        self.lemma_entries_distinct();
                    }
                }
            },
        }
    }

    /// Well-formedness and the abstract effect of evicting the tail
    /// slot and reusing it for a fresh key.
    proof fn lemma_put_evict_wf(&self, pre: Self, mid: Self, key: u64, value: V, t: usize)
        requires
            pre.wf(),
            !pre.index@.contains_key(key),
            pre.arena@.len() == pre.capacity,
            pre.order@.len() > 0,
            pre.order@[pre.order@.len() - 1] == t,
            mid.order@ == pre.order@.remove(pre.order@.len() - 1),
            mid.arena@.len() == pre.arena@.len(),
            t < mid.arena@.len(),
            mid.arena@[t as int].key == key,
            mid.arena@[t as int].value == value,
            forall|l: int|
                0 <= l < mid.arena@.len() && l != t ==> (#[trigger] mid.arena@[l]).key
                    == pre.arena@[l].key && mid.arena@[l].value == pre.arena@[l].value,
            mid.index@ == pre.index@.remove(pre.arena@[t as int].key).insert(key, t),
            mid.capacity == pre.capacity,
            self.order@ == seq![t] + mid.order@,
            self.arena@.len() == mid.arena@.len(),
            forall|l: int|
                0 <= l < self.arena@.len() ==> (#[trigger] self.arena@[l]).key
                    == mid.arena@[l].key && self.arena@[l].value == mid.arena@[l].value,
            self.index == mid.index,
            self.capacity == mid.capacity,
            self.chain_ok(),
        ensures
            self.wf(),
            self.entries() == seq![(key, value)] + pre.entries().take(pre.entries().len() - 1),
    {
        let n = pre.order@.len();
        assert forall|x: usize| x < self.arena@.len() implies self.order@.contains(x) by {
            assert(pre.order@.contains(x));
            let l = choose|l: int| 0 <= l < pre.order@.len() && pre.order@[l] == x;
            if l == n - 1 {
                assert(self.order@[0] == x);
            } else {
                assert(self.order@[l + 1] == mid.order@[l]);
                assert(mid.order@[l] == pre.order@[l]);
                assert(self.order@[l + 1] == x);
            }
        }
        assert forall|i1: int, i2: int|
            0 <= i1 < i2 < self.arena@.len() implies self.arena@[i1].key
            != self.arena@[i2].key by {
            if i1 != t && i2 != t {
                assert(self.arena@[i1].key == pre.arena@[i1].key);
                assert(self.arena@[i2].key == pre.arena@[i2].key);
            } else {
                let o = if i1 == t {
                    i2
                } else {
                    i1
                };
                assert(self.arena@[o].key == pre.arena@[o].key);
                assert(pre.index@.contains_key(pre.arena@[o].key));
            }
        }
        assert(self.index_ok()) by {
            assert forall|i: int|
                0 <= i < self.arena@.len() implies self.index@.contains_key(
                #[trigger] self.arena@[i].key,
            ) && self.index@[self.arena@[i].key] == i as usize by {
                if i != t {
                    assert(self.arena@[i].key == pre.arena@[i].key);
                    assert(pre.index@.contains_key(pre.arena@[i].key));
                    assert(pre.index@[pre.arena@[i].key] == i as usize);
                    assert(pre.arena@[i].key != pre.arena@[t as int].key);
                    assert(pre.arena@[i].key != key);
                }
            }
            assert forall|k: u64| #[trigger] self.index@.contains_key(k) implies self.index@[k]
                < self.arena@.len() && self.arena@[self.index@[k] as int].key == k by {
                if k != key {
                    assert(pre.index@.contains_key(k));
                    let s = pre.index@[k];
                    assert(pre.arena@[s as int].key == k);
                    if s == t {
                        assert(pre.arena@[t as int].key == k);
                    }
                    assert(s != t);
                }
            }
        }
        assert(self.entries() =~= seq![(key, value)] + pre.entries().take(
            pre.entries().len() - 1,
        )) by {
            assert forall|l: int| 0 <= l < self.order@.len() implies self.entries()[l] == (seq![
                (key, value),
            ] + pre.entries().take(pre.entries().len() - 1))[l] by {
                if l == 0 {
                    assert(self.order@[0] == t);
                } else {
                    assert(self.order@[l] == mid.order@[l - 1]);
                    assert(mid.order@[l - 1] == pre.order@[l - 1]);
                    assert(pre.order@[l - 1] != t);
                    assert(pre.entries().take(pre.entries().len() - 1)[l - 1]
                        == pre.entries()[l - 1]);
                }
            }
        }
    }

    /// Well-formedness and the abstract effect of appending a fresh
    /// key to a cache that still has room.
    proof fn lemma_put_fresh_wf(&self, pre: Self, mid: Self, key: u64, value: V, n: usize)
        requires
            pre.wf(),
            !pre.index@.contains_key(key),
            pre.arena@.len() < pre.capacity,
            n == pre.arena@.len(),
            mid.order@ == pre.order@,
            mid.arena@ == pre.arena@.push(Entry { key, value, prev: None, next: None }),
            mid.index@ == pre.index@.insert(key, n),
            mid.capacity == pre.capacity,
            self.order@ == seq![n] + mid.order@,
            self.arena@.len() == mid.arena@.len(),
            forall|l: int|
                0 <= l < self.arena@.len() ==> (#[trigger] self.arena@[l]).key
                    == mid.arena@[l].key && self.arena@[l].value == mid.arena@[l].value,
            self.index == mid.index,
            self.capacity == mid.capacity,
            self.chain_ok(),
        ensures
            self.wf(),
            self.entries() == seq![(key, value)] + pre.entries(),
    {
        assert forall|x: usize| x < self.arena@.len() implies self.order@.contains(x) by {
            if x == n {
                assert(self.order@[0] == x);
            } else {
                assert(pre.order@.contains(x));
                let l = choose|l: int| 0 <= l < pre.order@.len() && pre.order@[l] == x;
                assert(self.order@[l + 1] == x);
            }
        }
        assert forall|i1: int, i2: int|
            0 <= i1 < i2 < self.arena@.len() implies self.arena@[i1].key
            != self.arena@[i2].key by {
            if i2 == n as int {
                assert(self.arena@[i1].key == pre.arena@[i1].key);
                assert(pre.index@.contains_key(pre.arena@[i1].key));
            } else {
                assert(self.arena@[i1].key == pre.arena@[i1].key);
                assert(self.arena@[i2].key == pre.arena@[i2].key);
            }
        }
        assert(self.index_ok()) by {
            assert forall|i: int|
                0 <= i < self.arena@.len() implies self.index@.contains_key(
                #[trigger] self.arena@[i].key,
            ) && self.index@[self.arena@[i].key] == i as usize by {
                if i != n as int {
                    assert(self.arena@[i].key == pre.arena@[i].key);
                    assert(pre.index@.contains_key(pre.arena@[i].key));
                    assert(pre.arena@[i].key != key);
                }
            }
            assert forall|k: u64| #[trigger] self.index@.contains_key(k) implies self.index@[k]
                < self.arena@.len() && self.arena@[self.index@[k] as int].key == k by {
                if k != key {
                    assert(pre.index@.contains_key(k));
                    let s = pre.index@[k];
                    assert(pre.arena@[s as int].key == k);
                }
            }
        }
        assert(self.entries() =~= seq![(key, value)] + pre.entries()) by {
            assert forall|l: int| 0 <= l < self.order@.len() implies self.entries()[l] == (seq![
                (key, value),
            ] + pre.entries())[l] by {
                if l == 0 {
                    assert(self.order@[0] == n);
                } else {
                    assert(self.order@[l] == pre.order@[l - 1]);
                    assert(pre.order@[l - 1] < pre.arena@.len());
                }
            }
        }
    }

    /// The keys currently cached, most recently used first.  Purely
    /// diagnostic: the recency order is not changed.
    pub fn show_keys(&self) -> (r: Vec<u64>)
        requires
            self.wf(),
        ensures
            r@ == keys_of(self.entries()),
    {
        let mut r: Vec<u64> = Vec::new();
        let mut cur = self.head;
        let ghost mut j: int = 0;
        while cur.is_some()
            invariant
                self.wf(),
                0 <= j <= self.order@.len(),
                r@ == keys_of(self.entries()).take(j),
                cur == (if j < self.order@.len() {
                    Some(self.order@[j])
                } else {
                    None::<usize>
                }),
            decreases self.order@.len() - j,
        {
            let c = cur.unwrap();
            r.push(self.arena[c].key);
            cur = self.arena[c].next;
            proof {
                assert(keys_of(self.entries())[j] == self.arena@[c as int].key);
                assert(keys_of(self.entries()).take(j + 1) =~= keys_of(self.entries()).take(
                    j,
                ).push(self.arena@[c as int].key));
                j = j + 1;
            }
        }
        proof {
            assert(keys_of(self.entries()).take(j) =~= keys_of(self.entries()));
        }
        r
    }
}

} // verus!

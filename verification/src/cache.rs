//! A bounded cache keyed by text that, when full, forgets the entry used least recently.
use vstd::prelude::*;

use crate::text::{distinct_keys, lemma_pairs_to_map, lemma_pairs_to_map_remove,
    lemma_pairs_to_map_update, pairs_to_map};

verus! {

/// The access counter after one more access; it wraps around after `u64::MAX`.
pub open spec fn tick(clock: u64) -> u64 {
    if clock == u64::MAX {
        0
    } else {
        (clock + 1) as u64
    }
}

spec fn entry_view<V>(entries: Seq<(String, V)>) -> Seq<(Seq<char>, V)> {
    entries.map_values(|e: (String, V)| (e.0@, e.1))
}

spec fn stamp_view<V>(entries: Seq<(String, V)>, stamps: Seq<u64>) -> Seq<(Seq<char>, u64)> {
    Seq::new(entries.len(), |i: int| (entries[i].0@, stamps[i]))
}

/// At most `capacity` values, each stamped with the access counter of its last use. The
/// entries are held in a vector of distinct keys, whose contents the contracts describe as a
/// map from keys to values and a map from keys to stamps.
pub struct LruCache<V> {
    capacity: usize,
    access_index: u64,
    entries: Vec<(String, V)>,
    stamps: Vec<u64>,
}

impl<V> View for LruCache<V> {
    type V = Map<Seq<char>, V>;

    closed spec fn view(&self) -> Map<Seq<char>, V> {
        pairs_to_map(entry_view(self.entries@))
    }
}

impl<V: Clone> LruCache<V> {
    /// The most entries the cache holds.
    pub closed spec fn capacity(&self) -> nat {
        self.capacity as nat
    }

    /// The access counter.
    pub closed spec fn clock(&self) -> u64 {
        self.access_index
    }

    /// The access counter at the last use of each key.
    pub closed spec fn recency(&self) -> Map<Seq<char>, u64> {
        pairs_to_map(stamp_view(self.entries@, self.stamps@))
    }

    /// The capacity is at least one, no key occurs twice, and there are no more entries than
    /// the capacity.
    pub closed spec fn wf(&self) -> bool {
        &&& self.capacity >= 1
        &&& self.entries@.len() == self.stamps@.len()
        &&& self.entries@.len() <= self.capacity
        &&& distinct_keys(entry_view(self.entries@))
    }

    proof fn lemma_views(&self)
        requires
            self.wf(),
        ensures
            distinct_keys(stamp_view(self.entries@, self.stamps@)),
            self.recency().dom() == self@.dom(),
            self@.dom().finite(),
            self@.len() == self.entries@.len(),
    {
        let e = entry_view(self.entries@);
        let s = stamp_view(self.entries@, self.stamps@);
        assert forall|i: int, j: int| 0 <= i < j < s.len() implies (#[trigger] s[i]).0 != (
        #[trigger] s[j]).0 by {
            assert(s[i].0 == e[i].0 && s[j].0 == e[j].0);
        }
        lemma_pairs_to_map(e);
        lemma_pairs_to_map(s);
        assert forall|k: Seq<char>| self.recency().dom().contains(k) <==> self@.dom().contains(k) by {
            if self.recency().dom().contains(k) {
                let j = choose|j: int| 0 <= j < s.len() && s[j].0 == k;
                assert(e[j].0 == k);
            }
            if self@.dom().contains(k) {
                let j = choose|j: int| 0 <= j < e.len() && e[j].0 == k;
                assert(s[j].0 == k);
            }
        }
        assert(self.recency().dom() =~= self@.dom());
    }

    /// An empty cache for at most `capacity` entries, or one entry when `capacity` is zero.
    pub fn new(capacity: usize) -> (r: Self)
        ensures
            r.wf(),
            r@ == Map::<Seq<char>, V>::empty(),
            r.capacity() == if capacity == 0 {
                1
            } else {
                capacity as nat
            },
            r.clock() == 0,
    {
        let r = LruCache {
            capacity: if capacity == 0 {
                1
            } else {
                capacity
            },
            access_index: 0,
            entries: Vec::new(),
            stamps: Vec::new(),
        };
        assert(entry_view(r.entries@) =~= Seq::<(Seq<char>, V)>::empty());
        r
    }

    fn slot(&self, key: &String) -> (r: Option<usize>)
        requires
            self.wf(),
        ensures
            match r {
                Some(j) => j < self.entries@.len() && self.entries@[j as int].0@ == key@,
                None => !self@.contains_key(key@),
            },
    {
        let ghost e = entry_view(self.entries@);
        proof {
            lemma_pairs_to_map(e);
        }
        let mut j: usize = 0;
        while j < self.entries.len()
            invariant
                j <= self.entries@.len(),
                e == entry_view(self.entries@),
                forall|k: int| 0 <= k < j ==> (#[trigger] e[k]).0 != key@,
            decreases self.entries@.len() - j,
        {
            assert(e[j as int].0 == self.entries@[j as int].0@);
            if self.entries[j].0 == *key {
                return Some(j);
            }
            j = j + 1;
        }
        proof {
            if self@.contains_key(key@) {
                let k = choose|k: int| 0 <= k < e.len() && e[k].0 == key@;
                assert(false);
            }
        }
        None
    }

    /// The value stored under `key`, if any. A hit counts as a use: the counter advances and
    /// becomes the key's stamp; a miss changes nothing.
    pub fn get(&mut self, key: &str) -> (r: Option<V>)
        requires
            old(self).wf(),
        ensures
            final(self).wf(),
            final(self)@ == old(self)@,
            final(self).capacity() == old(self).capacity(),
            match r {
                Some(v) => {
                    &&& old(self)@.contains_key(key@)
                    &&& cloned(old(self)@[key@], v)
                    &&& final(self).clock() == tick(old(self).clock())
                    &&& final(self).recency() == old(self).recency().insert(
                        key@,
                        tick(old(self).clock()),
                    )
                },
                None => {
                    &&& !old(self)@.contains_key(key@)
                    &&& final(self).clock() == old(self).clock()
                    &&& final(self).recency() == old(self).recency()
                },
            },
    {
        let ghost e = entry_view(self.entries@);
        let ghost s = stamp_view(self.entries@, self.stamps@);
        proof {
            self.lemma_views();
            lemma_pairs_to_map(e);
        }
        let owned = key.to_owned();
        match self.slot(&owned) {
            None => None,
            Some(j) => {
                assert(e[j as int] == (self.entries@[j as int].0@, self.entries@[j as int].1));
                let value = self.entries[j].1.clone();
                assert(e[j as int].0 == key@);
                assert(pairs_to_map(e).contains_key(e[j as int].0));
                assert(old(self)@[key@] == self.entries@[j as int].1);
                assert(cloned(self.entries@[j as int].1, value));
                let now = self.access_index.wrapping_add(1);
                self.access_index = now;
                self.stamps.set(j, now);
                proof {
                    lemma_pairs_to_map_update(s, j as int, now);
                    assert(stamp_view(self.entries@, self.stamps@) =~= s.update(
                        j as int,
                        (s[j as int].0, now),
                    ));
                }
                Some(value)
            },
        }
    }

    /// Stores `value` under `key` and stamps it with the advanced counter. When the key is new
    /// and the cache is full, an entry with the smallest stamp leaves first.
    pub fn insert(&mut self, key: String, value: V)
        requires
            old(self).wf(),
        ensures
            final(self).wf(),
            final(self).capacity() == old(self).capacity(),
            final(self).clock() == tick(old(self).clock()),
            old(self)@.contains_key(key@) || old(self)@.len() < old(self).capacity() ==> {
                &&& final(self)@ == old(self)@.insert(key@, value)
                &&& final(self).recency() == old(self).recency().insert(
                    key@,
                    tick(old(self).clock()),
                )
            },
            !old(self)@.contains_key(key@) && old(self)@.len() >= old(self).capacity() ==> exists|
                evicted: Seq<char>,
            |
                #![trigger old(self)@.remove(evicted)]
                {
                    &&& old(self)@.contains_key(evicted)
                    &&& forall|k: Seq<char>| #[trigger]
                        old(self).recency().contains_key(k) ==> old(self).recency()[evicted]
                            <= old(self).recency()[k]
                    &&& final(self)@ == old(self)@.remove(evicted).insert(key@, value)
                    &&& final(self).recency() == old(self).recency().remove(evicted).insert(
                        key@,
                        tick(old(self).clock()),
                    )
                },
    {
        let ghost e0 = entry_view(self.entries@);
        let ghost s0 = stamp_view(self.entries@, self.stamps@);
        let ghost m0 = self@;
        let ghost r0 = self.recency();
        proof {
            self.lemma_views();
        }
        let now = self.access_index.wrapping_add(1);
        self.access_index = now;
        match self.slot(&key) {
            Some(j) => {
                proof {
                    lemma_pairs_to_map(e0);
                    assert(pairs_to_map(e0).contains_key(e0[j as int].0));
                    lemma_pairs_to_map_update(e0, j as int, value);
                    lemma_pairs_to_map_update(s0, j as int, now);
                }
                self.entries.set(j, (key, value));
                self.stamps.set(j, now);
                assert(entry_view(self.entries@) =~= e0.update(j as int, (e0[j as int].0, value)));
                assert(stamp_view(self.entries@, self.stamps@) =~= s0.update(
                    j as int,
                    (s0[j as int].0, now),
                ));
                proof {
                    let u = entry_view(self.entries@);
                    assert forall|a: int, b: int| 0 <= a < b < u.len() implies (
                    #[trigger] u[a]).0 != (#[trigger] u[b]).0 by {
                        assert(u[a].0 == e0[a].0 && u[b].0 == e0[b].0);
                    }
                }
            },
            None => {
                let ghost mut e1 = e0;
                let ghost mut s1 = s0;
                let ghost mut evicted = Seq::<char>::empty();
                let ghost full = self.entries@.len() >= self.capacity;
                if self.entries.len() >= self.capacity {
                    let m = self.oldest();
                    proof {
                        evicted = e0[m as int].0;
                    }
                    proof {
                        lemma_pairs_to_map_remove(e0, m as int);
                        lemma_pairs_to_map_remove(s0, m as int);
                        lemma_pairs_to_map(s0);
                        assert(s0[m as int].0 == evicted);
                        assert forall|k: Seq<char>| #[trigger]
                            r0.contains_key(k) implies r0[evicted] <= r0[k] by {
                            let i = choose|i: int| 0 <= i < s0.len() && s0[i].0 == k;
                            assert(r0.contains_key(s0[i].0) && r0[k] == s0[i].1);
                            assert(r0.contains_key(s0[m as int].0));
                            assert(r0[evicted] == s0[m as int].1);
                            assert(s0[i].1 == self.stamps@[i]);
                        }
                    }
                    let _ = self.entries.remove(m);
                    let _ = self.stamps.remove(m);
                    assert(entry_view(self.entries@) =~= e0.remove(m as int));
                    assert(stamp_view(self.entries@, self.stamps@) =~= s0.remove(m as int));
                    proof {
                        e1 = e0.remove(m as int);
                        s1 = s0.remove(m as int);
                        assert(pairs_to_map(e1) == m0.remove(evicted));
                        assert(pairs_to_map(s1) == r0.remove(evicted));
                        assert(m0.contains_key(evicted)) by {
                            lemma_pairs_to_map(e0);
                        }
                        assert(!pairs_to_map(e1).contains_key(key@));
                    }
                }
                assert(full ==> {
                    &&& m0.contains_key(evicted)
                    &&& forall|k: Seq<char>| #[trigger]
                        r0.contains_key(k) ==> r0[evicted] <= r0[k]
                    &&& pairs_to_map(e1) == m0.remove(evicted)
                    &&& pairs_to_map(s1) == r0.remove(evicted)
                });
                assert(!full ==> e1 == e0 && s1 == s0);
                assert(e1 == entry_view(self.entries@));
                assert(s1 == stamp_view(self.entries@, self.stamps@));
                let ghost k = key@;
                self.entries.push((key, value));
                self.stamps.push(now);
                proof {
                    let u = entry_view(self.entries@);
                    assert(u =~= e1.push((k, value)));
                    assert(stamp_view(self.entries@, self.stamps@) =~= s1.push((k, now)));
                    assert(u.drop_last() =~= e1);
                    assert(s1.push((k, now)).drop_last() =~= s1);
                    assert(!pairs_to_map(e1).contains_key(k));
                    lemma_pairs_to_map(e1);
                    assert forall|a: int, b: int| 0 <= a < b < u.len() implies (
                    #[trigger] u[a]).0 != (#[trigger] u[b]).0 by {
                        if b == u.len() - 1 {
                            assert(u[a] == e1[a]);
                            assert(pairs_to_map(e1).contains_key(e1[a].0));
                        } else {
                            assert(u[a] == e1[a] && u[b] == e1[b]);
                        }
                    }
                    assert(pairs_to_map(u) == pairs_to_map(e1).insert(k, value));
                    let rs = s1.push((k, now));
                    assert(pairs_to_map(rs) == pairs_to_map(s1).insert(k, now));
                    assert(m0.len() == e0.len());
                    if full {
                        assert(self@ == m0.remove(evicted).insert(k, value));
                        assert(self.recency() == r0.remove(evicted).insert(k, now));
                        assert(m0.contains_key(evicted));
                    }
                }
            },
        }
    }

    /// The position of a first entry with the smallest stamp.
    fn oldest(&self) -> (m: usize)
        requires
            self.wf(),
            self.entries@.len() > 0,
        ensures
            m < self.entries@.len(),
            forall|i: int| 0 <= i < self.stamps@.len() ==> self.stamps@[m as int] <= #[trigger] self.stamps@[i],
    {
        let mut m: usize = 0;
        let mut i: usize = 1;
        while i < self.stamps.len()
            invariant
                self.stamps@.len() == self.entries@.len(),
                1 <= i <= self.stamps@.len(),
                m < i,
                forall|k: int| 0 <= k < i ==> self.stamps@[m as int] <= #[trigger] self.stamps@[k],
            decreases self.stamps@.len() - i,
        {
            if self.stamps[i] < self.stamps[m] {
                m = i;
            }
            i = i + 1;
        }
        m
    }

    /// A cache never holds more entries than its capacity, and every stored key has a stamp.
    pub proof fn lemma_bounded(&self)
        requires
            self.wf(),
        ensures
            self@.dom().finite(),
            self@.len() <= self.capacity(),
            self.capacity() >= 1,
            self.recency().dom() == self@.dom(),
    {
        self.lemma_views();
    }
}

} // verus!

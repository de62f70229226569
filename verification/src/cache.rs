//! The bounded main store: an ordered key-to-entry mapping with a stable
//! positional index, in-place touch, and policy-guided eviction.
//!
//! The store is modelled by the sequence of entry models it holds, in
//! insertion order. Keys are unique, and the number of entries never exceeds
//! the capacity.

use vstd::prelude::*;
use indexmap::IndexMap;
use crate::cache_item::{CacheItem, CacheItemModel, inc_capped};
use crate::enums::Policy;
use crate::imap::{
    has_entry_key, im_contains, im_get_cloned, im_get_index_of, im_get_index_ref, im_get_ref,
    im_insert, im_len, im_new, im_shift_remove, im_values_cloned, map_entries,
};

verus! {

/// Whether some entry in `s` has key `k`.
pub open spec fn has_key(s: Seq<CacheItemModel>, k: Seq<char>) -> bool {
    exists|i: int| 0 <= i < s.len() && s[i].key == k
}

/// The index of the entry with key `k` (unique when keys are distinct).
pub open spec fn key_index(s: Seq<CacheItemModel>, k: Seq<char>) -> int {
    choose|i: int| 0 <= i < s.len() && s[i].key == k
}

/// No two entries share a key.
pub open spec fn distinct_keys(s: Seq<CacheItemModel>) -> bool {
    forall|i: int, j: int| 0 <= i < j < s.len() ==> s[i].key != s[j].key
}

/// The metric a policy ranks entries by: LFU ranks by frequency, LRU by the
/// last-used time. The entry minimizing the metric is the eviction victim.
pub open spec fn metric(m: CacheItemModel, pi: Policy) -> int {
    match pi {
        Policy::LFU => m.frequency,
        Policy::LRU => m.last_used,
    }
}

/// The index of the first entry attaining the minimum metric.
pub open spec fn min_metric_index(s: Seq<CacheItemModel>, pi: Policy) -> int
    decreases s.len(),
{
    if s.len() <= 1 {
        0
    } else {
        let m = min_metric_index(s.drop_last(), pi);
        if metric(s.last(), pi) < metric(s[m], pi) {
            s.len() - 1
        } else {
            m
        }
    }
}

/// `min_metric_index` is in range, attains the minimum, and is the first
/// index to do so.
pub proof fn lemma_min_metric_index(s: Seq<CacheItemModel>, pi: Policy)
    requires
        s.len() > 0,
    ensures
        0 <= min_metric_index(s, pi) < s.len(),
        forall|i: int|
            0 <= i < s.len() ==> metric(s[min_metric_index(s, pi)], pi) <= #[trigger] metric(
                s[i],
                pi,
            ),
        forall|i: int|
            0 <= i < min_metric_index(s, pi) ==> metric(s[min_metric_index(s, pi)], pi)
                < #[trigger] metric(s[i], pi),
    decreases s.len(),
{
    if s.len() > 1 {
        lemma_min_metric_index(s.drop_last(), pi);
        assert(forall|i: int| 0 <= i < s.len() - 1 ==> s.drop_last()[i] == s[i]);
    }
}

/// With distinct keys, `key_index` returns the position an entry is at.
pub proof fn lemma_key_index_pin(s: Seq<CacheItemModel>, i: int)
    requires
        distinct_keys(s),
        0 <= i < s.len(),
    ensures
        key_index(s, s[i].key) == i,
{
    assert(has_key(s, s[i].key));
    let j = key_index(s, s[i].key);
    if i < j {
        assert(s[i].key != s[j].key);
    } else if j < i {
        assert(s[j].key != s[i].key);
    }
}

/// An entry after a touch at time `now`.
pub open spec fn touched(m: CacheItemModel, now: int) -> CacheItemModel {
    CacheItemModel {
        frequency: inc_capped(m.frequency, usize::MAX as int),
        last_used: now,
        ..m
    }
}

/// An entry after an in-place update to value `v` at time `now`.
pub open spec fn updated(m: CacheItemModel, v: Seq<char>, now: int) -> CacheItemModel {
    touched(CacheItemModel { value: v, ..m }, now)
}

/// The store's contents after `insert_with_policy` admits `item` under
/// policy `pi` at time `now`.
pub open spec fn store_insert_items(
    s: Seq<CacheItemModel>,
    cap: int,
    item: CacheItemModel,
    pi: Policy,
    now: int,
) -> Seq<CacheItemModel> {
    if has_key(s, item.key) {
        s.update(key_index(s, item.key), updated(s[key_index(s, item.key)], item.value, now))
    } else if s.len() < cap {
        s.push(item)
    } else {
        s.remove(min_metric_index(s, pi)).push(item)
    }
}

/// The entry displaced by that same admission, if any.
pub open spec fn store_insert_evicted(
    s: Seq<CacheItemModel>,
    cap: int,
    item: CacheItemModel,
    pi: Policy,
) -> Option<CacheItemModel> {
    if has_key(s, item.key) || s.len() < cap {
        None
    } else {
        Some(s[min_metric_index(s, pi)])
    }
}

/// The bounded main store: an ordered mapping from key to entry.
pub struct Cache {
    pub capacity: usize,
    cache: IndexMap<String, CacheItem>,
}

impl Cache {
    /// The store's capacity, as a mathematical integer.
    pub closed spec fn cap(self) -> int {
        self.capacity as int
    }

    /// The (key, entry model) pairs of the backing map, in insertion order.
    spec fn entries(self) -> Seq<(Seq<char>, CacheItemModel)> {
        map_entries(self.cache)
    }

    /// The entry models held by the store, in insertion order.
    pub closed spec fn items(self) -> Seq<CacheItemModel> {
        Seq::new(self.entries().len(), |i: int| self.entries()[i].1)
    }

    /// Well-formedness: every pair is keyed by its entry's own key, keys are
    /// unique, and the store is within capacity.
    pub closed spec fn wf(self) -> bool {
        &&& forall|i: int|
            0 <= i < self.entries().len() ==> self.entries()[i].0 == self.entries()[i].1.key
        &&& distinct_keys(self.items())
        &&& self.items().len() <= self.cap()
    }

    /// A well-formed store holds at most `capacity` entries, with no key
    /// repeated.
    pub proof fn lemma_wf_props(self)
        requires
            self.wf(),
        ensures
            self.items().len() <= self.cap(),
            distinct_keys(self.items()),
    {
    }

    /// The entry holding key `k` is unique in a well-formed store.
    pub proof fn lemma_key_index(self, i: int)
        requires
            self.wf(),
            0 <= i < self.items().len(),
        ensures
            key_index(self.items(), self.items()[i].key) == i,
    {
        let k = self.items()[i].key;
        assert(has_key(self.items(), k));
        let j = key_index(self.items(), k);
        if i < j {
            assert(self.items()[i].key != self.items()[j].key);
        } else if j < i {
            assert(self.items()[j].key != self.items()[i].key);
        }
    }

    /// Pairs and items agree on which keys are present.
    proof fn lemma_keys_agree(self, k: Seq<char>)
        requires
            forall|i: int|
                0 <= i < self.entries().len() ==> self.entries()[i].0 == self.entries()[i].1.key,
        ensures
            has_entry_key(self.entries(), k) == has_key(self.items(), k),
    {
        if has_entry_key(self.entries(), k) {
            let i = choose|i: int|
                0 <= i < self.entries().len() && self.entries()[i].0 == k;
            assert(self.items()[i].key == k);
        }
        if has_key(self.items(), k) {
            let i = choose|i: int| 0 <= i < self.items().len() && self.items()[i].key == k;
            assert(self.entries()[i].0 == k);
        }
    }

    /// Creates an empty store with the given capacity.
    pub fn new(capacity: usize) -> (r: Self)
        ensures
            r.wf(),
            r.cap() == capacity as int,
            r.items() == Seq::<CacheItemModel>::empty(),
    {
        let r = Self { capacity, cache: im_new(capacity) };
        proof {
            assert(r.items() =~= Seq::<CacheItemModel>::empty());
        }
        r
    }

    /// Whether an entry with the given key is resident.
    pub fn contains(&self, key: &str) -> (r: bool)
        requires
            self.wf(),
        ensures
            r == has_key(self.items(), key@),
    {
        let r = im_contains(&self.cache, key);
        proof {
            self.lemma_keys_agree(key@);
        }
        r
    }

    /// The number of resident entries.
    pub fn len(&self) -> (r: usize)
        ensures
            r == self.items().len(),
    {
        im_len(&self.cache)
    }

    /// Whether the store is at capacity.
    pub fn full(&self) -> (r: bool)
        ensures
            r == (self.items().len() == self.cap()),
    {
        self.capacity == im_len(&self.cache)
    }

    /// The position of the entry with the given key in insertion order.
    pub fn get_index_of(&self, key: &str) -> (r: Option<usize>)
        requires
            self.wf(),
        ensures
            r is Some <==> has_key(self.items(), key@),
            r matches Some(i) ==> i < self.items().len() && self.items()[i as int].key == key@,
    {
        let r = im_get_index_of(&self.cache, key);
        proof {
            self.lemma_keys_agree(key@);
        }
        r
    }

    /// The entry at the given position in insertion order.
    pub fn get_index(&self, index: usize) -> (r: Option<&CacheItem>)
        ensures
            r is Some <==> index < self.items().len(),
            r matches Some(v) ==> v@ == self.items()[index as int],
    {
        im_get_index_ref(&self.cache, index)
    }

    /// Two pair positions with the same key coincide in a well-formed store.
    proof fn lemma_pin_entry(self, i: int, j: int)
        requires
            self.wf(),
            0 <= i < self.entries().len(),
            0 <= j < self.entries().len(),
            self.entries()[i].0 == self.entries()[j].0,
        ensures
            i == j,
    {
        assert(self.items()[i].key == self.entries()[i].0);
        assert(self.items()[j].key == self.entries()[j].0);
        if i < j {
            assert(self.items()[i].key != self.items()[j].key);
        } else if j < i {
            assert(self.items()[j].key != self.items()[i].key);
        }
    }

    /// Retrieves a resident entry, touches it, and returns a view of it.
    pub fn get<'a>(&'a mut self, key: &str, now: u64) -> (r: Option<&'a CacheItem>)
        requires
            old(self).wf(),
        ensures
            final(self).wf(),
            final(self).cap() == old(self).cap(),
            !has_key(old(self).items(), key@) ==> final(self).items() == old(self).items() && r
                is None,
            has_key(old(self).items(), key@) ==> final(self).items() == old(self).items().update(
                key_index(old(self).items(), key@),
                touched(old(self).items()[key_index(old(self).items(), key@)], now as int),
            ) && (r matches Some(v) && v@ == touched(
                old(self).items()[key_index(old(self).items(), key@)],
                now as int,
            )),
    {
        let ghost s0 = self.items();
        let ghost es0 = self.entries();
        let found = im_get_cloned(&self.cache, key);
        match found {
            None => {
                proof {
                    self.lemma_keys_agree(key@);
                }
                None
            },
            Some(mut item) => {
                proof {
                    self.lemma_keys_agree(key@);
                }
                let ghost i = choose|i: int|
                    0 <= i < es0.len() && es0[i].0 == key@ && item@ == es0[i].1;
                proof {
                    assert(s0[i].key == key@ && s0[i] == item@);
                    old(self).lemma_key_index(i);
                }
                item.touch(now);
                let _prev = im_insert(&mut self.cache, item);
                proof {
                    let es1 = self.entries();
                    let j = choose|j: int|
                        0 <= j < es0.len() && es0[j].0 == item@.key && es1 == es0.update(
                            j,
                            (item@.key, item@),
                        );
                    old(self).lemma_pin_entry(i, j);
                    assert(self.items() =~= s0.update(i, touched(s0[i], now as int)));
                    assert forall|a: int, b: int| 0 <= a < b < self.items().len() implies self.items()[a].key
                        != self.items()[b].key by {
                        assert(self.items()[a].key == s0[a].key);
                        assert(self.items()[b].key == s0[b].key);
                    }
                    assert(self.wf());
                }
                let r = im_get_ref(&self.cache, key);
                proof {
                    let es1 = self.entries();
                    let j2 = choose|j2: int|
                        0 <= j2 < es1.len() && es1[j2].0 == key@ && (r matches Some(v) && v@
                            == es1[j2].1);
                    assert(has_entry_key(es1, key@)) by {
                        assert(es1[i].0 == key@);
                    }
                    self.lemma_pin_entry(i, j2);
                }
                r
            },
        }
    }

    /// Inserts an item, replacing an existing entry with the same key
    /// wholesale; hands the item back if the store is full and the key is
    /// new.
    pub fn insert(&mut self, new_item: CacheItem) -> (r: Option<CacheItem>)
        requires
            old(self).wf(),
        ensures
            final(self).wf(),
            final(self).cap() == old(self).cap(),
            (old(self).items().len() == old(self).cap() && !has_key(
                old(self).items(),
                new_item@.key,
            )) ==> final(self).items() == old(self).items() && (r matches Some(v) && v@
                == new_item@),
            has_key(old(self).items(), new_item@.key) ==> final(self).items() == old(
                self,
            ).items().update(key_index(old(self).items(), new_item@.key), new_item@) && r is None,
            (old(self).items().len() < old(self).cap() && !has_key(
                old(self).items(),
                new_item@.key,
            )) ==> final(self).items() == old(self).items().push(new_item@) && r is None,
    {
        let ghost s0 = self.items();
        let ghost es0 = self.entries();
        if self.full() && !self.contains(new_item.key()) {
            return Some(new_item);
        }
        proof {
            self.lemma_keys_agree(new_item@.key);
        }
        let _prev = im_insert(&mut self.cache, new_item);
        proof {
            if has_key(s0, new_item@.key) {
                let es1 = self.entries();
                let j = choose|j: int|
                    0 <= j < es0.len() && es0[j].0 == new_item@.key && es1 == es0.update(
                        j,
                        (new_item@.key, new_item@),
                    );
                let ki = key_index(s0, new_item@.key);
                assert(es0[ki].0 == new_item@.key);
                old(self).lemma_pin_entry(ki, j);
                assert(self.items() =~= s0.update(ki, new_item@));
                assert forall|a: int, b: int| 0 <= a < b < self.items().len() implies self.items()[a].key
                    != self.items()[b].key by {
                    assert(self.items()[a].key == s0[a].key);
                    assert(self.items()[b].key == s0[b].key);
                }
            } else {
                assert(self.items() =~= s0.push(new_item@));
            }
            assert(self.wf());
        }
        None
    }
}

/// The models of a sequence of items.
pub open spec fn models_of(s: Seq<CacheItem>) -> Seq<CacheItemModel> {
    Seq::new(s.len(), |i: int| s[i]@)
}

/// Finds the position of the first item minimizing the policy's metric.
fn find_min_index(v: &Vec<CacheItem>, policy: Policy) -> (r: usize)
    requires
        v@.len() > 0,
    ensures
        r as int == min_metric_index(models_of(v@), policy),
{
    let ghost s = models_of(v@);
    let mut best: usize = 0;
    let mut i: usize = 1;
    proof {
        assert(s.subrange(0, 1).len() == 1);
    }
    while i < v.len()
        invariant
            1 <= i <= v@.len(),
            best < i,
            s == models_of(v@),
            best as int == min_metric_index(s.subrange(0, i as int), policy),
        decreases v@.len() - i,
    {
        let better = match policy {
            Policy::LFU => v[i].frequency() < v[best].frequency(),
            Policy::LRU => v[i].last_used() < v[best].last_used(),
        };
        proof {
            let pre = s.subrange(0, i as int);
            let cur = s.subrange(0, i + 1);
            assert(cur.drop_last() =~= pre);
            assert(cur.last() == s[i as int]);
            assert(cur[best as int] == s[best as int]);
            assert(better == (metric(s[i as int], policy) < metric(s[best as int], policy)));
        }
        if better {
            best = i;
        }
        i = i + 1;
    }
    proof {
        assert(s.subrange(0, v@.len() as int) =~= s);
    }
    best
}

impl Cache {
    /// Inserts an item under a policy: an existing entry with the same key
    /// is updated in place and touched; otherwise the item is appended,
    /// evicting the entry minimizing the policy's metric (ties broken by
    /// insertion order) when the store is full. Returns the evicted entry.
    pub fn insert_with_policy(&mut self, new_item: CacheItem, policy: Policy, now: u64) -> (r:
        Option<CacheItem>)
        requires
            old(self).wf(),
            old(self).cap() >= 1,
        ensures
            final(self).wf(),
            final(self).cap() == old(self).cap(),
            final(self).items() == store_insert_items(
                old(self).items(),
                old(self).cap(),
                new_item@,
                policy,
                now as int,
            ),
            r is Some <==> store_insert_evicted(
                old(self).items(),
                old(self).cap(),
                new_item@,
                policy,
            ) is Some,
            r matches Some(v) ==> store_insert_evicted(
                old(self).items(),
                old(self).cap(),
                new_item@,
                policy,
            ) matches Some(ev) && v@ == ev,
    {
        let ghost s0 = self.items();
        let ghost es0 = self.entries();
        let found = im_get_cloned(&self.cache, new_item.key());
        proof {
            self.lemma_keys_agree(new_item@.key);
        }
        match found {
            Some(mut existing) => {
                let ghost i = choose|i: int|
                    0 <= i < es0.len() && es0[i].0 == new_item@.key && existing@ == es0[i].1;
                proof {
                    assert(s0[i].key == new_item@.key && s0[i] == existing@);
                    old(self).lemma_key_index(i);
                }
                existing.update(new_item.value_owned(), now);
                let _prev = im_insert(&mut self.cache, existing);
                proof {
                    let es1 = self.entries();
                    let j = choose|j: int|
                        0 <= j < es0.len() && es0[j].0 == existing@.key && es1 == es0.update(
                            j,
                            (existing@.key, existing@),
                        );
                    old(self).lemma_pin_entry(i, j);
                    assert(self.items() =~= s0.update(
                        i,
                        updated(s0[i], new_item@.value, now as int),
                    ));
                    assert forall|a: int, b: int| 0 <= a < b < self.items().len() implies self.items()[a].key
                        != self.items()[b].key by {
                        assert(self.items()[a].key == s0[a].key);
                        assert(self.items()[b].key == s0[b].key);
                    }
                    assert(self.wf());
                }
                None
            },
            None => {
                if self.capacity > im_len(&self.cache) {
                    let _prev = im_insert(&mut self.cache, new_item);
                    proof {
                        assert(self.items() =~= s0.push(new_item@));
                        assert(self.wf());
                    }
                    None
                } else {
                    let items_vec = im_values_cloned(&self.cache);
                    proof {
                        assert(models_of(items_vec@) =~= s0);
                        lemma_min_metric_index(s0, policy);
                    }
                    let vi = find_min_index(&items_vec, policy);
                    let ghost mi = min_metric_index(s0, policy);
                    proof {
                        assert(items_vec@[mi]@ == s0[mi]);
                        assert(es0[mi].0 == s0[mi].key);
                        assert(has_entry_key(es0, s0[mi].key));
                    }
                    let victim = im_shift_remove(&mut self.cache, items_vec[vi].key());
                    proof {
                        let es1 = self.entries();
                        let j = choose|j: int|
                            0 <= j < es0.len() && es0[j].0 == s0[mi].key && es1 == es0.remove(j)
                                && (victim matches Some(v) && v@ == es0[j].1);
                        old(self).lemma_pin_entry(mi, j);
                        es0.remove_ensures(mi);
                        assert(self.items() =~= s0.remove(mi));
                    }
                    let ghost es1 = self.entries();
                    let ghost s1 = self.items();
                    let _prev = im_insert(&mut self.cache, new_item);
                    proof {
                        s0.remove_ensures(mi);
                        assert forall|a: int| 0 <= a < es1.len() implies es1[a].0 != new_item@.key by {
                            assert(es1[a].0 == s1[a].key);
                            if a < mi {
                                assert(s1[a] == s0[a]);
                                assert(es0[a].0 == s0[a].key);
                            } else {
                                assert(s1[a] == s0[a + 1]);
                                assert(es0[a + 1].0 == s0[a + 1].key);
                            }
                        }
                        assert(!has_entry_key(es1, new_item@.key));
                        assert(self.items() =~= s1.push(new_item@));
                        assert(self.items() =~= s0.remove(mi).push(new_item@));
                        assert forall|a: int, b: int| 0 <= a < b < self.items().len() implies self.items()[a].key
                            != self.items()[b].key by {
                            let s2 = self.items();
                            if b < s2.len() - 1 {
                                assert(s2[a] == s1[a] && s2[b] == s1[b]);
                            } else {
                                assert(s2[b] == new_item@);
                                assert(s2[a] == s1[a]);
                            }
                        }
                        assert(self.wf());
                    }
                    victim
                }
            },
        }
    }
}

} // verus!

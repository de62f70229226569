//! The controller: the adaptive replacement engine. It threads every `get`
//! and `insert` through the main store, the two ghost histories and the
//! learner, and keeps the whole composite consistent.
//!
//! The controller's state is modelled by [`ControllerModel`]; the invariant
//! [`ctrl_inv`] holds in every reachable state: all three structures are
//! within capacity, their key sets are pairwise disjoint, the selection
//! probability is strictly between 0 and 1 (its two weights summing to one
//! exactly), and no entry's timestamp is ahead of the clock.
//!
//! The clock is logical: it advances by one tick per operation, so runs are
//! reproducible; the learner's reward decays per tick.

use vstd::prelude::*;
use rand_chacha::ChaCha8Rng;
use crate::cache::{
    Cache, distinct_keys, has_key, key_index, lemma_key_index_pin, lemma_min_metric_index,
    min_metric_index, store_insert_evicted, store_insert_items, touched, updated,
};
use crate::cache_item::{CacheItem, CacheItemModel, inc_capped};
use crate::counter::Counter;
use crate::enums::Policy;
use crate::learner::{
    PROB_FLOOR, PROB_SCALE, lemma_learner_update_direction, spec_learner_update,
    updated_probability,
};
use crate::policy_cache::{
    HistoryEntryModel, PolicyCache, hist_distinct_keys, hist_has_key, hist_insert, hist_key_index,
    lemma_hist_insert_props,
};
use crate::rng::{chacha_from_seed, chacha_next_state, chacha_next_word, rng_from_seed, rng_next_u32};

verus! {

/// The mathematical state of the controller: the main store's entries and
/// capacity, each history's slots and capacity, the LFU probability
/// numerator, the selector's generator state, and the clock. The generator
/// is opaque, but carrying it makes the draw stream part of the contracts:
/// a step either leaves it untouched or advances it by exactly one draw.
#[verifier::ext_equal]
pub ghost struct ControllerModel {
    pub m: Seq<CacheItemModel>,
    pub m_cap: int,
    pub lfu: Seq<HistoryEntryModel>,
    pub lfu_cap: int,
    pub lru: Seq<HistoryEntryModel>,
    pub lru_cap: int,
    pub p: int,
    pub rng: ChaCha8Rng,
    pub now: int,
}

/// The policy one draw returns: LFU exactly when the drawn word, read as a
/// fraction of the word range, is at most the LFU probability.
pub open spec fn spec_draw(r: ChaCha8Rng, p: int) -> Policy {
    if (chacha_next_word(r) as int) * (PROB_SCALE as int) <= p * (u32::MAX as int) {
        Policy::LFU
    } else {
        Policy::LRU
    }
}

/// The history of one policy.
pub open spec fn hist_of(c: ControllerModel, pi: Policy) -> Seq<HistoryEntryModel> {
    match pi {
        Policy::LFU => c.lfu,
        Policy::LRU => c.lru,
    }
}

/// The invariant of every reachable controller state.
pub open spec fn ctrl_inv(c: ControllerModel) -> bool {
    &&& c.m_cap >= 1
    &&& c.lfu_cap >= 0
    &&& c.lru_cap >= 0
    &&& c.m.len() <= c.m_cap
    &&& distinct_keys(c.m)
    &&& c.lfu.len() <= c.lfu_cap
    &&& hist_distinct_keys(c.lfu)
    &&& c.lru.len() <= c.lru_cap
    &&& hist_distinct_keys(c.lru)
    &&& forall|i: int, j: int|
        0 <= i < c.m.len() && 0 <= j < c.lfu.len() ==> #[trigger] c.m[i].key != #[trigger] c.lfu[j].item.key
    &&& forall|i: int, j: int|
        0 <= i < c.m.len() && 0 <= j < c.lru.len() ==> #[trigger] c.m[i].key != #[trigger] c.lru[j].item.key
    &&& forall|i: int, j: int|
        0 <= i < c.lfu.len() && 0 <= j < c.lru.len() ==> #[trigger] c.lfu[i].item.key
            != #[trigger] c.lru[j].item.key
    &&& PROB_FLOOR <= c.p <= PROB_SCALE - PROB_FLOOR
    &&& 0 <= c.now <= u64::MAX
    &&& forall|i: int|
        0 <= i < c.m.len() ==> (#[trigger] c.m[i]).frequency >= 0 && c.m[i].last_used <= c.now
    &&& forall|j: int|
        0 <= j < c.lfu.len() ==> (#[trigger] c.lfu[j]).item.frequency >= 0
            && c.lfu[j].item.last_used <= c.now && c.lfu[j].admitted_at <= c.now
    &&& forall|j: int|
        0 <= j < c.lru.len() ==> (#[trigger] c.lru[j]).item.frequency >= 0
            && c.lru[j].item.last_used <= c.now && c.lru[j].admitted_at <= c.now
}

/// The state after an entry is admitted to the main store under policy
/// `pi`: the store takes it as `insert_with_policy` does, and a displaced
/// entry moves into `pi`'s history, stamped with the clock.
pub open spec fn spec_admit(c: ControllerModel, item: CacheItemModel, pi: Policy) -> ControllerModel {
    let m2 = store_insert_items(c.m, c.m_cap, item, pi, c.now);
    match store_insert_evicted(c.m, c.m_cap, item, pi) {
        None => ControllerModel { m: m2, ..c },
        Some(v) => match pi {
            Policy::LFU => ControllerModel {
                m: m2,
                lfu: hist_insert(c.lfu, c.lfu_cap, Policy::LFU, v, c.now),
                ..c
            },
            Policy::LRU => ControllerModel {
                m: m2,
                lru: hist_insert(c.lru, c.lru_cap, Policy::LRU, v, c.now),
                ..c
            },
        },
    }
}

/// The state after a ghost hit is consumed: the learner shifts the
/// probability against the policy whose history held the key (with the
/// reward decayed by the dwell `now - admitted`), one policy is drawn from
/// the stream with the updated probability (advancing the generator by one
/// word), and the revived entry is admitted under the drawn policy.
pub open spec fn spec_revive(
    c: ControllerModel,
    e: CacheItemModel,
    miss_from: Policy,
    admitted: int,
) -> ControllerModel {
    let dt = if admitted <= c.now {
        (c.now - admitted) as nat
    } else {
        0
    };
    let p2 = spec_learner_update(c.p, dt, miss_from);
    let pi = spec_draw(c.rng, p2);
    let c2 = ControllerModel { p: p2, rng: chacha_next_state(c.rng), ..c };
    spec_admit(c2, e, pi)
}

/// The full effect of `get(k)`: a hit touches the entry and reads no draw;
/// a ghost hit revives the entry untouched, feeding the learner and drawing
/// one policy; a cold miss changes nothing but the clock. The clock ticks
/// first.
pub open spec fn spec_get_step(c: ControllerModel, k: Seq<char>) -> ControllerModel {
    let c1 = ControllerModel { now: inc_capped(c.now, u64::MAX as int), ..c };
    if has_key(c1.m, k) {
        let ki = key_index(c1.m, k);
        ControllerModel { m: c1.m.update(ki, touched(c1.m[ki], c1.now)), ..c1 }
    } else if hist_has_key(c1.lfu, k) {
        let ki = hist_key_index(c1.lfu, k);
        let slot = c1.lfu[ki];
        spec_revive(
            ControllerModel { lfu: c1.lfu.remove(ki), ..c1 },
            slot.item,
            Policy::LFU,
            slot.admitted_at,
        )
    } else if hist_has_key(c1.lru, k) {
        let ki = hist_key_index(c1.lru, k);
        let slot = c1.lru[ki];
        spec_revive(
            ControllerModel { lru: c1.lru.remove(ki), ..c1 },
            slot.item,
            Policy::LRU,
            slot.admitted_at,
        )
    } else {
        c1
    }
}

/// What `get(k)` returns: the value of the entry found in the main store or
/// in either history, absent otherwise.
pub open spec fn spec_get_result(c: ControllerModel, k: Seq<char>) -> Option<Seq<char>> {
    if has_key(c.m, k) {
        Some(c.m[key_index(c.m, k)].value)
    } else if hist_has_key(c.lfu, k) {
        Some(c.lfu[hist_key_index(c.lfu, k)].item.value)
    } else if hist_has_key(c.lru, k) {
        Some(c.lru[hist_key_index(c.lru, k)].item.value)
    } else {
        None
    }
}

/// The full effect of `insert(k, v)`: a ghost hit revives the entry with
/// its value replaced and the entry touched, feeding the learner; otherwise
/// a fresh entry is admitted (updating in place if `k` is already
/// resident). Either way exactly one policy is drawn from the stream. The
/// clock ticks first.
pub open spec fn spec_insert_step(
    c: ControllerModel,
    k: Seq<char>,
    v: Seq<char>,
) -> ControllerModel {
    let c1 = ControllerModel { now: inc_capped(c.now, u64::MAX as int), ..c };
    if hist_has_key(c1.lfu, k) {
        let ki = hist_key_index(c1.lfu, k);
        let slot = c1.lfu[ki];
        spec_revive(
            ControllerModel { lfu: c1.lfu.remove(ki), ..c1 },
            updated(slot.item, v, c1.now),
            Policy::LFU,
            slot.admitted_at,
        )
    } else if hist_has_key(c1.lru, k) {
        let ki = hist_key_index(c1.lru, k);
        let slot = c1.lru[ki];
        spec_revive(
            ControllerModel { lru: c1.lru.remove(ki), ..c1 },
            updated(slot.item, v, c1.now),
            Policy::LRU,
            slot.admitted_at,
        )
    } else {
        let fresh = CacheItemModel { key: k, value: v, frequency: 0, last_used: c1.now };
        let pi = spec_draw(c1.rng, c1.p);
        let c2 = ControllerModel { rng: chacha_next_state(c1.rng), ..c1 };
        spec_admit(c2, fresh, pi)
    }
}

/// The controller: the main store, one ghost history per policy, the
/// learner's probability, the seeded policy selector, the clock, and the
/// observational counters.
pub struct Controller {
    cache: Cache,
    lfu: PolicyCache,
    lru: PolicyCache,
    lfu_prob: u64,
    rng: ChaCha8Rng,
    pub counter: Counter,
    now: u64,
}

impl View for Controller {
    type V = ControllerModel;

    closed spec fn view(&self) -> ControllerModel {
        ControllerModel {
            m: self.cache.items(),
            m_cap: self.cache.cap(),
            lfu: self.lfu.items(),
            lfu_cap: self.lfu.cap(),
            lru: self.lru.items(),
            lru_cap: self.lru.cap(),
            p: self.lfu_prob as int,
            rng: self.rng,
            now: self.now as int,
        }
    }
}

impl Controller {
    /// Well-formedness: the parts are well-formed, each history serves its
    /// own policy, and the state satisfies the controller invariant.
    pub closed spec fn wf(self) -> bool {
        &&& self.cache.wf()
        &&& self.lfu.wf()
        &&& self.lfu.spec_policy() == Policy::LFU
        &&& self.lru.wf()
        &&& self.lru.spec_policy() == Policy::LRU
        &&& ctrl_inv(self@)
    }

    /// A well-formed controller satisfies the controller invariant.
    pub proof fn lemma_wf_inv(self)
        requires
            self.wf(),
        ensures
            ctrl_inv(self@),
    {
    }

    /// The observational counters, for contracts (the field itself is
    /// public for callers).
    pub closed spec fn spec_counter(self) -> Counter {
        self.counter
    }

    /// Creates a controller with the given capacities. The probability
    /// starts at one half and the selector's stream is seeded at a fixed
    /// value, so runs are reproducible.
    pub fn new(cache_size: usize, lfu_cache_size: usize, lru_cache_size: usize) -> (r: Self)
        requires
            cache_size >= 1,
        ensures
            r.wf(),
            r@.m == Seq::<CacheItemModel>::empty(),
            r@.m_cap == cache_size as int,
            r@.lfu == Seq::<HistoryEntryModel>::empty(),
            r@.lfu_cap == lfu_cache_size as int,
            r@.lru == Seq::<HistoryEntryModel>::empty(),
            r@.lru_cap == lru_cache_size as int,
            r@.p == PROB_SCALE as int / 2,
            r@.rng == chacha_from_seed(10),
            r@.now == 0,
            r.spec_counter().size == 0 && r.spec_counter().num_queries == 0,
            r.spec_counter().hits == 0 && r.spec_counter().misses == 0,
            r.spec_counter().raw_messsages_size == 0 && r.spec_counter().compressed_size == 0,
            r.spec_counter().raw_len == 0 && r.spec_counter().encoded_len == 0,
            r.spec_counter().compression_time == 0 && r.spec_counter().decompression_time == 0,
            r.spec_counter().updating_time == 0 && r.spec_counter().memory_size == 0,
    {
        Controller {
            cache: Cache::new(cache_size),
            lfu: PolicyCache::new(Policy::LFU, lfu_cache_size),
            lru: PolicyCache::new(Policy::LRU, lru_cache_size),
            lfu_prob: PROB_SCALE / 2,
            rng: rng_from_seed(10),
            counter: Counter::default(),
            now: 0,
        }
    }

    /// Advances the clock by one tick (stopping at the machine limit).
    fn tick(&mut self)
        requires
            old(self).wf(),
        ensures
            final(self).wf(),
            final(self).spec_counter() == old(self).spec_counter(),
            final(self)@ == (ControllerModel {
                now: inc_capped(old(self)@.now, u64::MAX as int),
                ..old(self)@
            }),
    {
        if self.now < u64::MAX {
            self.now = self.now + 1;
        }
    }

    /// Draws a policy: LFU exactly when the next word of the seeded stream,
    /// read as a fraction of the word range, is at most the learned
    /// probability; the generator advances by that one word and nothing
    /// else changes.
    fn get_policy(&mut self) -> (pi: Policy)
        requires
            old(self).wf(),
        ensures
            final(self).wf(),
            final(self).spec_counter() == old(self).spec_counter(),
            final(self)@ == (ControllerModel {
                rng: chacha_next_state(old(self)@.rng),
                ..old(self)@
            }),
            pi == spec_draw(old(self)@.rng, old(self)@.p),
    {
        let r = rng_next_u32(&mut self.rng);
        proof {
            assert((r as u64) * PROB_SCALE <= 0xffff_ffff * 1_000_000) by (nonlinear_arith)
                requires
                    r <= 0xffff_ffffu64,
            ;
            assert(self.lfu_prob * (u32::MAX as u64) <= 1_000_000 * 0xffff_ffff)
                by (nonlinear_arith)
                requires
                    self.lfu_prob <= 1_000_000,
            ;
        }
        let lfu_draw = (r as u64) * PROB_SCALE <= self.lfu_prob * (u32::MAX as u64);
        Policy::from_bool(lfu_draw)
    }

    /// Feeds a ghost hit to the learner: the rival of the policy that
    /// missed is rewarded with the time-decayed reward of the dwell.
    fn update_weights(&mut self, time_duration: u64, miss_from: Policy)
        requires
            old(self).wf(),
        ensures
            final(self).wf(),
            final(self).spec_counter() == old(self).spec_counter(),
            final(self)@ == (ControllerModel {
                p: spec_learner_update(old(self)@.p, time_duration as nat, miss_from),
                ..old(self)@
            }),
    {
        self.lfu_prob = updated_probability(self.lfu_prob, time_duration, miss_from);
    }

    /// Removes the entry holding `key` from whichever history has it (LFU
    /// probed first), returning the entry, its admission time, and the
    /// policy whose history held it.
    fn find_key_in_policy_caches(&mut self, key: &str) -> (r: Option<(CacheItem, u64, Policy)>)
        requires
            old(self).wf(),
        ensures
            final(self).wf(),
            final(self).spec_counter() == old(self).spec_counter(),
            final(self)@.m == old(self)@.m,
            final(self)@.m_cap == old(self)@.m_cap,
            final(self)@.lfu_cap == old(self)@.lfu_cap,
            final(self)@.lru_cap == old(self)@.lru_cap,
            final(self)@.p == old(self)@.p,
            final(self)@.rng == old(self)@.rng,
            final(self)@.now == old(self)@.now,
            (!hist_has_key(old(self)@.lfu, key@) && !hist_has_key(old(self)@.lru, key@)) ==> final(self)@ == old(self)@ && r is None,
            hist_has_key(old(self)@.lfu, key@) ==> final(self)@.lfu == old(self)@.lfu.remove(
                hist_key_index(old(self)@.lfu, key@),
            ) && final(self)@.lru == old(self)@.lru && (r matches Some(t) && t.0@ == old(self)@.lfu[hist_key_index(old(self)@.lfu, key@)].item && t.1 as int == old(self)@.lfu[hist_key_index(old(self)@.lfu, key@)].admitted_at && t.2 == Policy::LFU),
            (!hist_has_key(old(self)@.lfu, key@) && hist_has_key(old(self)@.lru, key@)) ==> final(self)@.lru == old(self)@.lru.remove(hist_key_index(old(self)@.lru, key@)) && final(self)@.lfu == old(self)@.lfu && (r matches Some(t) && t.0@ == old(self)@.lru[hist_key_index(old(self)@.lru, key@)].item && t.1 as int == old(self)@.lru[hist_key_index(old(self)@.lru, key@)].admitted_at && t.2 == Policy::LRU),
    {
        let ghost c0 = self@;
        match self.lfu.maybe_eject_key(key) {
            Some((item, admitted_at)) => {
                proof {
                    let ki = hist_key_index(c0.lfu, key@);
                    c0.lfu.remove_ensures(ki);
                    lemma_inv_after_lfu_removal(c0, ki);
                }
                Some((item, admitted_at, Policy::LFU))
            },
            None => {
                match self.lru.maybe_eject_key(key) {
                    Some((item, admitted_at)) => {
                        proof {
                            let ki = hist_key_index(c0.lru, key@);
                            c0.lru.remove_ensures(ki);
                            lemma_inv_after_lru_removal(c0, ki);
                        }
                        Some((item, admitted_at, Policy::LRU))
                    },
                    None => None,
                }
            },
        }
    }

    /// Routes a displaced entry into the drawn policy's history; nothing to
    /// do when the admission displaced nothing.
    fn insert_into_policy_cache(&mut self, maybe_cache_item: Option<CacheItem>, policy: Policy)
        requires
            old(self).lfu.wf(),
            old(self).lru.wf(),
            maybe_cache_item matches Some(it) ==> !hist_has_key(
                hist_of(old(self)@, policy),
                it@.key,
            ),
        ensures
            final(self).cache == old(self).cache,
            final(self).lfu_prob == old(self).lfu_prob,
            final(self).spec_counter() == old(self).spec_counter(),
            final(self).now == old(self).now,
            final(self).lfu.wf(),
            final(self).lru.wf(),
            final(self).lfu.spec_policy() == old(self).lfu.spec_policy(),
            final(self).lru.spec_policy() == old(self).lru.spec_policy(),
            final(self)@.lfu_cap == old(self)@.lfu_cap,
            final(self)@.lru_cap == old(self)@.lru_cap,
            maybe_cache_item is None ==> final(self)@ == old(self)@,
            maybe_cache_item matches Some(it) ==> final(self)@ == (if policy == Policy::LFU {
                ControllerModel {
                    lfu: hist_insert(
                        old(self)@.lfu,
                        old(self)@.lfu_cap,
                        old(self).lfu.spec_policy(),
                        it@,
                        old(self)@.now,
                    ),
                    ..old(self)@
                }
            } else {
                ControllerModel {
                    lru: hist_insert(
                        old(self)@.lru,
                        old(self)@.lru_cap,
                        old(self).lru.spec_policy(),
                        it@,
                        old(self)@.now,
                    ),
                    ..old(self)@
                }
            }),
    {
        if let Some(cache_item) = maybe_cache_item {
            let now = self.now;
            match policy {
                Policy::LFU => self.lfu.insert(cache_item, now),
                Policy::LRU => self.lru.insert(cache_item, now),
            }
        }
    }

    /// The current sizes of the main store and the two histories.
    pub fn len(&self) -> (r: (usize, usize, usize))
        ensures
            r.0 == self@.m.len(),
            r.1 == self@.lfu.len(),
            r.2 == self@.lru.len(),
    {
        (self.cache.len(), self.lfu.len(), self.lru.len())
    }

    /// Whether the main store is at capacity.
    pub fn full(&self) -> (r: bool)
        ensures
            r == (self@.m.len() == self@.m_cap),
    {
        self.cache.full()
    }

    /// The resident entry at a position in insertion order.
    pub fn get_index(&self, index: usize) -> (r: Option<&CacheItem>)
        ensures
            r is Some <==> index < self@.m.len(),
            r matches Some(v) ==> v@ == self@.m[index as int],
    {
        self.cache.get_index(index)
    }

    /// The position of a resident key in insertion order.
    pub fn get_index_of(&self, key: &str) -> (r: Option<usize>)
        requires
            self.wf(),
        ensures
            r is Some <==> has_key(self@.m, key@),
            r matches Some(i) ==> i < self@.m.len() && self@.m[i as int].key == key@,
    {
        self.cache.get_index_of(key)
    }

    /// Retrieves a value. A key resident in the main store is served
    /// directly, its entry touched. A key found in a ghost history is
    /// revived: the learner is fed the dwell time, a policy is drawn, the
    /// entry returns to the main store, and any displaced entry moves into
    /// the drawn policy's history. Otherwise the miss is cold and nothing
    /// but the clock changes.
    pub fn get(&mut self, key: &str) -> (r: Option<String>)
        requires
            old(self).wf(),
        ensures
            final(self).wf(),
            final(self).spec_counter() == old(self).spec_counter(),
            final(self)@ == spec_get_step(old(self)@, key@),
            r is Some <==> spec_get_result(old(self)@, key@) is Some,
            r matches Some(v) ==> (spec_get_result(old(self)@, key@) matches Some(sv) && v@ == sv),
    {
        let ghost c0 = self@;
        self.tick();
        let ghost c1 = self@;
        let now = self.now;
        let hit = self.cache.get(key, now);
        match hit {
            Some(item) => {
                let value = item.value().to_owned();
                proof {
                    let ki = key_index(c1.m, key@);
                    lemma_inv_after_touch(c1, ki);
                    assert(self@ =~= spec_get_step(c0, key@));
                    assert(c0.m == c1.m);
                    assert(value@ == c0.m[key_index(c0.m, key@)].value);
                }
                Some(value)
            },
            None => {
                let found = self.find_key_in_policy_caches(key);
                match found {
                    None => {
                        proof {
                            assert(self@ =~= spec_get_step(c0, key@));
                        }
                        None
                    },
                    Some((item, admitted_at, old_policy)) => {
                        let ghost c2 = self@;
                        let ghost e = item@;
                        let value = item.value().to_owned();
                        proof {
                            lemma_ghost_hit_facts(c1, key@, old_policy);
                            assert(admitted_at <= now);
                        }
                        let dt = now - admitted_at;
                        self.update_weights(dt, old_policy);
                        let ghost c3 = self@;
                        let policy = self.get_policy();
                        let ghost c3d = self@;
                        proof {
                            assert(self.cache.wf());
                            assert(self.cache.cap() >= 1);
                        }
                        let maybe = self.cache.insert_with_policy(item, policy, now);
                        let ghost c4 = self@;
                        proof {
                            lemma_learner_update_direction(c2.p, dt as nat, old_policy);
                            assert(ctrl_inv(c3d));
                            assert(c4 =~= (ControllerModel {
                                m: store_insert_items(c3d.m, c3d.m_cap, e, policy, c3d.now),
                                ..c3d
                            }));
                            if maybe is Some {
                                lemma_victim_foreign(c3d, e, policy);
                            }
                        }
                        self.insert_into_policy_cache(maybe, policy);
                        proof {
                            assert(self@ =~= spec_admit(c3d, e, policy));
                            assert(spec_revive(c2, e, old_policy, admitted_at as int)
                                =~= spec_admit(c3d, e, policy));
                            lemma_revive_inv(c2, e, old_policy, admitted_at as int);
                            assert(self@ =~= spec_get_step(c0, key@));
                            assert(spec_get_result(c0, key@) matches Some(sv) && value@ == sv);
                        }
                        Some(value)
                    },
                }
            },
        }
    }

    /// Inserts a value. A key found in a ghost history is revived with the
    /// new value and touched, the learner fed and a policy drawn; otherwise
    /// a fresh entry is admitted under a drawn policy, updating in place if
    /// the key is already resident. A displaced entry moves into the drawn
    /// policy's history.
    pub fn insert(&mut self, key: &str, value: String)
        requires
            old(self).wf(),
        ensures
            final(self).wf(),
            final(self).spec_counter() == old(self).spec_counter(),
            final(self)@ == spec_insert_step(old(self)@, key@, value@),
    {
        let ghost c0 = self@;
        self.tick();
        let ghost c1 = self@;
        let now = self.now;
        let found = self.find_key_in_policy_caches(key);
        match found {
            Some((mut item, admitted_at, old_policy)) => {
                let ghost c2 = self@;
                proof {
                    lemma_ghost_hit_facts(c1, key@, old_policy);
                    assert(admitted_at <= now);
                }
                item.update(value, now);
                let ghost e = item@;
                let dt = now - admitted_at;
                self.update_weights(dt, old_policy);
                let ghost c3 = self@;
                let policy = self.get_policy();
                let ghost c3d = self@;
                proof {
                    assert(self.cache.wf());
                    assert(self.cache.cap() >= 1);
                }
                let maybe = self.cache.insert_with_policy(item, policy, now);
                let ghost c4 = self@;
                proof {
                    lemma_learner_update_direction(c2.p, dt as nat, old_policy);
                    assert(ctrl_inv(c3d));
                    assert(c4 =~= (ControllerModel {
                        m: store_insert_items(c3d.m, c3d.m_cap, e, policy, c3d.now),
                        ..c3d
                    }));
                    if maybe is Some {
                        lemma_victim_foreign(c3d, e, policy);
                    }
                }
                self.insert_into_policy_cache(maybe, policy);
                proof {
                    assert(self@ =~= spec_admit(c3d, e, policy));
                    assert(spec_revive(c2, e, old_policy, admitted_at as int)
                        =~= spec_admit(c3d, e, policy));
                    lemma_revive_inv(c2, e, old_policy, admitted_at as int);
                    assert(self@ =~= spec_insert_step(c0, key@, value@));
                }
            },
            None => {
                let policy = self.get_policy();
                let ghost c1d = self@;
                let item = CacheItem::new(key.to_owned(), value, now);
                let ghost e = item@;
                proof {
                    assert(self.cache.wf());
                    assert(self.cache.cap() >= 1);
                }
                let maybe = self.cache.insert_with_policy(item, policy, now);
                let ghost c4 = self@;
                proof {
                    assert(c4 =~= (ControllerModel {
                        m: store_insert_items(c1d.m, c1d.m_cap, e, policy, c1d.now),
                        ..c1d
                    }));
                    if maybe is Some {
                        lemma_victim_foreign(c1d, e, policy);
                    }
                }
                self.insert_into_policy_cache(maybe, policy);
                proof {
                    assert(self@ =~= spec_admit(c1d, e, policy));
                    lemma_admit_inv(c1d, e, policy);
                    assert(self@ =~= spec_insert_step(c0, key@, value@));
                }
            },
        }
    }
}

/// The invariant survives a clock tick: the clock never moves backwards.
proof fn lemma_inv_after_tick(c: ControllerModel)
    requires
        ctrl_inv(c),
    ensures
        ctrl_inv(ControllerModel { now: inc_capped(c.now, u64::MAX as int), ..c }),
{
}

/// The invariant survives touching one resident entry at the current time.
proof fn lemma_inv_after_touch(c: ControllerModel, ki: int)
    requires
        ctrl_inv(c),
        0 <= ki < c.m.len(),
    ensures
        ctrl_inv(ControllerModel { m: c.m.update(ki, touched(c.m[ki], c.now)), ..c }),
{
    let m2 = c.m.update(ki, touched(c.m[ki], c.now));
    assert forall|j: int| 0 <= j < m2.len() implies (#[trigger] m2[j]).key == c.m[j].key by {
        if j != ki {
            assert(m2[j] == c.m[j]);
        }
    }
    assert forall|j: int| 0 <= j < m2.len() implies (#[trigger] m2[j]).frequency >= 0
        && m2[j].last_used <= c.now by {
        if j != ki {
            assert(m2[j] == c.m[j]);
        }
    }
}

/// What a ghost hit yields: the slot is unique, its entry is current, and
/// removing it leaves the key foreign to both histories.
proof fn lemma_ghost_hit_facts(c: ControllerModel, k: Seq<char>, miss_from: Policy)
    requires
        ctrl_inv(c),
        hist_has_key(hist_of(c, miss_from), k),
    ensures
        0 <= hist_key_index(hist_of(c, miss_from), k) < hist_of(c, miss_from).len(),
        hist_of(c, miss_from)[hist_key_index(hist_of(c, miss_from), k)].item.key == k,
        hist_of(c, miss_from)[hist_key_index(hist_of(c, miss_from), k)].admitted_at <= c.now,
        hist_of(c, miss_from)[hist_key_index(hist_of(c, miss_from), k)].item.last_used <= c.now,
        hist_of(c, miss_from)[hist_key_index(hist_of(c, miss_from), k)].item.frequency >= 0,
        !hist_has_key(
            hist_of(c, miss_from).remove(hist_key_index(hist_of(c, miss_from), k)),
            k,
        ),
        miss_from is LFU ==> !hist_has_key(c.lru, k),
        miss_from is LRU ==> !hist_has_key(c.lfu, k),
{
    let h = hist_of(c, miss_from);
    let ki = hist_key_index(h, k);
    assert(0 <= ki < h.len() && h[ki].item.key == k);
    h.remove_ensures(ki);
    let h2 = h.remove(ki);
    assert forall|j: int| 0 <= j < h2.len() implies (#[trigger] h2[j]).item.key != k by {
        let j0 = if j < ki {
            j
        } else {
            j + 1
        };
        assert(h2[j] == h[j0]);
        if j0 < ki {
            assert(h[j0].item.key != h[ki].item.key);
        } else {
            assert(h[ki].item.key != h[j0].item.key);
        }
    }
    if miss_from is LFU {
        assert forall|j: int| 0 <= j < c.lru.len() implies (#[trigger] c.lru[j]).item.key != k by {
            assert(c.lfu[ki].item.key != c.lru[j].item.key);
        }
    } else {
        assert forall|j: int| 0 <= j < c.lfu.len() implies (#[trigger] c.lfu[j]).item.key != k by {
            assert(c.lfu[j].item.key != c.lru[ki].item.key);
        }
    }
}

/// An entry displaced from the main store is foreign to both histories.
proof fn lemma_victim_foreign(c: ControllerModel, item: CacheItemModel, pi: Policy)
    requires
        ctrl_inv(c),
        store_insert_evicted(c.m, c.m_cap, item, pi) is Some,
    ensures
        !hist_has_key(c.lfu, store_insert_evicted(c.m, c.m_cap, item, pi)->Some_0.key),
        !hist_has_key(c.lru, store_insert_evicted(c.m, c.m_cap, item, pi)->Some_0.key),
{
    let vi = min_metric_index(c.m, pi);
    lemma_min_metric_index(c.m, pi);
    let victim = c.m[vi];
    assert forall|j: int| 0 <= j < c.lfu.len() implies (#[trigger] c.lfu[j]).item.key
        != victim.key by {}
    assert forall|j: int| 0 <= j < c.lru.len() implies (#[trigger] c.lru[j]).item.key
        != victim.key by {}
}

/// Admission preserves the invariant: the store and the receiving history
/// stay within capacity and disjoint, and the admitted key is resident
/// afterwards. The item must be foreign to both histories and current.
proof fn lemma_admit_inv(c: ControllerModel, item: CacheItemModel, pi: Policy)
    requires
        ctrl_inv(c),
        !hist_has_key(c.lfu, item.key),
        !hist_has_key(c.lru, item.key),
        item.frequency >= 0,
        item.last_used <= c.now,
    ensures
        ctrl_inv(spec_admit(c, item, pi)),
        has_key(spec_admit(c, item, pi).m, item.key),
        !hist_has_key(spec_admit(c, item, pi).lfu, item.key),
        !hist_has_key(spec_admit(c, item, pi).lru, item.key),
        spec_admit(c, item, pi).m[key_index(spec_admit(c, item, pi).m, item.key)] == (if has_key(
            c.m,
            item.key,
        ) {
            updated(c.m[key_index(c.m, item.key)], item.value, c.now)
        } else {
            item
        }),
{
    let c2 = spec_admit(c, item, pi);
    let m2 = store_insert_items(c.m, c.m_cap, item, pi, c.now);
    if has_key(c.m, item.key) {
        let ki = key_index(c.m, item.key);
        assert(0 <= ki < c.m.len() && c.m[ki].key == item.key);
        assert forall|j: int| 0 <= j < m2.len() implies (#[trigger] m2[j]).key == c.m[j].key by {
            if j != ki {
                assert(m2[j] == c.m[j]);
            }
        }
        assert(distinct_keys(m2));
        assert(m2[ki].key == item.key);
        assert(has_key(m2, item.key));
        lemma_key_index_pin(m2, ki);
        assert forall|j: int| 0 <= j < m2.len() implies (#[trigger] m2[j]).frequency >= 0
            && m2[j].last_used <= c.now by {
            if j != ki {
                assert(m2[j] == c.m[j]);
            }
        }
    } else if c.m.len() < c.m_cap {
        assert(m2 == c.m.push(item));
        assert forall|a: int, b: int| 0 <= a < b < m2.len() implies (#[trigger] m2[a]).key != (
        #[trigger] m2[b]).key by {
            if b < c.m.len() {
            } else {
                assert(m2[b] == item);
                assert(m2[a] == c.m[a]);
            }
        }
        assert(m2[m2.len() - 1] == item);
        assert(has_key(m2, item.key));
        lemma_key_index_pin(m2, m2.len() - 1);
    } else {
        let vi = min_metric_index(c.m, pi);
        lemma_min_metric_index(c.m, pi);
        c.m.remove_ensures(vi);
        let victim = c.m[vi];
        let s1 = c.m.remove(vi);
        assert(m2 == s1.push(item));
        assert(store_insert_evicted(c.m, c.m_cap, item, pi) == Some(victim));
        assert forall|j: int| 0 <= j < s1.len() implies #[trigger] s1[j] == c.m[if j < vi {
            j
        } else {
            j + 1
        }] by {}
        assert forall|a: int, b: int| 0 <= a < b < m2.len() implies (#[trigger] m2[a]).key != (
        #[trigger] m2[b]).key by {
            if b < s1.len() {
                assert(m2[a] == s1[a] && m2[b] == s1[b]);
            } else {
                assert(m2[b] == item);
                assert(m2[a] == s1[a]);
            }
        }
        assert(m2[m2.len() - 1] == item);
        assert(has_key(m2, item.key));
        lemma_key_index_pin(m2, m2.len() - 1);
        assert(m2.len() == c.m.len());
        // The victim's key is foreign to both histories, since it was
        // resident.
        assert forall|j: int| 0 <= j < c.lfu.len() implies (#[trigger] c.lfu[j]).item.key
            != victim.key by {}
        assert forall|j: int| 0 <= j < c.lru.len() implies (#[trigger] c.lru[j]).item.key
            != victim.key by {}
        assert(!hist_has_key(c.lfu, victim.key));
        assert(!hist_has_key(c.lru, victim.key));
        let h = hist_of(c, pi);
        let hcap = if pi == Policy::LFU {
            c.lfu_cap
        } else {
            c.lru_cap
        };
        lemma_hist_insert_props(h, hcap, pi, victim, c.now);
        let h2 = hist_insert(h, hcap, pi, victim, c.now);
        let fresh = HistoryEntryModel { item: victim, admitted_at: c.now };
        // Each slot of the new history is the victim's or an old one, so
        // disjointness from the new store and the other history carries
        // over, as do the time bounds.
        assert forall|a: int, b: int| 0 <= a < m2.len() && 0 <= b < h2.len() implies (
        #[trigger] m2[a]).key != (#[trigger] h2[b]).item.key by {
            assert(h2[b] == fresh || (exists|b0: int| 0 <= b0 < h.len() && h2[b] == h[b0]));
            if a < s1.len() {
                assert(m2[a] == s1[a]);
                assert(m2[a] == c.m[if a < vi {
                    a
                } else {
                    a + 1
                }]);
            } else {
                assert(m2[a] == item);
            }
            if h2[b] == fresh {
                if a < s1.len() {
                    let a0 = if a < vi {
                        a
                    } else {
                        a + 1
                    };
                    assert(a0 != vi);
                    assert(c.m[a0].key != c.m[vi].key);
                }
            } else {
                let b0 = choose|b0: int| 0 <= b0 < h.len() && h2[b] == h[b0];
                assert(h2[b] == h[b0]);
            }
        }
        assert forall|b: int| 0 <= b < h2.len() implies (#[trigger] h2[b]).item.frequency >= 0
            && h2[b].item.last_used <= c.now && h2[b].admitted_at <= c.now by {
            assert(h2[b] == fresh || (exists|b0: int| 0 <= b0 < h.len() && h2[b] == h[b0]));
            if h2[b] != fresh {
                let b0 = choose|b0: int| 0 <= b0 < h.len() && h2[b] == h[b0];
                assert(h2[b] == h[b0]);
            }
        }
        // The admitted key stays foreign to the updated history too: the
        // entry the history gains is the victim's, whose key differs.
        assert(victim.key != item.key);
        assert forall|b: int| 0 <= b < h2.len() implies (#[trigger] h2[b]).item.key
            != item.key by {
            assert(h2[b] == fresh || (exists|b0: int| 0 <= b0 < h.len() && h2[b] == h[b0]));
            if h2[b] != fresh {
                let b0 = choose|b0: int| 0 <= b0 < h.len() && h2[b] == h[b0];
                assert(h2[b] == h[b0]);
            }
        }
        if pi == Policy::LFU {
            assert forall|a: int, b: int| 0 <= a < h2.len() && 0 <= b < c.lru.len() implies (
            #[trigger] h2[a]).item.key != (#[trigger] c.lru[b]).item.key by {
                assert(h2[a] == fresh || (exists|a0: int| 0 <= a0 < h.len() && h2[a] == h[a0]));
                if h2[a] != fresh {
                    let a0 = choose|a0: int| 0 <= a0 < h.len() && h2[a] == h[a0];
                    assert(h2[a] == h[a0]);
                }
            }
            assert(c2 == (ControllerModel { m: m2, lfu: h2, ..c }));
        } else {
            assert forall|a: int, b: int| 0 <= a < c.lfu.len() && 0 <= b < h2.len() implies (
            #[trigger] c.lfu[a]).item.key != (#[trigger] h2[b]).item.key by {
                assert(h2[b] == fresh || (exists|b0: int| 0 <= b0 < h.len() && h2[b] == h[b0]));
                if h2[b] != fresh {
                    let b0 = choose|b0: int| 0 <= b0 < h.len() && h2[b] == h[b0];
                    assert(h2[b] == h[b0]);
                }
            }
            assert(c2 == (ControllerModel { m: m2, lru: h2, ..c }));
        }
    }
}

/// Reviving a ghost entry preserves the invariant: the learner keeps the
/// probability inside its floor, and the admission preserves the rest.
proof fn lemma_revive_inv(
    c: ControllerModel,
    e: CacheItemModel,
    miss_from: Policy,
    admitted: int,
)
    requires
        ctrl_inv(c),
        !hist_has_key(c.lfu, e.key),
        !hist_has_key(c.lru, e.key),
        e.frequency >= 0,
        e.last_used <= c.now,
    ensures
        ctrl_inv(spec_revive(c, e, miss_from, admitted)),
        has_key(spec_revive(c, e, miss_from, admitted).m, e.key),
{
    let dt = if admitted <= c.now {
        (c.now - admitted) as nat
    } else {
        0
    };
    lemma_learner_update_direction(c.p, dt, miss_from);
    let p2 = spec_learner_update(c.p, dt, miss_from);
    let pi = spec_draw(c.rng, p2);
    let c2 = ControllerModel { p: p2, rng: chacha_next_state(c.rng), ..c };
    lemma_admit_inv(c2, e, pi);
}

/// Removing a slot from the LFU history preserves the invariant.
proof fn lemma_inv_after_lfu_removal(c: ControllerModel, ki: int)
    requires
        ctrl_inv(c),
        0 <= ki < c.lfu.len(),
    ensures
        ctrl_inv(ControllerModel { lfu: c.lfu.remove(ki), ..c }),
{
    let l2 = c.lfu.remove(ki);
    c.lfu.remove_ensures(ki);
    assert forall|j: int| 0 <= j < l2.len() implies #[trigger] l2[j] == c.lfu[if j < ki {
        j
    } else {
        j + 1
    }] by {}
}

/// Removing a slot from the LRU history preserves the invariant.
proof fn lemma_inv_after_lru_removal(c: ControllerModel, ki: int)
    requires
        ctrl_inv(c),
        0 <= ki < c.lru.len(),
    ensures
        ctrl_inv(ControllerModel { lru: c.lru.remove(ki), ..c }),
{
    let l2 = c.lru.remove(ki);
    c.lru.remove_ensures(ki);
    assert forall|j: int| 0 <= j < l2.len() implies #[trigger] l2[j] == c.lru[if j < ki {
        j
    } else {
        j + 1
    }] by {}
}

/// Whether the key is anywhere in the composite: resident or in a history.
pub open spec fn present(c: ControllerModel, k: Seq<char>) -> bool {
    has_key(c.m, k) || hist_has_key(c.lfu, k) || hist_has_key(c.lru, k)
}

/// The frequency of the key's entry, wherever it lives (zero if absent).
pub open spec fn lookup_frequency(c: ControllerModel, k: Seq<char>) -> int {
    if has_key(c.m, k) {
        c.m[key_index(c.m, k)].frequency
    } else if hist_has_key(c.lfu, k) {
        c.lfu[hist_key_index(c.lfu, k)].item.frequency
    } else if hist_has_key(c.lru, k) {
        c.lru[hist_key_index(c.lru, k)].item.frequency
    } else {
        0
    }
}

/// The LRU probability numerator: the complement of the LFU one.
pub open spec fn p_lru(c: ControllerModel) -> int {
    PROB_SCALE - c.p
}

/// The sizes of the main store and both histories never exceed their
/// capacities.
pub proof fn lemma_inv_sizes_bounded(c: ControllerModel)
    requires
        ctrl_inv(c),
    ensures
        c.m.len() <= c.m_cap,
        c.lfu.len() <= c.lfu_cap,
        c.lru.len() <= c.lru_cap,
{
}

/// The key sets of the main store and the two histories are pairwise
/// disjoint, and no key repeats within any of the three.
pub proof fn lemma_inv_keys_disjoint(c: ControllerModel)
    requires
        ctrl_inv(c),
    ensures
        distinct_keys(c.m),
        hist_distinct_keys(c.lfu),
        hist_distinct_keys(c.lru),
        forall|i: int, j: int|
            0 <= i < c.m.len() && 0 <= j < c.lfu.len() ==> #[trigger] c.m[i].key
                != #[trigger] c.lfu[j].item.key,
        forall|i: int, j: int|
            0 <= i < c.m.len() && 0 <= j < c.lru.len() ==> #[trigger] c.m[i].key
                != #[trigger] c.lru[j].item.key,
        forall|i: int, j: int|
            0 <= i < c.lfu.len() && 0 <= j < c.lru.len() ==> #[trigger] c.lfu[i].item.key
                != #[trigger] c.lru[j].item.key,
{
}

/// The LFU probability lies strictly between 0 and 1, and the two policy
/// probabilities sum to one exactly.
pub proof fn lemma_inv_probability(c: ControllerModel)
    requires
        ctrl_inv(c),
    ensures
        0 < c.p < PROB_SCALE,
        0 < p_lru(c) < PROB_SCALE,
        c.p + p_lru(c) == PROB_SCALE,
{
}

/// Every entry has a non-negative frequency and no timestamp ahead of the
/// clock, in the main store and in both histories.
pub proof fn lemma_inv_entries_current(c: ControllerModel)
    requires
        ctrl_inv(c),
    ensures
        forall|i: int|
            0 <= i < c.m.len() ==> (#[trigger] c.m[i]).frequency >= 0 && c.m[i].last_used
                <= c.now,
        forall|j: int|
            0 <= j < c.lfu.len() ==> (#[trigger] c.lfu[j]).item.frequency >= 0
                && c.lfu[j].item.last_used <= c.now && c.lfu[j].admitted_at <= c.now,
        forall|j: int|
            0 <= j < c.lru.len() ==> (#[trigger] c.lru[j]).item.frequency >= 0
                && c.lru[j].item.last_used <= c.now && c.lru[j].admitted_at <= c.now,
{
}

/// A `get` that hits in the main store touches exactly that entry: its
/// frequency grows by exactly one and its last-used time advances to the
/// new clock, its key and value are unchanged, every other entry is
/// untouched, and the histories and the probability do not move.
/// No policy is drawn: the selector stream is left unread.
pub proof fn lemma_get_hit_touches(c: ControllerModel, k: Seq<char>)
    requires
        ctrl_inv(c),
        has_key(c.m, k),
        c.now < u64::MAX,
        c.m[key_index(c.m, k)].frequency < usize::MAX,
    ensures
        spec_get_step(c, k).m[key_index(c.m, k)].frequency == c.m[key_index(
            c.m,
            k,
        )].frequency + 1,
        spec_get_step(c, k).m[key_index(c.m, k)].last_used == c.now + 1,
        spec_get_step(c, k).m[key_index(c.m, k)].last_used > c.m[key_index(c.m, k)].last_used,
        spec_get_step(c, k).m[key_index(c.m, k)].key == c.m[key_index(c.m, k)].key,
        spec_get_step(c, k).m[key_index(c.m, k)].value == c.m[key_index(c.m, k)].value,
        forall|j: int|
            0 <= j < c.m.len() && j != key_index(c.m, k) ==> #[trigger] spec_get_step(
                c,
                k,
            ).m[j] == c.m[j],
        spec_get_step(c, k).lfu == c.lfu,
        spec_get_step(c, k).lru == c.lru,
        spec_get_step(c, k).p == c.p,
        spec_get_step(c, k).rng == c.rng,
{
    let ki = key_index(c.m, k);
    assert(0 <= ki < c.m.len() && c.m[ki].key == k);
}

/// What one `insert(k, v)` leaves behind, whatever policy is drawn: the
/// invariant still holds, `k` is resident (in exactly one place), its entry
/// holds `v` and the new clock, and its frequency is one more than before
/// where `k` was present anywhere, zero where it was new.
pub proof fn lemma_insert_step_inv(c: ControllerModel, k: Seq<char>, v: Seq<char>)
    requires
        ctrl_inv(c),
    ensures
        ctrl_inv(spec_insert_step(c, k, v)),
        spec_insert_step(c, k, v).m_cap == c.m_cap,
        spec_insert_step(c, k, v).lfu_cap == c.lfu_cap,
        spec_insert_step(c, k, v).lru_cap == c.lru_cap,
        spec_insert_step(c, k, v).now == inc_capped(c.now, u64::MAX as int),
        spec_insert_step(c, k, v).rng == chacha_next_state(c.rng),
        has_key(spec_insert_step(c, k, v).m, k),
        !hist_has_key(spec_insert_step(c, k, v).lfu, k),
        !hist_has_key(spec_insert_step(c, k, v).lru, k),
        spec_insert_step(c, k, v).m[key_index(spec_insert_step(c, k, v).m, k)]
            == (CacheItemModel {
            key: k,
            value: v,
            frequency: if present(c, k) {
                inc_capped(lookup_frequency(c, k), usize::MAX as int)
            } else {
                0
            },
            last_used: inc_capped(c.now, u64::MAX as int),
        }),
{
    let c1 = ControllerModel { now: inc_capped(c.now, u64::MAX as int), ..c };
    lemma_inv_after_tick(c);
    let res = spec_insert_step(c, k, v);
    if hist_has_key(c1.lfu, k) {
        lemma_ghost_hit_facts(c1, k, Policy::LFU);
        let ki = hist_key_index(c1.lfu, k);
        let slot = c1.lfu[ki];
        lemma_inv_after_lfu_removal(c1, ki);
        let c2 = ControllerModel { lfu: c1.lfu.remove(ki), ..c1 };
        let e = updated(slot.item, v, c1.now);
        assert(!has_key(c.m, k)) by {
            if has_key(c.m, k) {
                let i = key_index(c.m, k);
                assert(c.m[i].key != c.lfu[ki].item.key);
            }
        }
        let dt = if slot.admitted_at <= c2.now {
            (c2.now - slot.admitted_at) as nat
        } else {
            0
        };
        lemma_learner_update_direction(c2.p, dt, Policy::LFU);
        let p2 = spec_learner_update(c2.p, dt, Policy::LFU);
        let pi = spec_draw(c2.rng, p2);
        let c3 = ControllerModel { p: p2, rng: chacha_next_state(c2.rng), ..c2 };
        lemma_admit_inv(c3, e, pi);
        assert(res == spec_admit(c3, e, pi));
        assert(!has_key(c3.m, e.key));
    } else if hist_has_key(c1.lru, k) {
        lemma_ghost_hit_facts(c1, k, Policy::LRU);
        let ki = hist_key_index(c1.lru, k);
        let slot = c1.lru[ki];
        lemma_inv_after_lru_removal(c1, ki);
        let c2 = ControllerModel { lru: c1.lru.remove(ki), ..c1 };
        let e = updated(slot.item, v, c1.now);
        assert(!has_key(c.m, k)) by {
            if has_key(c.m, k) {
                let i = key_index(c.m, k);
                assert(c.m[i].key != c.lru[ki].item.key);
            }
        }
        let dt = if slot.admitted_at <= c2.now {
            (c2.now - slot.admitted_at) as nat
        } else {
            0
        };
        lemma_learner_update_direction(c2.p, dt, Policy::LRU);
        let p2 = spec_learner_update(c2.p, dt, Policy::LRU);
        let pi = spec_draw(c2.rng, p2);
        let c3 = ControllerModel { p: p2, rng: chacha_next_state(c2.rng), ..c2 };
        lemma_admit_inv(c3, e, pi);
        assert(res == spec_admit(c3, e, pi));
    } else {
        let fresh = CacheItemModel { key: k, value: v, frequency: 0, last_used: c1.now };
        let pi = spec_draw(c1.rng, c1.p);
        let c1d = ControllerModel { rng: chacha_next_state(c1.rng), ..c1 };
        lemma_admit_inv(c1d, fresh, pi);
        assert(res == spec_admit(c1d, fresh, pi));
        if has_key(c.m, k) {
            assert(has_key(c1.m, fresh.key));
            assert(key_index(c1.m, k) == key_index(c.m, k));
            assert(lookup_frequency(c, k) == c.m[key_index(c.m, k)].frequency);
        }
    }
}

/// What one `get(k)` leaves behind, whatever policy is drawn: the invariant
/// still holds; a key found in the main store or a history is resident
/// afterwards and sits in no history; a revived entry keeps its value.
pub proof fn lemma_get_step_inv(c: ControllerModel, k: Seq<char>)
    requires
        ctrl_inv(c),
    ensures
        ctrl_inv(spec_get_step(c, k)),
        spec_get_step(c, k).m_cap == c.m_cap,
        spec_get_step(c, k).lfu_cap == c.lfu_cap,
        spec_get_step(c, k).lru_cap == c.lru_cap,
        present(c, k) ==> has_key(spec_get_step(c, k).m, k) && !hist_has_key(
            spec_get_step(c, k).lfu,
            k,
        ) && !hist_has_key(spec_get_step(c, k).lru, k),
        present(c, k) ==> spec_get_step(c, k).m[key_index(spec_get_step(c, k).m, k)].value
            == spec_get_result(c, k)->Some_0,
        !present(c, k) ==> spec_get_step(c, k) == (ControllerModel {
            now: inc_capped(c.now, u64::MAX as int),
            ..c
        }) && spec_get_result(c, k) is None,
        spec_get_result(c, k) is Some <==> present(c, k),
{
    let c1 = ControllerModel { now: inc_capped(c.now, u64::MAX as int), ..c };
    lemma_inv_after_tick(c);
    let res = spec_get_step(c, k);
    if has_key(c1.m, k) {
        let ki = key_index(c1.m, k);
        assert(0 <= ki < c1.m.len() && c1.m[ki].key == k);
        lemma_inv_after_touch(c1, ki);
        assert(res == (ControllerModel { m: c1.m.update(ki, touched(c1.m[ki], c1.now)), ..c1 }));
        assert(res.m[ki].key == k);
        assert(has_key(res.m, k));
        assert forall|a: int, b: int| 0 <= a < b < res.m.len() implies (#[trigger] res.m[a]).key
            != (#[trigger] res.m[b]).key by {
            if a != ki {
                assert(res.m[a] == c1.m[a]);
            }
            if b != ki {
                assert(res.m[b] == c1.m[b]);
            }
        }
        lemma_key_index_pin(res.m, ki);
        assert forall|j: int| 0 <= j < res.lfu.len() implies (#[trigger] res.lfu[j]).item.key
            != k by {
            assert(c.m[ki].key != c.lfu[j].item.key);
        }
        assert forall|j: int| 0 <= j < res.lru.len() implies (#[trigger] res.lru[j]).item.key
            != k by {
            assert(c.m[ki].key != c.lru[j].item.key);
        }
    } else if hist_has_key(c1.lfu, k) {
        lemma_ghost_hit_facts(c1, k, Policy::LFU);
        let ki = hist_key_index(c1.lfu, k);
        let slot = c1.lfu[ki];
        lemma_inv_after_lfu_removal(c1, ki);
        let c2 = ControllerModel { lfu: c1.lfu.remove(ki), ..c1 };
        let dt = if slot.admitted_at <= c2.now {
            (c2.now - slot.admitted_at) as nat
        } else {
            0
        };
        lemma_learner_update_direction(c2.p, dt, Policy::LFU);
        let p2 = spec_learner_update(c2.p, dt, Policy::LFU);
        let pi = spec_draw(c2.rng, p2);
        let c3 = ControllerModel { p: p2, rng: chacha_next_state(c2.rng), ..c2 };
        lemma_admit_inv(c3, slot.item, pi);
        assert(res == spec_admit(c3, slot.item, pi));
        assert(!has_key(c3.m, slot.item.key));
    } else if hist_has_key(c1.lru, k) {
        lemma_ghost_hit_facts(c1, k, Policy::LRU);
        let ki = hist_key_index(c1.lru, k);
        let slot = c1.lru[ki];
        lemma_inv_after_lru_removal(c1, ki);
        let c2 = ControllerModel { lru: c1.lru.remove(ki), ..c1 };
        let dt = if slot.admitted_at <= c2.now {
            (c2.now - slot.admitted_at) as nat
        } else {
            0
        };
        lemma_learner_update_direction(c2.p, dt, Policy::LRU);
        let p2 = spec_learner_update(c2.p, dt, Policy::LRU);
        let pi = spec_draw(c2.rng, p2);
        let c3 = ControllerModel { p: p2, rng: chacha_next_state(c2.rng), ..c2 };
        lemma_admit_inv(c3, slot.item, pi);
        assert(res == spec_admit(c3, slot.item, pi));
        assert(!has_key(c3.m, slot.item.key));
    }
}

/// Re-inserting the same pair twice is idempotent on residency: one entry
/// for the key remains, holding the given value, with a frequency exactly
/// two above what the key's entry had before the pair of calls.
pub proof fn lemma_insert_idempotent(c: ControllerModel, k: Seq<char>, v: Seq<char>)
    requires
        ctrl_inv(c),
        present(c, k),
        lookup_frequency(c, k) + 2 <= usize::MAX,
        c.now + 2 <= u64::MAX,
    ensures
        ({
            let c2 = spec_insert_step(spec_insert_step(c, k, v), k, v);
            &&& has_key(c2.m, k)
            &&& distinct_keys(c2.m)
            &&& c2.m[key_index(c2.m, k)].value == v
            &&& c2.m[key_index(c2.m, k)].frequency == lookup_frequency(c, k) + 2
        }),
{
    lemma_insert_step_inv(c, k, v);
    let c1 = spec_insert_step(c, k, v);
    lemma_insert_step_inv(c1, k, v);
    assert(lookup_frequency(c1, k) == lookup_frequency(c, k) + 1);
}

/// Ghost revival round-trip: on a key absent from the main store, `get`
/// succeeds exactly when some ghost history still holds the key, returns
/// the value the ghost entry kept, and leaves the key resident and absent
/// from both histories.
pub proof fn lemma_ghost_revival_round_trip(c: ControllerModel, k: Seq<char>)
    requires
        ctrl_inv(c),
        !has_key(c.m, k),
    ensures
        spec_get_result(c, k) is Some <==> (hist_has_key(c.lfu, k) || hist_has_key(c.lru, k)),
        (hist_has_key(c.lfu, k) || hist_has_key(c.lru, k)) ==> {
            let res = spec_get_step(c, k);
            &&& has_key(res.m, k)
            &&& !hist_has_key(res.lfu, k)
            &&& !hist_has_key(res.lru, k)
            &&& res.m[key_index(res.m, k)].value == spec_get_result(c, k)->Some_0
        },
{
    lemma_get_step_inv(c, k);
}

/// With a main store of capacity one, every insert of a fresh key evicts
/// the prior resident, which enters the drawn policy's history whenever
/// that history is below its capacity (a full history keeps only the
/// combined set's survivors of its own extremum rule).
pub proof fn lemma_unit_capacity_evicts(c: ControllerModel, k: Seq<char>, v: Seq<char>)
    requires
        ctrl_inv(c),
        c.m_cap == 1,
        c.m.len() == 1,
        !present(c, k),
    ensures
        spec_insert_step(c, k, v).m.len() == 1,
        spec_insert_step(c, k, v).m[0].key == k,
        hist_of(c, spec_draw(c.rng, c.p)).len() < hist_cap_of(c, spec_draw(c.rng, c.p))
            ==> hist_has_key(
            hist_of(spec_insert_step(c, k, v), spec_draw(c.rng, c.p)),
            c.m[0].key,
        ),
{
    lemma_insert_step_inv(c, k, v);
    let c1 = ControllerModel { now: inc_capped(c.now, u64::MAX as int), ..c };
    let pi = spec_draw(c1.rng, c1.p);
    let c1d = ControllerModel { rng: chacha_next_state(c1.rng), ..c1 };
    let fresh = CacheItemModel { key: k, value: v, frequency: 0, last_used: c1.now };
    let res = spec_insert_step(c, k, v);
    assert(res == spec_admit(c1d, fresh, pi));
    lemma_min_metric_index(c1.m, pi);
    let vi = min_metric_index(c1.m, pi);
    assert(vi == 0);
    assert(store_insert_evicted(c1d.m, c1d.m_cap, fresh, pi) == Some(c1.m[0]));
    c1.m.remove_ensures(0);
    assert(res.m == c1.m.remove(0).push(fresh));
    assert(res.m[0] == fresh);
    if hist_of(c, pi).len() < hist_cap_of(c, pi) {
        let h = hist_of(c1d, pi);
        let hcap = hist_cap_of(c1d, pi);
        let h2 = hist_insert(h, hcap, pi, c1.m[0], c1.now);
        assert(h2 == h.push(
            HistoryEntryModel { item: c1.m[0], admitted_at: c1.now },
        ));
        assert(h2[h2.len() - 1].item == c1.m[0]);
        assert(hist_of(res, pi) == h2);
    }
}

/// A history of capacity zero is always empty, so ghost hits from it are
/// impossible and a miss that touches neither the store nor the other
/// history never moves the probability.
pub proof fn lemma_zero_capacity_history(c: ControllerModel, k: Seq<char>)
    requires
        ctrl_inv(c),
    ensures
        c.lfu_cap == 0 ==> c.lfu.len() == 0 && !hist_has_key(c.lfu, k),
        c.lru_cap == 0 ==> c.lru.len() == 0 && !hist_has_key(c.lru, k),
        (!has_key(c.m, k) && !hist_has_key(c.lfu, k) && !hist_has_key(c.lru, k)) ==> spec_get_step(
            c,
            k,
        ).p == c.p && spec_get_step(c, k).rng == c.rng && spec_get_result(c, k) is None,
{
}

/// The capacity of the history serving one policy.
pub open spec fn hist_cap_of(c: ControllerModel, pi: Policy) -> int {
    match pi {
        Policy::LFU => c.lfu_cap,
        Policy::LRU => c.lru_cap,
    }
}

} // verus!

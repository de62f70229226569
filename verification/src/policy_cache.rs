//! A bounded history of entries recently evicted from the main store under
//! one policy, each stamped with the time it was admitted to the history.
//!
//! The history behaves as a min-priority structure over the policy's own
//! metric: when it overflows, the entry the policy would next evict (the
//! minimum, ties broken by insertion order) is discarded. Removal by key is
//! a linear scan, acceptable because histories are small.

use vstd::prelude::*;
use crate::cache_item::{CacheItem, CacheItemModel};
use crate::cache::{metric, min_metric_index, lemma_min_metric_index};
use crate::enums::Policy;

verus! {

/// The mathematical content of one history slot.
pub ghost struct HistoryEntryModel {
    pub item: CacheItemModel,
    pub admitted_at: int,
}

/// The entry models of a history, without their admission stamps.
pub open spec fn hist_models(s: Seq<HistoryEntryModel>) -> Seq<CacheItemModel> {
    Seq::new(s.len(), |i: int| s[i].item)
}

/// Whether some history slot holds key `k`.
pub open spec fn hist_has_key(s: Seq<HistoryEntryModel>, k: Seq<char>) -> bool {
    exists|i: int| 0 <= i < s.len() && s[i].item.key == k
}

/// The index of the slot holding key `k` (unique when keys are distinct).
pub open spec fn hist_key_index(s: Seq<HistoryEntryModel>, k: Seq<char>) -> int {
    choose|i: int| 0 <= i < s.len() && s[i].item.key == k
}

/// No two history slots share a key.
pub open spec fn hist_distinct_keys(s: Seq<HistoryEntryModel>) -> bool {
    forall|i: int, j: int| 0 <= i < j < s.len() ==> s[i].item.key != s[j].item.key
}

/// The index of the first slot minimizing the policy's metric.
pub open spec fn hist_min_index(s: Seq<HistoryEntryModel>, pi: Policy) -> int {
    min_metric_index(hist_models(s), pi)
}

/// A history after its extremum is discarded (no change when empty).
pub open spec fn hist_eject(s: Seq<HistoryEntryModel>, pi: Policy) -> Seq<HistoryEntryModel> {
    if s.len() == 0 {
        s
    } else {
        s.remove(hist_min_index(s, pi))
    }
}

/// A history after an entry is admitted at time `now`: the stamped entry is
/// pushed, and if the history then exceeds its capacity the extremum of the
/// combined set is discarded — so an entry that is itself the most evictable
/// leaves at once. A history of capacity zero stays empty.
pub open spec fn hist_insert(
    s: Seq<HistoryEntryModel>,
    cap: int,
    pi: Policy,
    item: CacheItemModel,
    now: int,
) -> Seq<HistoryEntryModel> {
    if cap <= 0 {
        s
    } else {
        let s1 = s.push(HistoryEntryModel { item, admitted_at: now });
        if s1.len() > cap {
            hist_eject(s1, pi)
        } else {
            s1
        }
    }
}

/// Relies on str's PartialEq: two string slices are equal exactly when
/// their character sequences are.
#[verifier::external_body]
fn str_eq(a: &str, b: &str) -> (r: bool)
    ensures
        r == (a@ == b@),
{
    a == b
}

/// One history slot: an evicted entry and the time it entered the history.
struct HistoryItem {
    item: CacheItem,
    admitted_at: u64,
}

impl View for HistoryItem {
    type V = HistoryEntryModel;

    closed spec fn view(&self) -> HistoryEntryModel {
        HistoryEntryModel { item: self.item@, admitted_at: self.admitted_at as int }
    }
}

/// A bounded ghost history for one policy.
pub struct PolicyCache {
    policy: Policy,
    capacity: usize,
    entries: Vec<HistoryItem>,
}

impl PolicyCache {
    /// The policy whose evictions this history records.
    pub closed spec fn spec_policy(self) -> Policy {
        self.policy
    }

    /// The history's capacity, as a mathematical integer.
    pub closed spec fn cap(self) -> int {
        self.capacity as int
    }

    /// The slots of the history, oldest admission first.
    pub closed spec fn items(self) -> Seq<HistoryEntryModel> {
        Seq::new(self.entries@.len(), |i: int| self.entries@[i]@)
    }

    /// Well-formedness: within capacity, no key repeated.
    pub open spec fn wf(self) -> bool {
        &&& self.items().len() <= self.cap()
        &&& hist_distinct_keys(self.items())
    }

    /// Creates an empty history for the given policy.
    pub fn new(policy: Policy, capacity: usize) -> (r: Self)
        ensures
            r.wf(),
            r.spec_policy() == policy,
            r.cap() == capacity as int,
            r.items() == Seq::<HistoryEntryModel>::empty(),
    {
        let r = Self { policy, capacity, entries: Vec::new() };
        proof {
            assert(r.items() =~= Seq::<HistoryEntryModel>::empty());
        }
        r
    }

    /// The number of slots in use.
    pub fn len(&self) -> (r: usize)
        ensures
            r == self.items().len(),
    {
        self.entries.len()
    }

    /// The history's capacity.
    pub fn capacity(&self) -> (r: usize)
        ensures
            r as int == self.cap(),
    {
        self.capacity
    }

    /// Whether the history is at capacity.
    pub fn full(&self) -> (r: bool)
        ensures
            r == (self.items().len() == self.cap()),
    {
        self.capacity == self.entries.len()
    }

    /// Whether some slot holds the given key.
    pub fn contains(&self, key: &str) -> (r: bool)
        ensures
            r == hist_has_key(self.items(), key@),
    {
        let mut i: usize = 0;
        while i < self.entries.len()
            invariant
                0 <= i <= self.entries@.len(),
                forall|j: int| 0 <= j < i ==> self.items()[j].item.key != key@,
            decreases self.entries@.len() - i,
        {
            if str_eq(self.entries[i].item.key(), key) {
                proof {
                    assert(self.items()[i as int].item.key == key@);
                }
                return true;
            }
            i = i + 1;
        }
        false
    }

    /// Finds the position of the first slot minimizing the policy's metric.
    fn find_min_index(&self) -> (r: usize)
        requires
            self.items().len() > 0,
        ensures
            r as int == hist_min_index(self.items(), self.spec_policy()),
    {
        let ghost s = hist_models(self.items());
        let mut best: usize = 0;
        let mut i: usize = 1;
        proof {
            assert(s.subrange(0, 1).len() == 1);
        }
        while i < self.entries.len()
            invariant
                1 <= i <= self.entries@.len(),
                best < i,
                s == hist_models(self.items()),
                s.len() == self.entries@.len(),
                best as int == min_metric_index(s.subrange(0, i as int), self.spec_policy()),
            decreases self.entries@.len() - i,
        {
            let better = match self.policy {
                Policy::LFU => self.entries[i].item.frequency()
                    < self.entries[best].item.frequency(),
                Policy::LRU => self.entries[i].item.last_used()
                    < self.entries[best].item.last_used(),
            };
            proof {
                let pre = s.subrange(0, i as int);
                let cur = s.subrange(0, i + 1);
                assert(cur.drop_last() =~= pre);
                assert(cur.last() == s[i as int]);
                assert(cur[best as int] == s[best as int]);
                assert(better == (metric(s[i as int], self.spec_policy()) < metric(
                    s[best as int],
                    self.spec_policy(),
                )));
            }
            if better {
                best = i;
            }
            i = i + 1;
        }
        proof {
            assert(s.subrange(0, s.len() as int) =~= s);
        }
        best
    }

    /// Discards the entry the policy would evict next; no-op when empty.
    /// Callable on a history one over capacity, which admission creates
    /// momentarily; the result is always within capacity.
    pub fn eject(&mut self)
        requires
            hist_distinct_keys(old(self).items()),
            old(self).items().len() <= old(self).cap() + 1,
        ensures
            final(self).wf(),
            final(self).spec_policy() == old(self).spec_policy(),
            final(self).cap() == old(self).cap(),
            final(self).items() == hist_eject(old(self).items(), old(self).spec_policy()),
    {
        if self.entries.len() == 0 {
            return ;
        }
        proof {
            lemma_min_metric_index(hist_models(self.items()), self.spec_policy());
        }
        let ghost s0 = self.items();
        let mi = self.find_min_index();
        self.entries.remove(mi);
        proof {
            s0.remove_ensures(hist_min_index(s0, self.spec_policy()));
            assert(self.items() =~= s0.remove(hist_min_index(s0, old(self).spec_policy())));
            assert forall|a: int, b: int| 0 <= a < b < self.items().len() implies self.items()[a].item.key
                != self.items()[b].item.key by {
                let s1 = self.items();
                let mi_ = hist_min_index(s0, old(self).spec_policy());
                assert(s1[a] == (if a < mi_ {
                    s0[a]
                } else {
                    s0[a + 1]
                }));
                assert(s1[b] == (if b < mi_ {
                    s0[b]
                } else {
                    s0[b + 1]
                }));
            }
        }
    }

    /// Admits an entry, stamping it with the admission time: the entry is
    /// pushed, and a history then over capacity discards the extremum of
    /// the combined set. A history of capacity zero takes nothing.
    pub fn insert(&mut self, item: CacheItem, now: u64)
        requires
            old(self).wf(),
            !hist_has_key(old(self).items(), item@.key),
        ensures
            final(self).wf(),
            final(self).spec_policy() == old(self).spec_policy(),
            final(self).cap() == old(self).cap(),
            final(self).items() == hist_insert(
                old(self).items(),
                old(self).cap(),
                old(self).spec_policy(),
                item@,
                now as int,
            ),
    {
        if self.capacity == 0 {
            return ;
        }
        let ghost s0 = self.items();
        self.entries.push(HistoryItem { item, admitted_at: now });
        let ghost s1 = self.items();
        proof {
            assert(s1 =~= s0.push(HistoryEntryModel { item: item@, admitted_at: now as int }));
            assert forall|a: int, b: int| 0 <= a < b < s1.len() implies s1[a].item.key
                != s1[b].item.key by {
                if b < s0.len() {
                } else {
                    assert(s1[b].item.key == item@.key);
                    assert(s1[a] == s0[a]);
                }
            }
        }
        if self.entries.len() > self.capacity {
            self.eject();
        }
    }

    /// Removes and returns the entry holding the given key, with its
    /// admission time, if the key is present.
    pub fn maybe_eject_key(&mut self, key: &str) -> (r: Option<(CacheItem, u64)>)
        requires
            old(self).wf(),
        ensures
            final(self).wf(),
            final(self).spec_policy() == old(self).spec_policy(),
            final(self).cap() == old(self).cap(),
            !hist_has_key(old(self).items(), key@) ==> final(self).items() == old(self).items()
                && r is None,
            hist_has_key(old(self).items(), key@) ==> final(self).items() == old(
                self,
            ).items().remove(hist_key_index(old(self).items(), key@)) && (r matches Some(p)
                && p.0@ == old(self).items()[hist_key_index(old(self).items(), key@)].item
                && p.1 as int == old(self).items()[hist_key_index(
                old(self).items(),
                key@,
            )].admitted_at),
    {
        let ghost s0 = self.items();
        let mut i: usize = 0;
        while i < self.entries.len()
            invariant
                0 <= i <= self.entries@.len(),
                s0 == self.items(),
                s0 == old(self).items(),
                self.spec_policy() == old(self).spec_policy(),
                self.cap() == old(self).cap(),
                self.wf(),
                forall|j: int| 0 <= j < i ==> self.items()[j].item.key != key@,
            decreases self.entries@.len() - i,
        {
            if str_eq(self.entries[i].item.key(), key) {
                proof {
                    assert(s0[i as int].item.key == key@);
                    assert(hist_has_key(s0, key@));
                    let ki = hist_key_index(s0, key@);
                    assert(0 <= ki < s0.len() && s0[ki].item.key == key@);
                    if ki < i {
                        assert(s0[ki].item.key != key@);
                    } else if i < ki {
                        assert(s0[i as int].item.key != s0[ki].item.key);
                    }
                }
                let slot = self.entries.remove(i);
                proof {
                    s0.remove_ensures(i as int);
                    assert(self.items() =~= s0.remove(i as int));
                    assert forall|a: int, b: int| 0 <= a < b < self.items().len() implies self.items()[a].item.key
                        != self.items()[b].item.key by {
                        let s1 = self.items();
                        assert(s1[a] == (if a < i {
                            s0[a]
                        } else {
                            s0[a + 1]
                        }));
                        assert(s1[b] == (if b < i {
                            s0[b]
                        } else {
                            s0[b + 1]
                        }));
                    }
                }
                return Some((slot.item, slot.admitted_at));
            }
            i = i + 1;
        }
        None
    }
}

/// What admission does to a history: the result stays within capacity,
/// keeps its keys distinct, and every slot is either the new entry (stamped
/// `now`) or a slot of the old history.
pub proof fn lemma_hist_insert_props(
    h: Seq<HistoryEntryModel>,
    cap: int,
    pi: Policy,
    item: CacheItemModel,
    now: int,
)
    requires
        hist_distinct_keys(h),
        !hist_has_key(h, item.key),
        h.len() <= cap || cap <= 0,
    ensures
        cap <= 0 ==> hist_insert(h, cap, pi, item, now) == h,
        cap >= 1 ==> hist_insert(h, cap, pi, item, now).len() <= cap,
        hist_distinct_keys(hist_insert(h, cap, pi, item, now)),
        forall|b: int|
            0 <= b < hist_insert(h, cap, pi, item, now).len() ==> (#[trigger] hist_insert(
                h,
                cap,
                pi,
                item,
                now,
            )[b] == (HistoryEntryModel { item, admitted_at: now }) || (exists|b0: int|
                0 <= b0 < h.len() && hist_insert(h, cap, pi, item, now)[b] == h[b0])),
{
    if cap <= 0 {
        assert forall|b: int| 0 <= b < hist_insert(h, cap, pi, item, now).len() implies (
        #[trigger] hist_insert(h, cap, pi, item, now)[b] == (HistoryEntryModel {
            item,
            admitted_at: now,
        }) || (exists|b0: int|
            0 <= b0 < h.len() && hist_insert(h, cap, pi, item, now)[b] == h[b0])) by {
            assert(hist_insert(h, cap, pi, item, now)[b] == h[b]);
        }
    } else {
        let h2 = hist_insert(h, cap, pi, item, now);
        let fresh = HistoryEntryModel { item, admitted_at: now };
        let s1 = h.push(fresh);
        assert forall|a: int, b: int| 0 <= a < b < s1.len() implies s1[a].item.key
            != s1[b].item.key by {
            if b < h.len() {
            } else {
                assert(s1[b] == fresh);
                assert(s1[a] == h[a]);
            }
        }
        if s1.len() > cap {
            let mi = hist_min_index(s1, pi);
            lemma_min_metric_index(hist_models(s1), pi);
            s1.remove_ensures(mi);
            assert(h2 == s1.remove(mi));
            assert forall|b: int| 0 <= b < h2.len() implies (#[trigger] h2[b] == fresh || (
            exists|b0: int| 0 <= b0 < h.len() && h2[b] == h[b0])) by {
                let b1 = if b < mi {
                    b
                } else {
                    b + 1
                };
                assert(h2[b] == s1[b1]);
                if b1 < h.len() {
                    assert(h2[b] == h[b1]);
                } else {
                    assert(h2[b] == fresh);
                }
            }
            assert forall|a: int, b: int| 0 <= a < b < h2.len() implies h2[a].item.key
                != h2[b].item.key by {
                assert(h2[a] == s1[if a < mi {
                    a
                } else {
                    a + 1
                }]);
                assert(h2[b] == s1[if b < mi {
                    b
                } else {
                    b + 1
                }]);
            }
        } else {
            assert(h2 == s1);
            assert forall|b: int| 0 <= b < h2.len() implies (#[trigger] h2[b] == fresh || (
            exists|b0: int| 0 <= b0 < h.len() && h2[b] == h[b0])) by {
                if b < h.len() {
                    assert(h2[b] == h[b]);
                }
            }
        }
    }
}

/// The ghost histories behave as priority queues: discarding the extremum
/// never lowers the extremum metric. Of two successive ejections with no
/// admission between them, the second discards an entry whose metric is at
/// least the first's.
pub proof fn lemma_ghost_extremum_monotone(s: Seq<HistoryEntryModel>, pi: Policy)
    requires
        s.len() >= 2,
    ensures
        metric(s[hist_min_index(s, pi)].item, pi) <= metric(
            hist_eject(s, pi)[hist_min_index(hist_eject(s, pi), pi)].item,
            pi,
        ),
{
    let m1 = hist_min_index(s, pi);
    let s2 = hist_eject(s, pi);
    lemma_min_metric_index(hist_models(s), pi);
    lemma_min_metric_index(hist_models(s2), pi);
    s.remove_ensures(m1);
    let m2 = hist_min_index(s2, pi);
    assert(s2[m2] == (if m2 < m1 {
        s[m2]
    } else {
        s[m2 + 1]
    }));
    let x = if m2 < m1 {
        m2
    } else {
        m2 + 1
    };
    assert(0 <= x < s.len());
    assert(hist_models(s2)[m2] == s2[m2].item);
    assert(hist_models(s)[x] == s[x].item);
    assert(metric(hist_models(s)[m1], pi) <= metric(hist_models(s)[x], pi));
    assert(hist_models(s)[m1] == s[m1].item);
}

} // verus!

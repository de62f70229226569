//! A single cache entry: a key, a value, and the per-entry metadata that the
//! two eviction policies rank entries by.
//!
//! Timestamps are values of the cache's own monotonic clock, a counter that
//! the controller advances once per operation. The frequency counter and the
//! timestamp are updated together and only together, by `touch`.

use vstd::prelude::*;

verus! {

/// The mathematical content of a [`CacheItem`].
pub ghost struct CacheItemModel {
    pub key: Seq<char>,
    pub value: Seq<char>,
    pub frequency: int,
    pub last_used: int,
}

/// `x + 1`, stopped at `max`.
pub open spec fn inc_capped(x: int, max: int) -> int {
    if x < max {
        x + 1
    } else {
        x
    }
}

/// A cache entry. `frequency` counts the touches the entry has received;
/// `last_used` is the clock value of the latest touch (or of creation).
#[derive(Clone)]
pub struct CacheItem {
    frequency: usize,
    last_used: u64,
    key: String,
    value: String,
}

impl View for CacheItem {
    type V = CacheItemModel;

    closed spec fn view(&self) -> CacheItemModel {
        CacheItemModel {
            key: self.key@,
            value: self.value@,
            frequency: self.frequency as int,
            last_used: self.last_used as int,
        }
    }
}

impl CacheItem {
    /// Creates a fresh entry: frequency 0, last used now.
    pub fn new(key: String, value: String, now: u64) -> (r: Self)
        ensures
            r@ == (CacheItemModel {
                key: key@,
                value: value@,
                frequency: 0,
                last_used: now as int,
            }),
    {
        Self { frequency: 0, last_used: now, key, value }
    }

    /// Increments the frequency of the item (stopping at the machine limit)
    /// and moves its last-used time to now.
    pub fn touch(&mut self, now: u64)
        ensures
            final(self)@ == (CacheItemModel {
                frequency: inc_capped(old(self)@.frequency, usize::MAX as int),
                last_used: now as int,
                ..old(self)@
            }),
    {
        if self.frequency < usize::MAX {
            self.frequency = self.frequency + 1;
        }
        self.last_used = now;
    }

    /// Replaces the item's value with the one given, then touches the item.
    pub fn update(&mut self, value: String, now: u64)
        ensures
            final(self)@ == (CacheItemModel {
                key: old(self)@.key,
                value: value@,
                frequency: inc_capped(old(self)@.frequency, usize::MAX as int),
                last_used: now as int,
            }),
    {
        self.value = value;
        self.touch(now);
    }

    /// Every entry's metadata is well-formed: the frequency counter and the
    /// timestamp are non-negative and within the machine's range.
    pub proof fn lemma_metadata_in_range(self)
        ensures
            0 <= self@.frequency <= usize::MAX,
            0 <= self@.last_used <= u64::MAX,
    {
    }

    /// Getter for frequency.
    pub fn frequency(&self) -> (r: usize)
        ensures
            r as int == self@.frequency,
    {
        self.frequency
    }

    /// Getter for last_used.
    pub fn last_used(&self) -> (r: u64)
        ensures
            r as int == self@.last_used,
    {
        self.last_used
    }

    /// Getter for key.
    pub fn key(&self) -> (r: &str)
        ensures
            r@ == self@.key,
    {
        self.key.as_str()
    }

    /// Getter for value.
    pub fn value(&self) -> (r: &str)
        ensures
            r@ == self@.value,
    {
        self.value.as_str()
    }

    /// Getter for value; consumes the item.
    pub fn value_owned(self) -> (r: String)
        ensures
            r@ == self@.value,
    {
        self.value
    }
}

} // verus!

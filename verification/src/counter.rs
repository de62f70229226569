//! Observational counters. They record request and size statistics and take
//! no part in the cache's decisions.

use vstd::prelude::*;

verus! {

/// Request, size, timing and memory counters, flushed and reset together;
/// `size` survives a reset.
pub struct Counter {
    pub size: u64,
    pub num_queries: u64,
    pub hits: u64,
    pub misses: u64,
    pub raw_messsages_size: u64,
    pub compressed_size: u64,
    pub raw_len: u64,
    pub encoded_len: u64,
    pub compression_time: u64,
    pub decompression_time: u64,
    pub updating_time: u64,
    pub memory_size: u64,
}

impl Default for Counter {
    /// All counters start at zero.
    fn default() -> (r: Self)
        ensures
            r.size == 0 && r.num_queries == 0 && r.hits == 0 && r.misses == 0,
            r.raw_messsages_size == 0 && r.compressed_size == 0 && r.raw_len == 0,
            r.encoded_len == 0 && r.compression_time == 0 && r.decompression_time == 0,
            r.updating_time == 0 && r.memory_size == 0,
    {
        Counter {
            size: 0,
            num_queries: 0,
            hits: 0,
            misses: 0,
            raw_messsages_size: 0,
            compressed_size: 0,
            raw_len: 0,
            encoded_len: 0,
            compression_time: 0,
            decompression_time: 0,
            updating_time: 0,
            memory_size: 0,
        }
    }
}

impl Counter {
    /// Whether enough queries have accumulated for a flush to the counter
    /// log: a flush is triggered only at a thousand queries or more.
    pub fn should_flush(&self) -> (r: bool)
        ensures
            r == (self.num_queries >= 1000),
    {
        self.num_queries >= 1000
    }

    /// Clears every counter except `size`.
    pub fn reset(&mut self)
        ensures
            final(self).size == old(self).size,
            final(self).num_queries == 0 && final(self).hits == 0 && final(self).misses == 0,
            final(self).raw_messsages_size == 0 && final(self).compressed_size == 0,
            final(self).raw_len == 0 && final(self).encoded_len == 0,
            final(self).compression_time == 0 && final(self).decompression_time == 0,
            final(self).updating_time == 0 && final(self).memory_size == 0,
    {
        self.num_queries = 0;
        self.hits = 0;
        self.misses = 0;
        self.raw_messsages_size = 0;
        self.compressed_size = 0;
        self.raw_len = 0;
        self.encoded_len = 0;
        self.compression_time = 0;
        self.decompression_time = 0;
        self.updating_time = 0;
        self.memory_size = 0;
    }
}

} // verus!

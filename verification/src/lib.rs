//! An adaptive in-memory key-value cache in the LeCaR style: a bounded main
//! store backed by two competing eviction policies (LFU and LRU), two bounded
//! histories of recently evicted entries, and an online learner that shifts
//! the policy-selection probability whenever a recently evicted key is
//! requested again.
//!
//! - [`cache_item`] holds the entry type and its per-entry metadata;
//! - [`cache`] is the bounded main store with positional indexing and
//!   policy-guided eviction, backed by the ordered map behind [`imap`];
//! - [`policy_cache`] is the bounded ghost history of one policy;
//! - [`learner`] holds the selection probability and its update rule;
//! - [`rng`] wraps the seeded stream the policy selector draws from;
//! - [`controller`] ties the parts together and carries the state invariant;
//! - [`counter`] and [`types`] are the observational counters and the
//!   request payload shape.

pub mod cache;
pub mod cache_item;
pub mod controller;
pub mod counter;
pub mod enums;
pub mod imap;
pub mod learner;
pub mod policy_cache;
pub mod rng;
pub mod types;

//! The two eviction policies the cache arbitrates between, and the access
//! kinds a client can issue.

use vstd::prelude::*;

verus! {

/// An eviction discipline for the main store: evict the least frequently
/// used entry, or the least recently used one.
#[derive(Clone, Copy, PartialEq, Eq, Structural, Debug)]
pub enum Policy {
    LFU,
    LRU,
}

impl Policy {
    /// Maps a drawn boolean to a policy: `true` selects LFU, `false` LRU.
    pub fn from_bool(x: bool) -> (r: Self)
        ensures
            r == (if x {
                Policy::LFU
            } else {
                Policy::LRU
            }),
    {
        match x {
            true => Self::LFU,
            false => Self::LRU,
        }
    }

    /// The policy competing against this one.
    pub fn other(self) -> (r: Self)
        ensures
            r == self.spec_other(),
    {
        match self {
            Self::LFU => Self::LRU,
            Self::LRU => Self::LFU,
        }
    }

    /// The policy competing against this one, at the specification level.
    pub open spec fn spec_other(self) -> Self {
        match self {
            Self::LFU => Self::LRU,
            Self::LRU => Self::LFU,
        }
    }
}

/// How the cache is being accessed.
#[derive(Clone, Copy, PartialEq, Eq, Structural, Debug)]
pub enum AccessMethod {
    READ,
    WRITE,
}

impl AccessMethod {
    /// Maps a drawn boolean to an access kind: `true` selects READ.
    pub fn from_bool(x: bool) -> (r: Self)
        ensures
            r == (if x {
                AccessMethod::READ
            } else {
                AccessMethod::WRITE
            }),
    {
        match x {
            true => Self::READ,
            false => Self::WRITE,
        }
    }
}

} // verus!

//! The payload shape the front-end exchanges with clients: a key and a
//! value, both strings.

use vstd::prelude::*;

verus! {

/// One key-value pair, as carried in a request or a response body.
pub struct LecarData {
    pub key: String,
    pub value: String,
}

} // verus!

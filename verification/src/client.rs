//! What a client remembers about each fellow peer. The connection itself
//! lives with the caller.

use vstd::prelude::*;

verus! {

/// A peer as the client sees it: only a name, once one was stated.
#[derive(Debug)]
pub struct PeerMeta {
    pub name: Option<String>,
}

impl Default for PeerMeta {
    /// A peer that has not stated a name yet.
    fn default() -> (r: Self)
        ensures
            r.name is None,
    {
        PeerMeta { name: None }
    }
}

} // verus!

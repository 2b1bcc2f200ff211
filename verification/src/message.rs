//! The messages the host and its peers exchange, generic in the
//! application's own payload. Serialization and the socket work live with
//! the caller.

use vstd::prelude::*;

verus! {

/// One message of the session protocol: a player joining or leaving, a
/// player stating a name, the host welcoming a new peer with the current
/// player list, or an application payload.
pub enum CommMessage<M> {
    PlayerChange { player_id: u8, joined: bool },
    PlayerNameStatement { player_id: u8, name: String },
    Welcome { players: Vec<(u8, Option<String>)>, client_id: u8 },
    App(M),
}

} // verus!

//! The plain data types of player control: who steers the player, and which
//! movement keys are down. The simulation and input plumbing around them
//! live with the caller.

use vstd::prelude::*;

verus! {

/// Who is in charge of a player's movement.
pub enum PlayerControlType {
    MultiplayerServer,
    MultiplayerClient,
    Singleplayer,
}

/// The movement keys a player currently holds down.
#[derive(Copy, Clone)]
pub struct PlayerInputState {
    pub move_forward: bool,
    pub move_left: bool,
    pub move_right: bool,
    pub move_back: bool,
    pub jump: bool,
}

impl Default for PlayerInputState {
    /// No key held down.
    fn default() -> (r: Self)
        ensures
            !r.move_forward && !r.move_left && !r.move_right && !r.move_back && !r.jump,
    {
        PlayerInputState {
            move_forward: false,
            move_left: false,
            move_right: false,
            move_back: false,
            jump: false,
        }
    }
}

} // verus!

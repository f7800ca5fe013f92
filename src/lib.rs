//! Replicated multiplayer snake: the simulation step run by the leader, the
//! leadership and delivery bookkeeping around it, and the wire codec.
use vstd::prelude::*;

pub mod direction;
pub mod coord;
pub mod snake;
pub mod config;
pub mod player;
pub mod state;
pub mod roles;
pub mod peers;
pub mod node;
pub mod codec;
mod random;

verus! {

} // verus!

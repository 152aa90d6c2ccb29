//! Zappy game server library: world, players, commands and game rules.

use vstd::prelude::*;

pub mod broadcast;
pub mod cli;
pub mod commands;
pub mod eggs;
pub mod harden;
pub mod kick;
pub mod net;
pub mod player;
pub mod ritual;
pub mod sound;
pub mod text;
pub mod time;
pub mod vision;
pub mod win;
pub mod world;

verus! {

} // verus!

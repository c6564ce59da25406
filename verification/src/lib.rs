use vstd::prelude::*;

pub mod audio;
pub mod bsp;
pub mod cell;
pub mod chase;
pub mod config;
pub mod doors;
pub mod edges;
pub mod generate;
pub mod grouping;
pub mod map_gen;
pub mod npc;
pub mod passage;
pub mod room;
pub mod room_gen;
pub mod setup;
pub mod sight;
pub mod state;
pub mod subgoal;
pub mod tile;
pub mod union_find;

verus! {

} // verus!

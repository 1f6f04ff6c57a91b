//! Verified core of a 2D artillery game: exact fixed-point ballistic
//! trajectories with boundary rebound, and a destructible terrain bitmap
//! with procedural column heights, circular excavation and a gravity-driven
//! subsidence simulation.

use vstd::prelude::*;

pub mod ballistics;
pub mod fixed;
pub mod landscape;
pub mod tank;

verus! {

/// Standard gravity, in thousandths of a pixel per second squared.
pub const G_MILLIS: i64 = 9807;

/// The most players a round can hold.
pub const MAX_PLAYERS_COUNT: u8 = 5;

} // verus!

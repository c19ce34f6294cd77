//! Flappy birds that learn to fly, and the dashboards that watch them.
//!
//! * [`game`] and [`player`]: the rules of the game and its birds.
//! * [`plugins`]: what the birds' agents make of a frame, and how all agents
//!   become copies of the best one once their birds are dead.
//! * [`ml`]: what a learning agent remembers, and when it asks its network.
//! * [`dqn_tracker`]: a registry of agents over their lives, and the screen that
//!   shows it.
//! * [`dqn_tracker_main`]: the agents of the training threads, and their
//!   dashboard.
//! * [`scalar`], [`order`], [`text`], [`keys`], [`layout`], [`tree_widget`]: what
//!   these are built on.
//!
//! Windows, terminals, threads, clocks, networks and floating-point arithmetic
//! are not here: the program around this library brings them.

use vstd::prelude::*;

pub mod dqn_tracker;
pub mod dqn_tracker_main;
pub mod game;
pub mod keys;
pub mod layout;
pub mod ml;
pub mod order;
pub mod player;
pub mod plugins;
pub mod scalar;
pub mod text;
pub mod tree_widget;

verus! {

/// How far the replacement of the agents is.
#[derive(Debug, Copy, Clone)]
pub enum ReplacementState<T> {
    /// Nothing is under way.
    Idle,
    /// The agents are being replaced.
    InFlight,
    /// The agents are replaced; what was set aside for then is here.
    Ready(T),
}

} // verus!

//! The learning agents.
//!
//! The networks and their arithmetic live with the caller.  What stands here is
//! what an agent remembers of its episode, when it asks its network for a
//! decision, and which agent belongs to which bird.

pub mod agent_utils;
pub mod model;
pub mod multiagent;
pub mod pruner;

pub use settings::optimizer_epsilon;

mod settings;

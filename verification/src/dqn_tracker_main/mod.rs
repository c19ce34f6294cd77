//! The dashboard of the training threads.

pub mod agents;
pub mod lineage;
pub mod view;

pub use agents::{Agent, AgentRegistry, AgentStatus};

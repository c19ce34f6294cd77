//! Tracking the agents: who they are, who they descend from, how they fare.

pub mod lineage;
pub mod registry;
pub mod view;

pub use registry::{AgentLifecycle, AgentRegistry, EpisodeRecord, RegistryEntry};

//! When an agent counts as failing.
//!
//! A policy whose entropy stays close to zero has collapsed; one whose entropy
//! stays close to its maximum has learned nothing; one whose returns stay low
//! fails whatever its entropy is.

use crate::scalar::{lemma_single_nearest, Single};
use vstd::arithmetic::power2::{lemma2_to64, pow2};
use vstd::prelude::*;

verus! {

/// The settings of the pruning.
#[derive(Clone, Copy, Debug, PartialEq, Eq, Structural)]
pub struct PruningConfig {
    /// Normalised entropy below this: the agent is pathologically deterministic.
    pub entropy_floor: Single,
    /// Normalised entropy above this: the agent never learned to exploit.
    pub entropy_ceiling: Single,
    /// Smoothing of the entropy's moving average.
    pub entropy_alpha: Single,
    /// Averaged return below this: the agent is consistently failing.
    pub score_floor: Single,
    /// Smoothing of the returns' moving average.
    pub score_alpha: Single,
    /// Episodes before an agent is considered at all.
    pub warmup_episodes: u64,
    /// Consecutive violations that it takes.
    pub patience: u32,
    /// Noise on the parent's weights when an agent is replaced.
    pub noise_scale: Single,
}

impl PruningConfig {
    /// The settings in use.
    pub open spec fn usual(self) -> bool {
        &&& self.entropy_floor.nearest(1, 10)
        &&& self.entropy_ceiling.nearest(9, 10)
        &&& self.entropy_alpha.nearest(1, 10)
        &&& self.score_floor.nearest(1, 1)
        &&& self.score_alpha.nearest(1, 20)
        &&& self.warmup_episodes == 30
        &&& self.patience == 10
        &&& self.noise_scale.nearest(1, 100)
    }
}

impl Default for PruningConfig {
    fn default() -> (r: PruningConfig)
        ensures
            r.usual(),
    {
        let r: PruningConfig = PruningConfig {
            entropy_floor: Single { bits: 0x3dcc_cccd },
            entropy_ceiling: Single { bits: 0x3f66_6666 },
            entropy_alpha: Single { bits: 0x3dcc_cccd },
            score_floor: Single { bits: 0x3f80_0000 },
            score_alpha: Single { bits: 0x3d4c_cccd },
            warmup_episodes: 30,
            patience: 10,
            noise_scale: Single { bits: 0x3c23_d70a },
        };
        proof {
            lemma2_to64();
            lemma_single_nearest(r.entropy_floor, 1, 10, 27, pow2(27) as int);
            lemma_single_nearest(r.entropy_ceiling, 9, 10, 24, pow2(24) as int);
            lemma_single_nearest(r.entropy_alpha, 1, 10, 27, pow2(27) as int);
            lemma_single_nearest(r.score_floor, 1, 1, 23, pow2(23) as int);
            lemma_single_nearest(r.score_alpha, 1, 20, 28, pow2(28) as int);
            lemma_single_nearest(r.noise_scale, 1, 100, 30, pow2(30) as int);
        }
        r
    }
}

/// Something whose entropy can be told.
pub trait EntropyTracker {
    fn summarize(&self) -> String;
}

/// Watches over a population of agents.
#[derive(Clone, Copy, Debug, PartialEq, Eq, Structural)]
pub struct PopulationManager {
    pub cfg: PruningConfig,
}

impl PopulationManager {
    pub fn new() -> (r: PopulationManager)
        ensures
            r.cfg.usual(),
    {
        PopulationManager { cfg: PruningConfig::default() }
    }
}

} // verus!

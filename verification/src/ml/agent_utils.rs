//! What an agent knows and remembers.

use crate::scalar::{lemma_double_nearest, lemma_single_nearest, Double, Single};
use vstd::arithmetic::power2::{lemma2_to64, lemma2_to64_rest, pow2};
use vstd::prelude::*;

verus! {

/// One decision of an episode.
#[derive(Clone, Copy, Debug, PartialEq, Eq, Structural)]
pub struct EpisodeStep {
    pub state: GameStateFeatures,
    pub action: Action,
    pub reward: Single,
}

/// Rolling statistics for one agent.
#[derive(Clone, Copy, Debug, PartialEq, Eq, Structural)]
pub struct AgentStats {
    /// Moving average of the normalised policy entropy.
    pub entropy_ema: Single,
    /// How many consecutive episodes entropy has been outside its healthy range.
    pub entropy_violation_streak: u32,
    /// Moving average of the episodes' returns.
    pub score_ema: Single,
    /// How many consecutive episodes the score has been below its floor.
    pub score_violation_streak: u32,
    /// Episodes recorded.
    pub episodes: u64,
    pub entropy_sum: Single,
    pub total_score: Single,
    pub total_episodes: u64,
}

impl AgentStats {
    /// Statistics of an agent that has not played; its entropy counts as the
    /// highest there is, which is 1.
    pub open spec fn unplayed(total_episodes: u64) -> AgentStats {
        AgentStats {
            entropy_ema: Single { bits: 0x3f80_0000 },
            entropy_violation_streak: 0,
            score_ema: Single { bits: 0 },
            score_violation_streak: 0,
            episodes: 0,
            entropy_sum: Single { bits: 0 },
            total_score: Single { bits: 0 },
            total_episodes,
        }
    }

    pub fn new(total_episodes: Option<u64>) -> (r: AgentStats)
        ensures
            r == AgentStats::unplayed(
                match total_episodes {
                    Some(n) => n,
                    None => 0,
                },
            ),
            r.entropy_ema.nearest(1, 1),
            r.total_score.nearest(0, 1),
    {
        let entropy_ema: Single = Single { bits: 0x3f80_0000 };
        let zero: Single = Single { bits: 0 };
        proof {
            lemma2_to64();
            lemma_single_nearest(entropy_ema, 1, 1, 23, pow2(23) as int);
        }
        AgentStats {
            entropy_ema,
            entropy_violation_streak: 0,
            score_ema: zero,
            score_violation_streak: 0,
            episodes: 0,
            entropy_sum: zero,
            total_score: zero,
            total_episodes: match total_episodes {
                Some(n) => n,
                None => 0,
            },
        }
    }
}

/// What a bird sees.
#[derive(Clone, Copy, Debug, PartialEq, Eq, Structural)]
pub struct GameStateFeatures {
    pub bird_y: Single,
    pub bird_speed: Single,
    pub next_pipe_top_y: Single,
    pub next_pipe_bottom_y: Single,
    pub remaining_bot_x: Single,
    pub remaining_top_x: Single,
    pub second_top_y: Single,
    pub second_bot_y: Single,
}

impl GameStateFeatures {
    /// The features in the order in which a network takes them.
    pub open spec fn listed(self) -> Seq<Single> {
        seq![
            self.bird_y,
            self.bird_speed,
            self.next_pipe_top_y,
            self.next_pipe_bottom_y,
            self.second_bot_y,
            self.second_top_y,
            self.remaining_bot_x,
            self.remaining_top_x,
        ]
    }

    /// The features in the order in which a network takes them.
    pub fn to_array(&self) -> (r: [Single; 8])
        ensures
            r@ == self.listed(),
    {
        [
            self.bird_y,
            self.bird_speed,
            self.next_pipe_top_y,
            self.next_pipe_bottom_y,
            self.second_bot_y,
            self.second_top_y,
            self.remaining_bot_x,
            self.remaining_top_x,
        ]
    }
}

impl Default for GameStateFeatures {
    /// All zero.
    fn default() -> (r: GameStateFeatures)
        ensures
            forall|k: int| 0 <= k < 8 ==> (#[trigger] r.listed()[k]).nearest(0, 1),
    {
        let zero: Single = Single { bits: 0 };
        GameStateFeatures {
            bird_y: zero,
            bird_speed: zero,
            next_pipe_top_y: zero,
            next_pipe_bottom_y: zero,
            remaining_bot_x: zero,
            remaining_top_x: zero,
            second_top_y: zero,
            second_bot_y: zero,
        }
    }
}

/// What a bird does.
#[derive(Clone, Copy, Debug, PartialEq, Eq, Structural)]
pub enum Action {
    DoNothing,
    Jump,
}

impl Action {
    /// The network's output that stands for the action.
    pub open spec fn code(self) -> int {
        match self {
            Action::DoNothing => 0,
            Action::Jump => 1,
        }
    }

    /// The network's output that stands for the action.
    pub fn index(&self) -> (r: i64)
        ensures
            r == self.code(),
    {
        match self {
            Action::DoNothing => 0,
            Action::Jump => 1,
        }
    }
}

/// What is gained and lost in a frame.
#[derive(Clone, Copy, Debug, PartialEq, Eq, Structural)]
pub struct RewardPrizes {
    pub dying: Single,
    pub pipe_cleared: Single,
    pub alive: Single,
    pub pipe_death: Single,
    pub jump_cost: Single,
}

impl Default for RewardPrizes {
    /// The prizes that the birds play for.
    fn default() -> (r: RewardPrizes)
        ensures
            r.dying.nearest(-10, 1),
            r.pipe_death.nearest(-1, 1),
            r.pipe_cleared.nearest(30, 1),
            r.alive.nearest(1, 1),
            r.jump_cost.nearest(0, 1),
    {
        let r: RewardPrizes = RewardPrizes {
            dying: Single { bits: 0xc120_0000 },
            pipe_cleared: Single { bits: 0x41f0_0000 },
            alive: Single { bits: 0x3f80_0000 },
            pipe_death: Single { bits: 0xbf80_0000 },
            jump_cost: Single { bits: 0 },
        };
        proof {
            lemma2_to64();
            lemma_single_nearest(r.dying, -10, 1, 20, pow2(20) as int);
            lemma_single_nearest(r.pipe_cleared, 30, 1, 19, pow2(19) as int);
            lemma_single_nearest(r.alive, 1, 1, 23, pow2(23) as int);
            lemma_single_nearest(r.pipe_death, -1, 1, 23, pow2(23) as int);
        }
        r
    }
}

/// An agent's place in the game.
#[derive(Debug)]
pub struct AgentState {
    pub is_dead: bool,
    pub current_gamestate: Option<GameStateFeatures>,
    pub episode: Vec<EpisodeStep>,
    pub score: u32,
}

/// What an [`AgentState`] holds.
#[verifier::ext_equal]
pub struct StateView {
    pub is_dead: bool,
    pub current_gamestate: Option<GameStateFeatures>,
    pub episode: Seq<EpisodeStep>,
    pub score: u32,
}

impl View for AgentState {
    type V = StateView;

    open spec fn view(&self) -> StateView {
        StateView {
            is_dead: self.is_dead,
            current_gamestate: self.current_gamestate,
            episode: self.episode@,
            score: self.score,
        }
    }
}

impl StateView {
    /// Nothing seen, nothing done.
    pub open spec fn fresh() -> StateView {
        StateView {
            is_dead: false,
            current_gamestate: None,
            episode: Seq::empty(),
            score: 0,
        }
    }
}

impl AgentState {
    pub fn new() -> (r: AgentState)
        ensures
            r@ == StateView::fresh(),
    {
        AgentState { is_dead: false, current_gamestate: None, episode: Vec::new(), score: 0 }
    }

    /// Takes what the agent sees; it sees nothing afterwards.
    pub fn get_state_features(&mut self) -> (r: GameStateFeatures)
        requires
            old(self).current_gamestate is Some,
        ensures
            Some(r) == old(self)@.current_gamestate,
            final(self)@ == (StateView { current_gamestate: None, ..old(self)@ }),
    {
        self.current_gamestate.take().unwrap()
    }

    pub fn set_state_features(&mut self, state: Option<GameStateFeatures>)
        ensures
            final(self)@ == (StateView { current_gamestate: state, ..old(self)@ }),
    {
        self.current_gamestate = state;
    }
}

/// How an agent learns.  The discount factor says how much a reward counts that
/// comes one step later.
#[derive(Clone, Copy, Debug, PartialEq, Eq, Structural)]
pub struct AgentDefault {
    pub gamma: Single,
    pub learning_rate: Double,
}

impl Default for AgentDefault {
    fn default() -> (r: AgentDefault)
        ensures
            r.gamma.nearest(95, 100),
            r.learning_rate.nearest(5, 1000),
    {
        let r: AgentDefault = AgentDefault {
            gamma: Single { bits: 0x3f73_3333 },
            learning_rate: Double { bits: 0x3f74_7ae1_47ae_147b },
        };
        proof {
            lemma2_to64();
            lemma2_to64_rest();
            lemma_single_nearest(r.gamma, 95, 100, 24, pow2(24) as int);
            lemma_double_nearest(r.learning_rate, 5, 1000, 60, pow2(60) as int);
        }
        r
    }
}

} // verus!

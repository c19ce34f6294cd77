//! Which agent belongs to which bird.
//!
//! A network may answer long after it was asked.  Its question has a number of
//! its own, by which the answer finds the agent that asked, and no other one that
//! was given to the bird since.

use crate::ml::agent_utils::{Action, GameStateFeatures};
use crate::ml::model::{FlappyGradientAgent, GradientView};
use crate::scalar::Single;
use std::collections::HashMap;
use vstd::prelude::*;

verus! {

broadcast use vstd::std_specs::hash::group_hash_axioms;

/// The agents, by the number of their bird.
#[derive(Debug)]
pub struct AgentManager {
    pub inner: HashMap<u32, FlappyGradientAgent>,
    /// The number of each agent's open question, if it has one.
    pub questions: HashMap<u32, u64>,
    /// How many questions were asked.
    pub asked: u64,
}

/// What an [`AgentManager`] holds.
#[verifier::ext_equal]
pub struct ManagerView {
    pub agents: Map<u32, GradientView>,
    pub questions: Map<u32, u64>,
    pub asked: u64,
}

impl View for AgentManager {
    type V = ManagerView;

    open spec fn view(&self) -> ManagerView {
        ManagerView {
            agents: self.inner@.map_values(|a: FlappyGradientAgent| a@),
            questions: self.questions@,
            asked: self.asked,
        }
    }
}

/// What a draw makes of the probability of a jump.
pub open spec fn drawn(draw: Single, p_jump: Single) -> Action {
    if draw.below(p_jump) {
        Action::Jump
    } else {
        Action::DoNothing
    }
}

impl ManagerView {
    /// Every agent that waits for an answer has a question of its own number, and
    /// no other agent has one.
    pub open spec fn wf(self) -> bool {
        &&& forall|key: u32| #[trigger]
            self.questions.contains_key(key) <==> self.agents.contains_key(key)
                && self.agents[key].action_inflight
        &&& forall|key: u32| #[trigger]
            self.questions.contains_key(key) ==> self.questions[key] < self.asked
        &&& forall|a: u32, b: u32|
            a != b && #[trigger] self.questions.contains_key(a)
                && #[trigger] self.questions.contains_key(b) ==> self.questions[a]
                != self.questions[b]
    }

    /// The agent that thinks for a bird: its own, or a new one.
    pub open spec fn thinker(self, key: u32) -> GradientView {
        if self.agents.contains_key(key) {
            self.agents[key]
        } else {
            GradientView::newborn()
        }
    }

    /// The bird's agent has this question open.
    pub open spec fn awaits(self, key: u32, number: u64) -> bool {
        &&& self.agents.contains_key(key)
        &&& self.questions.contains_key(key)
        &&& self.questions[key] == number
    }

    pub open spec fn bound(self, key: u32, state: GameStateFeatures) -> ManagerView {
        ManagerView { agents: self.agents.insert(key, self.thinker(key).seeing(state)), ..self }
    }

    pub open spec fn unbound(self, key: u32) -> ManagerView {
        ManagerView {
            agents: self.agents.remove(key),
            questions: self.questions.remove(key),
            ..self
        }
    }

    pub open spec fn recorded(
        self,
        key: u32,
        action: Action,
        reward: Single,
        total: Single,
    ) -> ManagerView {
        ManagerView {
            agents: self.agents.insert(key, self.agents[key].stepped(action, reward, total)),
            ..self
        }
    }

    /// An answer reaches the agent that asked, if it is still there.
    pub open spec fn answered(self, key: u32, number: u64, action: Action) -> ManagerView {
        if self.awaits(key, number) {
            ManagerView {
                agents: self.agents.insert(key, self.agents[key].answered(action)),
                questions: self.questions.remove(key),
                ..self
            }
        } else {
            self
        }
    }
}

impl AgentManager {
    pub fn new() -> (r: AgentManager)
        ensures
            r@.agents == Map::<u32, GradientView>::empty(),
            r@.questions == Map::<u32, u64>::empty(),
            r@.asked == 0,
            r@.wf(),
    {
        let r: AgentManager = AgentManager {
            inner: HashMap::new(),
            questions: HashMap::new(),
            asked: 0,
        };
        proof {
            assert(r@.agents =~= Map::<u32, GradientView>::empty());
        }
        r
    }

    /// Hands out the bird's agent, a new one if it has none, and says whether it
    /// is new.  [`AgentManager::check_in`] takes it back.
    pub(crate) fn check_out(&mut self, key: u32) -> (r: (FlappyGradientAgent, bool))
        ensures
            r.1 == !old(self)@.agents.contains_key(key),
            r.0@ == old(self)@.thinker(key),
            final(self)@ == (ManagerView { agents: old(self)@.agents.remove(key), ..old(self)@ }),
    {
        let held: Option<FlappyGradientAgent> = self.inner.remove(&key);
        proof {
            assert(self@.agents =~= old(self)@.agents.remove(key));
        }
        match held {
            Some(agent) => (agent, false),
            None => (FlappyGradientAgent::new(), true),
        }
    }

    pub(crate) fn check_in(&mut self, key: u32, agent: FlappyGradientAgent)
        ensures
            final(self)@ == (ManagerView {
                agents: old(self)@.agents.insert(key, agent@),
                ..old(self)@
            }),
    {
        self.inner.insert(key, agent);
        proof {
            assert(self@.agents =~= old(self)@.agents.insert(key, agent@));
        }
    }

    /// The number of a new question of the bird's agent.
    pub(crate) fn open_question(&mut self, key: u32) -> (number: u64)
        requires
            old(self)@.asked < u64::MAX,
        ensures
            number == old(self)@.asked,
            final(self)@ == (ManagerView {
                questions: old(self)@.questions.insert(key, number),
                asked: (number + 1) as u64,
                ..old(self)@
            }),
    {
        let number: u64 = self.asked;
        self.questions.insert(key, number);
        self.asked = number + 1;
        number
    }

    /// Shows the bird's agent what the bird sees.  A bird without an agent is
    /// given a new one; says whether it was.
    pub fn bind_agent(&mut self, key: u32, game_state: GameStateFeatures) -> (created: bool)
        ensures
            created == !old(self)@.agents.contains_key(key),
            final(self)@ == old(self)@.bound(key, game_state),
    {
        let (agent, created): (FlappyGradientAgent, bool) = self.check_out(key);
        let mut agent: FlappyGradientAgent = agent;
        agent.state.set_state_features(Some(game_state));
        proof {
            assert(agent@ =~= old(self)@.thinker(key).seeing(game_state));
        }
        self.check_in(key, agent);
        proof {
            assert(self@ =~= old(self)@.bound(key, game_state));
        }
        created
    }

    /// Takes the bird's agent away; answers to its question are lost.
    pub fn unbind_agent(&mut self, key: u32)
        ensures
            final(self)@ == old(self)@.unbound(key),
    {
        self.inner.remove(&key);
        self.questions.remove(&key);
        proof {
            assert(self@ =~= old(self)@.unbound(key));
        }
    }

    /// Lets the bird's agent remember a step.
    pub fn record_step(&mut self, key: u32, action: Action, reward: Single, total: Single)
        requires
            old(self)@.agents.contains_key(key),
            old(self)@.agents[key].state.current_gamestate is Some,
        ensures
            final(self)@ == old(self)@.recorded(key, action, reward, total),
    {
        let (agent, _): (FlappyGradientAgent, bool) = self.check_out(key);
        let mut agent: FlappyGradientAgent = agent;
        agent.record_step(action, reward, total);
        self.check_in(key, agent);
        proof {
            assert(self@ =~= old(self)@.recorded(key, action, reward, total));
        }
    }

    /// Hands the network's answer to a question to the agent that asked it, if
    /// the bird still has that agent.
    pub fn complete_inference(&mut self, key: u32, number: u64, draw: Single, p_jump: Single)
        ensures
            final(self)@ == old(self)@.answered(key, number, drawn(draw, p_jump)),
            old(self)@.awaits(key, number) ==> {
                let answer = final(self)@.agents[key].pending_action;
                &&& draw.below(p_jump) ==> answer == Some(Action::Jump)
                &&& !draw.below(p_jump) ==> answer == Some(Action::DoNothing)
            },
            !old(self)@.awaits(key, number) ==> final(self)@ == old(self)@,
    {
        let awaited: bool = match self.questions.get(&key) {
            Some(open) => *open == number,
            None => false,
        };
        if awaited && self.inner.contains_key(&key) {
            let (agent, _): (FlappyGradientAgent, bool) = self.check_out(key);
            let mut agent: FlappyGradientAgent = agent;
            agent.complete_inference(draw, p_jump);
            self.check_in(key, agent);
            self.questions.remove(&key);
            proof {
                assert(self@ =~= old(self)@.answered(key, number, drawn(draw, p_jump)));
            }
        }
    }
}

/// An answer is a jump exactly where the draw is below the probability of one.  It
/// reaches the agent that has this very question open, closes it, and leaves the
/// agent otherwise as it was; no other agent and no other question is touched.
pub proof fn law_an_answer_is_what_was_drawn(
    before: ManagerView,
    key: u32,
    number: u64,
    draw: Single,
    p_jump: Single,
    other: u32,
)
    ensures
        ({
            let after = before.answered(key, number, drawn(draw, p_jump));
            let asking = before.agents.contains_key(key) && before.questions.contains_key(key)
                && before.questions[key] == number;
            &&& after.agents.dom() == before.agents.dom()
            &&& after.asked == before.asked
            &&& asking ==> {
                &&& after.agents[key].pending_action is Some
                &&& after.agents[key].pending_action == Some(Action::Jump) <==> draw.below(p_jump)
                &&& !after.agents[key].action_inflight
                &&& !after.questions.contains_key(key)
                &&& after.agents[key].last_action == before.agents[key].last_action
                &&& after.agents[key].state == before.agents[key].state
                &&& after.agents[key].stats == before.agents[key].stats
            }
            &&& !asking ==> after == before
            &&& other != key ==> {
                &&& after.agents[other] == before.agents[other]
                &&& after.questions.contains_key(other) == before.questions.contains_key(other)
                &&& after.questions[other] == before.questions[other]
            }
        }),
{
    let after = before.answered(key, number, drawn(draw, p_jump));
    assert(after.agents.dom() =~= before.agents.dom());
}

/// Where a bird's agent is not there to act, a new one does: it knows nothing, has
/// asked nothing and does nothing.
pub proof fn law_new_agents_know_nothing(before: ManagerView, key: u32)
    ensures
        before.agents.contains_key(key) ==> before.thinker(key) == before.agents[key],
        !before.agents.contains_key(key) ==> {
            let agent = before.thinker(key);
            &&& agent.state.episode.len() == 0
            &&& agent.state.current_gamestate is None
            &&& agent.state.score == 0
            &&& !agent.state.is_dead
            &&& agent.pending_action is None
            &&& agent.last_action == Action::DoNothing
            &&& !agent.action_inflight
            &&& agent.stats.episodes == 0
            &&& agent.stats.total_episodes == 0
            &&& agent.stats.entropy_violation_streak == 0
            &&& agent.stats.score_violation_streak == 0
            &&& agent.stats.entropy_ema.bits == 0x3f80_0000
            &&& agent.stats.score_ema.bits == 0
            &&& agent.stats.entropy_sum.bits == 0
            &&& agent.stats.total_score.bits == 0
        },
{
}

/// To show a bird's agent something, to take it away and to let it remember a step
/// are matters of that agent alone.
pub proof fn law_agents_are_kept_apart(
    before: ManagerView,
    key: u32,
    other: u32,
    state: GameStateFeatures,
    action: Action,
    reward: Single,
    total: Single,
)
    requires
        other != key,
    ensures
        forall|after: ManagerView|
            after == before.bound(key, state) || after == before.unbound(key) || after
                == before.recorded(key, action, reward, total) ==> {
                &&& #[trigger] after.agents.contains_key(other) == before.agents.contains_key(other)
                &&& after.agents[other] == before.agents[other]
                &&& after.questions.contains_key(other) == before.questions.contains_key(other)
                &&& after.questions[other] == before.questions[other]
                &&& after.asked == before.asked
            },
{
}

/// A bird that was shown something has an agent that looks at it; one whose agent
/// was taken away has none, and no question; and a step that was remembered is the
/// last of the episode.
pub proof fn law_what_becomes_of_an_agent(
    before: ManagerView,
    key: u32,
    state: GameStateFeatures,
    action: Action,
    reward: Single,
    total: Single,
)
    ensures
        ({
            let shown = before.bound(key, state);
            &&& shown.agents.contains_key(key)
            &&& shown.agents[key].state.current_gamestate == Some(state)
            &&& shown.agents[key].state.episode == before.thinker(key).state.episode
            &&& shown.agents[key].state.score == before.thinker(key).state.score
            &&& shown.agents[key].state.is_dead == before.thinker(key).state.is_dead
            &&& shown.agents[key].stats == before.thinker(key).stats
            &&& shown.agents[key].pending_action == before.thinker(key).pending_action
            &&& shown.agents[key].action_inflight == before.thinker(key).action_inflight
            &&& shown.agents[key].last_action == before.thinker(key).last_action
            &&& shown.questions == before.questions
        }),
        ({
            let bare = before.unbound(key);
            !bare.agents.contains_key(key) && !bare.questions.contains_key(key)
        }),
        before.agents.contains_key(key) ==> {
            let wiser = before.recorded(key, action, reward, total);
            let steps = wiser.agents[key].state.episode;
            &&& wiser.agents.contains_key(key)
            &&& wiser.questions == before.questions
            &&& steps.len() == before.agents[key].state.episode.len() + 1
            &&& steps.drop_last() == before.agents[key].state.episode
            &&& steps.last().action == action
            &&& steps.last().reward == reward
            &&& before.agents[key].state.current_gamestate == Some(steps.last().state)
                || before.agents[key].state.current_gamestate is None
            &&& wiser.agents[key].stats.total_score == total
        },
{
    let wiser = before.recorded(key, action, reward, total);
    if before.agents.contains_key(key) {
        assert(wiser.agents[key].state.episode.drop_last() =~= before.agents[key].state.episode);
    }
}

} // verus!

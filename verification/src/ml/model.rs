//! An agent that learns by policy gradients.
//!
//! A network's answer takes longer than a frame.  So an agent never waits for
//! one: it acts on the latest answer that has come, and asks again only when the
//! answer to its last question is in.

use crate::ml::agent_utils::{
    Action, AgentState, AgentStats, EpisodeStep, GameStateFeatures, StateView,
};
use crate::scalar::Single;
use vstd::prelude::*;

verus! {

/// An agent, but for its network.
#[derive(Debug)]
pub struct FlappyGradientAgent {
    pub state: AgentState,
    pub stats: AgentStats,
    /// An answer of the network that was not acted on yet.
    pub pending_action: Option<Action>,
    /// A question is with the network.
    pub action_inflight: bool,
    /// The latest answer that was acted on.
    pub last_action: Action,
}

/// What a [`FlappyGradientAgent`] holds.
#[verifier::ext_equal]
pub struct GradientView {
    pub state: StateView,
    pub stats: AgentStats,
    pub pending_action: Option<Action>,
    pub action_inflight: bool,
    pub last_action: Action,
}

/// What a policy update starts from.
#[derive(Debug)]
pub struct PolicyBatch {
    pub steps: usize,
    /// The features of all steps, one step after the other.
    pub states: Vec<Single>,
    pub actions: Vec<i64>,
    /// For each step and each action, one if the action was taken, else zero.
    pub mask: Vec<Single>,
    pub rewards: Vec<Single>,
}

impl View for FlappyGradientAgent {
    type V = GradientView;

    open spec fn view(&self) -> GradientView {
        GradientView {
            state: self.state@,
            stats: self.stats,
            pending_action: self.pending_action,
            action_inflight: self.action_inflight,
            last_action: self.last_action,
        }
    }
}

/// A step's place in the mask: one for the action taken.
pub open spec fn mask_at(action: Action, column: int) -> Single {
    if column == action.code() {
        Single { bits: 0x3f80_0000 }
    } else {
        Single { bits: 0 }
    }
}

impl GradientView {
    /// An agent as it is made.
    pub open spec fn newborn() -> GradientView {
        GradientView {
            state: StateView::fresh(),
            stats: AgentStats::unplayed(0),
            pending_action: None,
            action_inflight: false,
            last_action: Action::DoNothing,
        }
    }

    /// The action that the agent takes next.
    pub open spec fn choice(self) -> Action {
        match self.pending_action {
            Some(action) => action,
            None => self.last_action,
        }
    }

    /// The agent after it chose an action.
    pub open spec fn asked(self) -> GradientView {
        GradientView {
            pending_action: None,
            action_inflight: true,
            last_action: self.choice(),
            ..self
        }
    }

    /// The agent after its network answered.
    pub open spec fn answered(self, action: Action) -> GradientView {
        GradientView { pending_action: Some(action), action_inflight: false, ..self }
    }

    /// The agent with a game state to look at.
    pub open spec fn seeing(self, state: GameStateFeatures) -> GradientView {
        GradientView {
            state: StateView { current_gamestate: Some(state), ..self.state },
            ..self
        }
    }

    /// The agent after a step.
    pub open spec fn stepped(self, action: Action, reward: Single, total: Single) -> GradientView {
        GradientView {
            state: StateView {
                current_gamestate: None,
                episode: self.state.episode.push(
                    EpisodeStep { state: self.state.current_gamestate->0, action, reward },
                ),
                ..self.state
            },
            stats: AgentStats { total_score: total, ..self.stats },
            ..self
        }
    }

    /// The agent after it learned from its episode.
    pub open spec fn learned(self) -> GradientView {
        GradientView { state: StateView { episode: Seq::empty(), ..self.state }, ..self }
    }
}

impl FlappyGradientAgent {
    pub fn new() -> (r: FlappyGradientAgent)
        ensures
            r@ == GradientView::newborn(),
    {
        FlappyGradientAgent {
            state: AgentState::new(),
            stats: AgentStats::new(None),
            pending_action: None,
            action_inflight: false,
            last_action: Action::DoNothing,
        }
    }

    /// The action to take now, and the features to ask the network about if a
    /// question is due.
    pub fn select_action(&mut self) -> (r: (Action, Option<[Single; 8]>))
        requires
            !old(self).action_inflight ==> old(self).state.current_gamestate is Some,
        ensures
            r.0 == old(self)@.choice(),
            r.1 is Some <==> !old(self).action_inflight,
            r.1 matches Some(input) ==> input@ == old(self)@.state.current_gamestate->0.listed(),
            final(self)@ == old(self)@.asked(),
    {
        match self.pending_action.take() {
            Some(action) => {
                self.last_action = action;
            },
            None => {},
        }
        let mut question: Option<[Single; 8]> = None;
        if !self.action_inflight {
            self.action_inflight = true;
            match &self.state.current_gamestate {
                Some(state) => {
                    question = Some(state.to_array());
                },
                None => {},
            }
        }
        (self.last_action, question)
    }

    /// Takes the network's answer, the probability of a jump; `draw` is a random
    /// number between zero and one.
    pub fn complete_inference(&mut self, draw: Single, p_jump: Single)
        ensures
            final(self)@ == old(self)@.answered(
                if draw.below(p_jump) {
                    Action::Jump
                } else {
                    Action::DoNothing
                },
            ),
            final(self).pending_action == Some(Action::Jump) <==> draw.below(p_jump),
            final(self).pending_action is Some,
            !final(self).action_inflight,
    {
        let action: Action = if draw.is_below(&p_jump) {
            Action::Jump
        } else {
            Action::DoNothing
        };
        self.pending_action = Some(action);
        self.action_inflight = false;
    }

    /// Remembers a step.  `total` is the agent's score with the reward added; the
    /// addition is the caller's.
    pub fn record_step(&mut self, action: Action, reward: Single, total: Single)
        requires
            old(self).state.current_gamestate is Some,
        ensures
            final(self)@ == old(self)@.stepped(action, reward, total),
    {
        let state: GameStateFeatures = self.state.get_state_features();
        self.state.episode.push(EpisodeStep { state, action, reward });
        self.stats.total_score = total;
        proof {
            assert(self@ =~= old(self)@.stepped(action, reward, total));
        }
    }

    /// The episode as a policy update takes it; nothing to do if it is empty.
    pub fn policy_batch(&self) -> (r: Option<PolicyBatch>)
        ensures
            r is Some <==> self@.state.episode.len() > 0,
            r matches Some(batch) ==> {
                let episode = self@.state.episode;
                &&& batch.steps == episode.len()
                &&& batch.states@ == Seq::new(
                    episode.len() * 8,
                    |k: int| episode[k / 8].state.listed()[k % 8],
                )
                &&& batch.actions@ == episode.map_values(|s: EpisodeStep| s.action.code() as i64)
                &&& batch.mask@ == Seq::new(
                    episode.len() * 2,
                    |k: int| mask_at(episode[k / 2].action, k % 2),
                )
                &&& batch.rewards@ == episode.map_values(|s: EpisodeStep| s.reward)
            },
    {
        let episode: &Vec<EpisodeStep> = &self.state.episode;
        let n: usize = episode.len();
        if n == 0 {
            return None;
        }
        let mut states: Vec<Single> = Vec::new();
        let mut actions: Vec<i64> = Vec::new();
        let mut mask: Vec<Single> = Vec::new();
        let mut rewards: Vec<Single> = Vec::new();
        let mut i: usize = 0;
        while i < n
            invariant
                i <= n,
                n == episode@.len(),
                states@.len() == i * 8,
                forall|k: int|
                    0 <= k < i * 8 ==> #[trigger] states@[k] == episode@[k / 8].state.listed()[k
                        % 8],
                actions@ =~= episode@.take(i as int).map_values(
                    |s: EpisodeStep| s.action.code() as i64,
                ),
                mask@.len() == i * 2,
                forall|k: int|
                    0 <= k < i * 2 ==> #[trigger] mask@[k] == mask_at(
                        episode@[k / 2].action,
                        k % 2,
                    ),
                rewards@ =~= episode@.take(i as int).map_values(|s: EpisodeStep| s.reward),
            decreases n - i,
        {
            let step: EpisodeStep = episode[i];
            let row: [Single; 8] = step.state.to_array();
            let mut j: usize = 0;
            while j < 8
                invariant
                    j <= 8,
                    i < episode@.len(),
                    row@ == episode@[i as int].state.listed(),
                    states@.len() == i * 8 + j,
                    forall|k: int|
                        0 <= k < i * 8 + j ==> #[trigger] states@[k]
                            == episode@[k / 8].state.listed()[k % 8],
                decreases 8 - j,
            {
                proof {
                    assert((i * 8 + j) / 8 == i && (i * 8 + j) % 8 == j);
                }
                states.push(row[j]);
                j = j + 1;
            }
            let code: i64 = step.action.index();
            actions.push(code);
            let mut c: i64 = 0;
            while c < 2
                invariant
                    0 <= c <= 2,
                    i < episode@.len(),
                    code == episode@[i as int].action.code(),
                    mask@.len() == i * 2 + c,
                    forall|k: int|
                        0 <= k < i * 2 + c ==> #[trigger] mask@[k] == mask_at(
                            episode@[k / 2].action,
                            k % 2,
                        ),
                decreases 2 - c,
            {
                proof {
                    assert((i * 2 + c) / 2 == i && (i * 2 + c) % 2 == c);
                }
                if c == code {
                    mask.push(Single { bits: 0x3f80_0000 });
                } else {
                    mask.push(Single { bits: 0 });
                }
                c = c + 1;
            }
            rewards.push(step.reward);
            i = i + 1;
        }
        proof {
            assert(episode@.take(n as int) =~= episode@);
        }
        Some(PolicyBatch { steps: n, states, actions, mask, rewards })
    }

    /// Forgets the episode, once it was learned from.
    pub fn clear_episode(&mut self)
        ensures
            final(self)@ == old(self)@.learned(),
    {
        self.state.episode.clear();
        proof {
            assert(self@ =~= old(self)@.learned());
        }
    }
}

/// What happens to an agent.
pub enum AgentEvent {
    /// It chooses an action.
    Choose,
    /// Its network answers.
    Answer(Action),
    /// It is shown a game state.
    See(GameStateFeatures),
    /// It remembers a step.
    Record(Action, Single, Single),
    /// It has learned from the episode.
    Learn,
}

/// An agent after a series of events.
pub open spec fn after(agent: GradientView, events: Seq<AgentEvent>) -> GradientView
    decreases events.len(),
{
    if events.len() == 0 {
        agent
    } else {
        let before = after(agent, events.drop_last());
        match events.last() {
            AgentEvent::Choose => before.asked(),
            AgentEvent::Answer(action) => before.answered(action),
            AgentEvent::See(state) => before.seeing(state),
            AgentEvent::Record(action, reward, total) => before.stepped(action, reward, total),
            AgentEvent::Learn => before.learned(),
        }
    }
}

/// The network answers only what it was asked.
pub open spec fn orderly(agent: GradientView, events: Seq<AgentEvent>) -> bool
    decreases events.len(),
{
    events.len() == 0 || {
        &&& orderly(agent, events.drop_last())
        &&& events.last() is Answer ==> after(agent, events.drop_last()).action_inflight
    }
}

/// How many questions were put to the network.
pub open spec fn questions(agent: GradientView, events: Seq<AgentEvent>) -> int
    decreases events.len(),
{
    if events.len() == 0 {
        0
    } else {
        questions(agent, events.drop_last()) + if events.last() is Choose && !after(
            agent,
            events.drop_last(),
        ).action_inflight {
            1int
        } else {
            0
        }
    }
}

/// How many answers came.
pub open spec fn answers(events: Seq<AgentEvent>) -> int
    decreases events.len(),
{
    if events.len() == 0 {
        0
    } else {
        answers(events.drop_last()) + if events.last() is Answer {
            1int
        } else {
            0
        }
    }
}

/// The last answer that came; to do nothing before the first.
pub open spec fn latest_answer(events: Seq<AgentEvent>) -> Action
    decreases events.len(),
{
    if events.len() == 0 {
        Action::DoNothing
    } else {
        match events.last() {
            AgentEvent::Answer(action) => action,
            _ => latest_answer(events.drop_last()),
        }
    }
}

/// Whatever happens to an agent in whatever order, it never has more than one
/// question open, and none while an answer waits.
pub proof fn law_one_question_at_a_time(agent: GradientView, events: Seq<AgentEvent>)
    requires
        agent == GradientView::newborn(),
        orderly(agent, events),
    ensures
        questions(agent, events) - answers(events) == (if after(agent, events).action_inflight {
            1int
        } else {
            0
        }),
        after(agent, events).action_inflight ==> after(agent, events).pending_action is None,
    decreases events.len(),
{
    if events.len() > 0 {
        law_one_question_at_a_time(agent, events.drop_last());
    }
}

/// The action that an agent chooses is the network's latest answer.
pub proof fn law_the_latest_answer_counts(agent: GradientView, events: Seq<AgentEvent>)
    requires
        agent == GradientView::newborn(),
    ensures
        after(agent, events).choice() == latest_answer(events),
    decreases events.len(),
{
    if events.len() > 0 {
        law_the_latest_answer_counts(agent, events.drop_last());
    }
}

/// The episode and the score change only when a step is recorded or the episode
/// was learned from.
pub proof fn law_only_steps_and_learning_change_the_episode(
    agent: GradientView,
    events: Seq<AgentEvent>,
)
    requires
        forall|k: int|
            0 <= k < events.len() ==> !((#[trigger] events[k]) is Record) && !(events[k] is Learn),
    ensures
        after(agent, events).state.episode == agent.state.episode,
        after(agent, events).stats == agent.stats,
    decreases events.len(),
{
    if events.len() > 0 {
        assert(forall|k: int|
            0 <= k < events.drop_last().len() ==> #[trigger] events.drop_last()[k] == events[k]);
        assert(events.last() == events[events.len() - 1]);
        law_only_steps_and_learning_change_the_episode(agent, events.drop_last());
    }
}

/// A step uses up what the agent sees: until it is shown a game state again, there
/// is none for a second step.
pub proof fn law_a_step_uses_up_the_state(
    agent: GradientView,
    action: Action,
    reward: Single,
    total: Single,
    events: Seq<AgentEvent>,
)
    requires
        forall|k: int| 0 <= k < events.len() ==> !((#[trigger] events[k]) is See),
    ensures
        after(agent.stepped(action, reward, total), events).state.current_gamestate is None,
    decreases events.len(),
{
    if events.len() > 0 {
        assert(forall|k: int|
            0 <= k < events.drop_last().len() ==> #[trigger] events.drop_last()[k] == events[k]);
        assert(events.last() == events[events.len() - 1]);
        law_a_step_uses_up_the_state(agent, action, reward, total, events.drop_last());
    }
}

/// An agent acts on the answer that waits, and else goes on as before.  The answer
/// is used up by that, a question is out afterwards, and what the agent remembers
/// stays as it is.
pub proof fn law_a_choice_uses_the_answer(agent: GradientView)
    ensures
        agent.pending_action is Some ==> Some(agent.choice()) == agent.pending_action,
        agent.pending_action is None ==> agent.choice() == agent.last_action,
        agent.asked().last_action == agent.choice(),
        agent.asked().pending_action is None,
        agent.asked().action_inflight,
        agent.asked().state == agent.state,
        agent.asked().stats == agent.stats,
{
}

/// An answer waits until the next choice takes it, and only then is it acted on;
/// with it no question is out any more, and what the agent remembers stays as it is.
pub proof fn law_an_answer_waits(agent: GradientView, action: Action)
    ensures
        agent.answered(action).pending_action == Some(action),
        agent.answered(action).choice() == action,
        agent.answered(action).last_action == agent.last_action,
        !agent.answered(action).action_inflight,
        agent.answered(action).state == agent.state,
        agent.answered(action).stats == agent.stats,
        agent.answered(action).asked().last_action == action,
{
}

/// A step adds to the end of the episode what was seen, what was done and what it
/// paid, and takes over the total; a lesson forgets the episode.  Everything else
/// stays as it is.
pub proof fn law_what_an_agent_remembers(
    agent: GradientView,
    action: Action,
    reward: Single,
    total: Single,
    state: GameStateFeatures,
)
    requires
        agent.state.current_gamestate == Some(state),
    ensures
        ({
            let after = agent.stepped(action, reward, total);
            let steps = after.state.episode;
            &&& steps.len() == agent.state.episode.len() + 1
            &&& forall|i: int|
                0 <= i < agent.state.episode.len() ==> #[trigger] steps[i]
                    == agent.state.episode[i]
            &&& steps.last().state == state
            &&& steps.last().action == action
            &&& steps.last().reward == reward
            &&& after.state.current_gamestate is None
            &&& after.state.score == agent.state.score
            &&& after.state.is_dead == agent.state.is_dead
            &&& after.stats.total_score == total
            &&& after.stats.entropy_ema == agent.stats.entropy_ema
            &&& after.stats.entropy_violation_streak == agent.stats.entropy_violation_streak
            &&& after.stats.score_ema == agent.stats.score_ema
            &&& after.stats.score_violation_streak == agent.stats.score_violation_streak
            &&& after.stats.episodes == agent.stats.episodes
            &&& after.stats.entropy_sum == agent.stats.entropy_sum
            &&& after.stats.total_episodes == agent.stats.total_episodes
            &&& after.pending_action == agent.pending_action
            &&& after.action_inflight == agent.action_inflight
            &&& after.last_action == agent.last_action
        }),
        ({
            let after = agent.learned();
            &&& after.state.episode.len() == 0
            &&& after.state.current_gamestate == agent.state.current_gamestate
            &&& after.state.score == agent.state.score
            &&& after.state.is_dead == agent.state.is_dead
            &&& after.stats == agent.stats
            &&& after.pending_action == agent.pending_action
            &&& after.action_inflight == agent.action_inflight
            &&& after.last_action == agent.last_action
        }),
{
}

/// A row of the mask holds a one for the action that was taken and a zero for the
/// other.
pub proof fn law_the_mask_marks_the_action(action: Action)
    ensures
        action == Action::DoNothing ==> mask_at(action, 0).bits == 0x3f80_0000 && mask_at(
            action,
            1,
        ).bits == 0,
        action == Action::Jump ==> mask_at(action, 1).bits == 0x3f80_0000 && mask_at(
            action,
            0,
        ).bits == 0,
{
}

/// A list of features names each of the eight once: height, speed, the next upper
/// and lower edge, the lower and upper edge after them, and how far the next lower
/// and upper pipe are.
pub proof fn law_features_have_their_places(state: GameStateFeatures)
    ensures
        state.listed().len() == 8,
        state.listed()[0] == state.bird_y,
        state.listed()[1] == state.bird_speed,
        state.listed()[2] == state.next_pipe_top_y,
        state.listed()[3] == state.next_pipe_bottom_y,
        state.listed()[4] == state.second_bot_y,
        state.listed()[5] == state.second_top_y,
        state.listed()[6] == state.remaining_bot_x,
        state.listed()[7] == state.remaining_top_x,
{
}

} // verus!

//! From what a bird sees to what its agent does, and what happens once all birds
//! are dead.

use crate::ml::agent_utils::{Action, AgentStats, EpisodeStep, GameStateFeatures, StateView};
use crate::ml::model::{FlappyGradientAgent, GradientView};
use crate::ml::multiagent::{AgentManager, ManagerView};
use crate::order::{
    in_order, lemma_in_order, lemma_where_true, lemma_where_true_step, position_order, positions,
    sort_positions, where_true,
};
use crate::player::{Bird, BirdInventory};
use crate::scalar::Single;
use std::collections::HashSet;
use vstd::prelude::*;

verus! {

broadcast use vstd::std_specs::hash::group_hash_axioms;

/// The numbers of the birds that died.  They wait here until the agents were
/// updated, and start again together.
#[derive(Debug)]
pub struct DeadBirdRegistry(pub HashSet<u32>);

impl View for DeadBirdRegistry {
    type V = Set<u32>;

    open spec fn view(&self) -> Set<u32> {
        self.0@
    }
}

impl Default for DeadBirdRegistry {
    fn default() -> (r: DeadBirdRegistry)
        ensures
            r@ == Set::<u32>::empty(),
    {
        DeadBirdRegistry(HashSet::new())
    }
}

/// A pipe as a bird sees it.
#[derive(Clone, Copy, Debug, PartialEq, Eq, Structural)]
pub struct PipeSight {
    /// Where its middle is.
    pub x: Single,
    /// Where it ends.
    pub right: Single,
    /// How far the bird's front is beyond its end.
    pub lead: Single,
    /// The height of the edge that the bird must not touch.
    pub edge_y: Single,
    /// How far its end is before the bird's front.
    pub remaining_x: Single,
}

/// What an agent is told of a pipe.
#[derive(Clone, Copy, Debug, PartialEq, Eq, Structural)]
pub struct PipeEdgeInfo {
    pub edge_y: Single,
    pub remaining_x: Single,
}

/// What a bird measures.
#[derive(Clone, Copy, Debug, PartialEq, Eq, Structural)]
pub struct Measure {
    pub y: Single,
    pub speed: Single,
    /// The bird's rear end: a pipe that ends behind it is passed.
    pub rear: Single,
    /// The size of a bird.
    pub size: Single,
}

/// The middles of the pipes.
pub open spec fn middles(pipes: Seq<PipeSight>) -> Seq<Single> {
    pipes.map_values(|p: PipeSight| p.x)
}

/// The pipes that the bird has not passed, the nearest first.
pub open spec fn ahead(pipes: Seq<PipeSight>, rear: Single) -> Seq<int> {
    in_order(middles(pipes), where_true(pipes.len(), |i: int| rear.below(pipes[i].right)))
}

/// Which of the pipes ahead counts: the second, once the first is well past.
pub open spec fn active(pipes: Seq<PipeSight>, m: Measure) -> int {
    let order = ahead(pipes, m.rear);
    if order.len() == 0 || m.size.below(pipes[order[0]].lead) {
        1
    } else {
        0
    }
}

/// What is told of the `k`-th pipe ahead; where there is none, what stands in
/// for it.
pub open spec fn told(
    pipes: Seq<PipeSight>,
    m: Measure,
    k: int,
    beyond: PipeEdgeInfo,
) -> PipeEdgeInfo {
    let order = ahead(pipes, m.rear);
    if 0 <= k < order.len() {
        PipeEdgeInfo { edge_y: pipes[order[k]].edge_y, remaining_x: pipes[order[k]].remaining_x }
    } else {
        beyond
    }
}

/// What a bird sees.
pub open spec fn seen(
    m: Measure,
    tops: Seq<PipeSight>,
    bottoms: Seq<PipeSight>,
    beyond_top: PipeEdgeInfo,
    beyond_bottom: PipeEdgeInfo,
) -> GameStateFeatures {
    let top = active(tops, m);
    let bottom = active(bottoms, m);
    GameStateFeatures {
        bird_y: m.y,
        bird_speed: m.speed,
        next_pipe_top_y: told(tops, m, top, beyond_top).edge_y,
        next_pipe_bottom_y: told(bottoms, m, bottom, beyond_bottom).edge_y,
        remaining_bot_x: told(bottoms, m, bottom, beyond_bottom).remaining_x,
        remaining_top_x: told(tops, m, top, beyond_top).remaining_x,
        second_top_y: told(tops, m, top + 1, beyond_top).edge_y,
        second_bot_y: told(bottoms, m, bottom + 1, beyond_bottom).edge_y,
    }
}

/// The bird has not passed the pipe.
pub open spec fn to_come(pipes: Seq<PipeSight>, rear: Single, i: int) -> bool {
    0 <= i < pipes.len() && rear.below(pipes[i].right)
}

/// The pipe `i` comes before the pipe `j`: it is nearer, or listed earlier at the
/// same place.
pub open spec fn nearer(pipes: Seq<PipeSight>, i: int, j: int) -> bool {
    pipes[i].x.below(pipes[j].x) || (!pipes[j].x.below(pipes[i].x) && i < j)
}

/// No pipe to come is nearer.
pub open spec fn first(pipes: Seq<PipeSight>, rear: Single, p: int) -> bool {
    to_come(pipes, rear, p) && forall|i: int|
        #![trigger to_come(pipes, rear, i)]
        to_come(pipes, rear, i) ==> !nearer(pipes, i, p)
}

/// No pipe to come is farther.
pub open spec fn last(pipes: Seq<PipeSight>, rear: Single, p: int) -> bool {
    to_come(pipes, rear, p) && forall|i: int|
        #![trigger to_come(pipes, rear, i)]
        to_come(pipes, rear, i) ==> !nearer(pipes, p, i)
}

/// The pipe `q` comes after the pipe `p`, and none that is to come between them.
pub open spec fn follows(pipes: Seq<PipeSight>, rear: Single, p: int, q: int) -> bool {
    &&& to_come(pipes, rear, p)
    &&& to_come(pipes, rear, q)
    &&& nearer(pipes, p, q)
    &&& forall|i: int|
        #![trigger to_come(pipes, rear, i)]
        to_come(pipes, rear, i) ==> !(nearer(pipes, p, i) && nearer(pipes, i, q))
}

/// A pipe that ends somewhere is somewhere.
pub open spec fn placed(pipes: Seq<PipeSight>, rear: Single) -> bool {
    forall|i: int|
        0 <= i < pipes.len() && rear.below((#[trigger] pipes[i]).right) ==> !pipes[i].x.nan()
}

fn sort_ahead(pipes: &Vec<PipeSight>, rear: Single) -> (r: Vec<usize>)
    ensures
        positions(r@) == ahead(pipes@, rear),
        forall|k: int| 0 <= k < r@.len() ==> #[trigger] r@[k] < pipes@.len(),
{
    let mut keep: Vec<usize> = Vec::new();
    let mut xs: Vec<Single> = Vec::new();
    let ghost kept = |i: int| rear.below(pipes@[i].right);
    let mut i: usize = 0;
    proof {
        assert(where_true(0, kept) =~= Seq::empty()) by {
            reveal(Seq::filter);
        }
        assert(positions(keep@) =~= Seq::<int>::empty());
    }
    while i < pipes.len()
        invariant
            i <= pipes@.len(),
            kept == (|i: int| rear.below(pipes@[i].right)),
            positions(keep@) == where_true(i as nat, kept),
            forall|k: int| 0 <= k < keep@.len() ==> #[trigger] keep@[k] < i,
            xs@ =~= middles(pipes@).take(i as int),
        decreases pipes@.len() - i,
    {
        let ghost before = keep@;
        proof {
            lemma_where_true_step(i as nat, kept);
        }
        if rear.is_below(&pipes[i].right) {
            keep.push(i);
            proof {
                assert(positions(keep@) =~= positions(before).push(i as int));
            }
        }
        xs.push(pipes[i].x);
        i = i + 1;
    }
    proof {
        assert(xs@ =~= middles(pipes@));
    }
    let r: Vec<usize> = sort_positions(&xs, &keep);
    proof {
        let all = where_true(pipes@.len(), kept);
        lemma_in_order(middles(pipes@), all);
        lemma_where_true(pipes@.len(), kept);
        assert forall|k: int| 0 <= k < r@.len() implies #[trigger] r@[k] < pipes@.len() by {
            assert(positions(r@)[k] == r@[k]);
            assert(ahead(pipes@, rear).contains(r@[k] as int));
        }
    }
    r
}

fn well_past(pipes: &Vec<PipeSight>, order: &Vec<usize>, m: &Measure) -> (r: usize)
    requires
        positions(order@) == ahead(pipes@, m.rear),
        forall|k: int| 0 <= k < order@.len() ==> #[trigger] order@[k] < pipes@.len(),
    ensures
        r == active(pipes@, *m),
{
    proof {
        assert(positions(order@).len() == order@.len());
        if order@.len() > 0 {
            assert(positions(order@)[0] == order@[0]);
        }
    }
    if order.len() == 0 || m.size.is_below(&pipes[order[0]].lead) {
        1
    } else {
        0
    }
}

fn extract_pipe(
    pipes: &Vec<PipeSight>,
    order: &Vec<usize>,
    m: &Measure,
    k: usize,
    beyond: PipeEdgeInfo,
) -> (r: PipeEdgeInfo)
    requires
        positions(order@) == ahead(pipes@, m.rear),
        forall|k: int| 0 <= k < order@.len() ==> #[trigger] order@[k] < pipes@.len(),
    ensures
        r == told(pipes@, *m, k as int, beyond),
{
    proof {
        assert(positions(order@).len() == order@.len());
    }
    if k < order.len() {
        proof {
            assert(positions(order@)[k as int] == order@[k as int]);
        }
        let p: PipeSight = pipes[order[k]];
        PipeEdgeInfo { edge_y: p.edge_y, remaining_x: p.remaining_x }
    } else {
        beyond
    }
}

/// What a bird sees.  The upper and the lower pipes are looked at independently
/// of each other: they are not taken to come in pairs.
pub fn observe(
    m: Measure,
    tops: &Vec<PipeSight>,
    bottoms: &Vec<PipeSight>,
    beyond_top: PipeEdgeInfo,
    beyond_bottom: PipeEdgeInfo,
) -> (r: GameStateFeatures)
    requires
        placed(tops@, m.rear),
        placed(bottoms@, m.rear),
    ensures
        r == seen(m, tops@, bottoms@, beyond_top, beyond_bottom),
        forall|p: int, q: int|
            #![trigger first(bottoms@, m.rear, p), follows(bottoms@, m.rear, p, q)]
            first(bottoms@, m.rear, p) && follows(bottoms@, m.rear, p, q) && !m.size.below(
                bottoms@[p].lead,
            ) ==> r.next_pipe_bottom_y == bottoms@[p].edge_y && r.second_bot_y
                == bottoms@[q].edge_y,
        forall|p: int, q: int|
            #![trigger first(tops@, m.rear, p), follows(tops@, m.rear, p, q)]
            first(tops@, m.rear, p) && follows(tops@, m.rear, p, q) && !m.size.below(
                tops@[p].lead,
            ) ==> r.next_pipe_top_y == tops@[p].edge_y && r.second_top_y == tops@[q].edge_y,
{
    proof {
        lemma_pairs_are_told(bottoms@, m, beyond_bottom);
        lemma_pairs_are_told(tops@, m, beyond_top);
    }
    let tops_ahead: Vec<usize> = sort_ahead(tops, m.rear);
    let bots_ahead: Vec<usize> = sort_ahead(bottoms, m.rear);
    let top: usize = well_past(tops, &tops_ahead, &m);
    let bottom: usize = well_past(bottoms, &bots_ahead, &m);
    let nearest_top: PipeEdgeInfo = extract_pipe(tops, &tops_ahead, &m, top, beyond_top);
    let nearest_bot: PipeEdgeInfo = extract_pipe(bottoms, &bots_ahead, &m, bottom, beyond_bottom);
    let second_top: PipeEdgeInfo = extract_pipe(tops, &tops_ahead, &m, top + 1, beyond_top);
    let second_bot: PipeEdgeInfo = extract_pipe(
        bottoms,
        &bots_ahead,
        &m,
        bottom + 1,
        beyond_bottom,
    );
    GameStateFeatures {
        bird_y: m.y,
        bird_speed: m.speed,
        next_pipe_top_y: nearest_top.edge_y,
        next_pipe_bottom_y: nearest_bot.edge_y,
        remaining_bot_x: nearest_bot.remaining_x,
        remaining_top_x: nearest_top.remaining_x,
        second_top_y: second_top.edge_y,
        second_bot_y: second_bot.edge_y,
    }
}

/// What a reward is made of before anything is added.
#[derive(Clone, Copy, Debug, PartialEq, Eq, Structural)]
pub enum RewardBase {
    /// The prize for a death at a pipe.
    PipeDeath,
    /// The prize for another death.
    Dying,
    /// The prize for being alive, times the square of the score, at least once.
    Alive { score: u32 },
}

/// What a reward is made of.
#[derive(Clone, Copy, Debug, PartialEq, Eq, Structural)]
pub struct RewardParts {
    pub base: RewardBase,
    /// The prize for a cleared pipe is added.
    pub cleared: bool,
    /// The bonus for flying between the edges is added.
    pub in_gap: bool,
    /// The cost of a jump is added.
    pub jumped: bool,
}

/// What a network is asked: features, under a number that its answer refers to.
#[derive(Clone, Copy, Debug)]
pub struct Question {
    pub number: u64,
    pub input: [Single; 8],
}

/// What an agent makes of a frame.
#[derive(Clone, Copy, Debug)]
pub struct Thought {
    /// The bird had no agent before.
    pub created: bool,
    pub action: Action,
    /// The bird jumps.
    pub jump: bool,
    /// What the network is to be asked, if it is to be asked.
    pub question: Option<Question>,
    pub reward: RewardParts,
}

/// Strictly between the two edges, whichever is the higher.
pub open spec fn between(y: Single, a: Single, b: Single) -> bool {
    (a.below(y) && y.below(b)) || (b.below(y) && y.below(a))
}

/// What the agent gets for the frame.
pub open spec fn reward_parts(
    agent: GradientView,
    bird: Bird,
    state: GameStateFeatures,
) -> RewardParts {
    RewardParts {
        base: if !bird.dead {
            RewardBase::Alive { score: agent.state.score }
        } else if bird.pipe_death {
            RewardBase::PipeDeath
        } else {
            RewardBase::Dying
        },
        cleared: bird.score > agent.state.score,
        in_gap: between(state.bird_y, state.next_pipe_top_y, state.next_pipe_bottom_y),
        jumped: agent.choice() == Action::Jump,
    }
}

/// The agent after the frame's decision.
pub open spec fn thoughtful(
    agent: GradientView,
    bird: Bird,
    state: GameStateFeatures,
) -> GradientView {
    let looking = agent.seeing(state);
    GradientView {
        state: StateView {
            score: if bird.score > agent.state.score {
                bird.score
            } else {
                agent.state.score
            },
            ..looking.state
        },
        ..looking.asked()
    }
}

fn is_between(y: &Single, a: &Single, b: &Single) -> (r: bool)
    ensures
        r == between(*y, *a, *b),
{
    (a.is_below(y) && y.is_below(b)) || (b.is_below(y) && y.is_below(a))
}

/// The agents after a bird's agent decided.
pub open spec fn decided(before: ManagerView, bird: Bird, state: GameStateFeatures) -> ManagerView {
    let agent = before.thinker(bird.uid);
    let agents = before.agents.insert(bird.uid, thoughtful(agent, bird, state));
    if agent.action_inflight {
        ManagerView { agents, ..before }
    } else {
        ManagerView {
            agents,
            questions: before.questions.insert(bird.uid, before.asked),
            asked: (before.asked + 1) as u64,
        }
    }
}

/// Lets a bird's agent decide.
pub fn think(manager: &mut AgentManager, bird: &Bird, state: GameStateFeatures) -> (r: Thought)
    requires
        old(manager)@.thinker(bird.uid).action_inflight || old(manager)@.asked < u64::MAX,
    ensures
        ({
            let agent = old(manager)@.thinker(bird.uid);
            &&& r.created == !old(manager)@.agents.contains_key(bird.uid)
            &&& r.action == agent.choice()
            &&& r.jump == (agent.choice() == Action::Jump && !bird.dead)
            &&& r.question is Some <==> !agent.action_inflight
            &&& r.question matches Some(question) ==> question.number == old(manager)@.asked
                && question.input@ == state.listed()
            &&& r.reward == reward_parts(agent, *bird, state)
            &&& r.reward.cleared <==> bird.score > agent.state.score
            &&& r.reward.jumped <==> r.action == Action::Jump
            &&& r.reward.base is Alive <==> !bird.dead
            &&& r.reward.base is PipeDeath <==> bird.dead && bird.pipe_death
            &&& final(manager)@ == decided(old(manager)@, *bird, state)
        }),
{
    let ghost before = manager@;
    let ghost agent0 = before.thinker(bird.uid);
    let (agent, created): (FlappyGradientAgent, bool) = manager.check_out(bird.uid);
    let mut agent: FlappyGradientAgent = agent;
    agent.state.set_state_features(Some(state));
    let base: RewardBase = if bird.dead {
        if bird.pipe_death {
            RewardBase::PipeDeath
        } else {
            RewardBase::Dying
        }
    } else {
        RewardBase::Alive { score: agent.state.score }
    };
    let mut cleared: bool = false;
    if bird.score > agent.state.score {
        cleared = true;
        agent.state.score = bird.score;
    }
    let in_gap: bool = is_between(
        &state.bird_y,
        &state.next_pipe_top_y,
        &state.next_pipe_bottom_y,
    );
    let (action, input): (Action, Option<[Single; 8]>) = agent.select_action();
    let jumped: bool = match action {
        Action::Jump => true,
        Action::DoNothing => false,
    };
    proof {
        assert(agent@ =~= thoughtful(agent0, *bird, state));
    }
    manager.check_in(bird.uid, agent);
    let question: Option<Question> = match input {
        Some(input) => Some(Question { number: manager.open_question(bird.uid), input }),
        None => None,
    };
    proof {
        assert(manager@ =~= decided(before, *bird, state));
    }
    Thought {
        created,
        action,
        jump: jumped && !bird.dead,
        question,
        reward: RewardParts { base, cleared, in_gap, jumped },
    }
}

/// Notes the dead birds.
pub fn note_dead(registry: &mut DeadBirdRegistry, birds: &Vec<Bird>)
    ensures
        forall|uid: u32| #[trigger]
            final(registry)@.contains(uid) <==> old(registry)@.contains(uid) || exists|i: int|
                0 <= i < birds@.len() && (#[trigger] birds@[i]).dead && birds@[i].uid == uid,
{
    let ghost before = registry@;
    let mut i: usize = 0;
    while i < birds.len()
        invariant
            i <= birds@.len(),
            forall|uid: u32| #[trigger]
                registry@.contains(uid) <==> before.contains(uid) || exists|k: int|
                    0 <= k < i && (#[trigger] birds@[k]).dead && birds@[k].uid == uid,
        decreases birds@.len() - i,
    {
        let bird: Bird = birds[i];
        let ghost so_far = registry@;
        if bird.dead {
            registry.0.insert(bird.uid);
        }
        proof {
            assert forall|uid: u32| #[trigger]
                registry@.contains(uid) <==> before.contains(uid) || exists|k: int|
                    0 <= k < i + 1 && (#[trigger] birds@[k]).dead && birds@[k].uid == uid by {
                assert(birds@[i as int] == bird);
                if so_far.contains(uid) && !before.contains(uid) {
                    let k = choose|k: int|
                        0 <= k < i && (#[trigger] birds@[k]).dead && birds@[k].uid == uid;
                    assert(birds@[k].dead);
                }
            }
        }
        i = i + 1;
    }
}

/// No bird flies and none waits to be spawned.
pub fn no_birds_in_main_system(alive: &Vec<Bird>, live_inventory: &BirdInventory) -> (r: bool)
    ensures
        r == (alive@.len() == 0 && live_inventory.0@.len() == 0),
{
    alive.len() == 0 && live_inventory.0.len() == 0
}

/// The pipes ahead are those that end in front of the bird's rear, each once, the
/// nearest first; of two at one place, the one listed first comes first.
pub proof fn law_pipes_ahead_are_in_order(pipes: Seq<PipeSight>, rear: Single, i: int, j: int)
    ensures
        ahead(pipes, rear).no_duplicates(),
        forall|p: int| #[trigger]
            ahead(pipes, rear).contains(p) <==> 0 <= p < pipes.len() && rear.below(
                pipes[p].right,
            ),
        0 <= i < j < ahead(pipes, rear).len() ==> {
            let a = ahead(pipes, rear)[i];
            let b = ahead(pipes, rear)[j];
            &&& pipes[a].x.rank() <= pipes[b].x.rank()
            &&& pipes[a].x.rank() == pipes[b].x.rank() ==> a < b
        },
{
    let kept = |i: int| rear.below(pipes[i].right);
    let order = ahead(pipes, rear);
    lemma_where_true(pipes.len(), kept);
    lemma_in_order(middles(pipes), where_true(pipes.len(), kept));
    if 0 <= i < j < order.len() {
        assert(order.contains(order[i]) && order.contains(order[j]));
        assert(position_order(middles(pipes))(order[i], order[j]));
    }
}

/// A frame adds one step to the agent's episode: what was seen, what was done and
/// what it brought.
pub proof fn law_a_frame_is_one_step(
    agent: GradientView,
    bird: Bird,
    state: GameStateFeatures,
    reward: Single,
    total: Single,
)
    ensures
        ({
            let after = thoughtful(agent, bird, state).stepped(agent.choice(), reward, total);
            &&& after.state.episode == agent.state.episode.push(
                EpisodeStep { state, action: agent.choice(), reward },
            )
            &&& after.stats == (AgentStats { total_score: total, ..agent.stats })
        }),
{
}

/// A pipe that was cleared is paid for once: the agent takes note of its bird's
/// score, and as long as that does not rise there is no prize for a pipe.
pub proof fn law_a_cleared_pipe_is_paid_once(
    agent: GradientView,
    bird: Bird,
    state: GameStateFeatures,
    reward: Single,
    total: Single,
    later: Bird,
    seen_later: GameStateFeatures,
)
    requires
        later.score <= bird.score,
    ensures
        ({
            let after = thoughtful(agent, bird, state).stepped(agent.choice(), reward, total);
            &&& !reward_parts(after, later, seen_later).cleared
            &&& after.state.score >= agent.state.score
        }),
{
}

/// What happens to the agents of the birds.
pub enum FlockEvent {
    Bind(u32, GameStateFeatures),
    Unbind(u32),
    Think(Bird, GameStateFeatures),
    Record(u32, Action, Single, Single),
    Answer(u32, u64, Action),
}

/// The agents after one event.
pub open spec fn flock_changed(m: ManagerView, event: FlockEvent) -> ManagerView {
    match event {
        FlockEvent::Bind(key, state) => m.bound(key, state),
        FlockEvent::Unbind(key) => m.unbound(key),
        FlockEvent::Think(bird, state) => decided(m, bird, state),
        FlockEvent::Record(key, action, reward, total) => m.recorded(key, action, reward, total),
        FlockEvent::Answer(key, number, action) => m.answered(key, number, action),
    }
}

/// An event that may happen: only a bird with an agent has a step to remember, and
/// there is a number left for every question.
pub open spec fn may_happen(m: ManagerView, event: FlockEvent) -> bool {
    match event {
        FlockEvent::Think(bird, _) => m.thinker(bird.uid).action_inflight || m.asked < u64::MAX,
        FlockEvent::Record(key, _, _, _) => m.agents.contains_key(key),
        _ => true,
    }
}

/// The agents after a series of events.
pub open spec fn flock_after(m: ManagerView, events: Seq<FlockEvent>) -> ManagerView
    decreases events.len(),
{
    if events.len() == 0 {
        m
    } else {
        flock_changed(flock_after(m, events.drop_last()), events.last())
    }
}

pub open spec fn all_may_happen(m: ManagerView, events: Seq<FlockEvent>) -> bool
    decreases events.len(),
{
    events.len() == 0 || {
        &&& all_may_happen(m, events.drop_last())
        &&& may_happen(flock_after(m, events.drop_last()), events.last())
    }
}

/// Whatever happens to the birds' agents, in whatever order, and whatever answers
/// come, each agent has at most one question open; it has one exactly while it
/// waits for an answer; and no two agents wait for the same answer.
pub proof fn law_one_question_for_each_agent(m: ManagerView, events: Seq<FlockEvent>)
    requires
        m.wf(),
        all_may_happen(m, events),
    ensures
        flock_after(m, events).wf(),
        flock_after(m, events).asked >= m.asked,
    decreases events.len(),
{
    if events.len() > 0 {
        law_one_question_for_each_agent(m, events.drop_last());
        let before = flock_after(m, events.drop_last());
        let after = flock_after(m, events);
        assert forall|key: u32| #[trigger] after.questions.contains_key(key)
            <==> after.agents.contains_key(key) && after.agents[key].action_inflight by {
            assert(before.questions.contains_key(key) <==> before.agents.contains_key(key)
                && before.agents[key].action_inflight);
        }
        assert forall|key: u32| #[trigger] after.questions.contains_key(key) implies
            after.questions[key] < after.asked by {
            assert(before.questions.contains_key(key) ==> before.questions[key] < before.asked);
        }
        assert forall|a: u32, b: u32|
            a != b && #[trigger] after.questions.contains_key(a)
                && #[trigger] after.questions.contains_key(b) implies after.questions[a]
            != after.questions[b] by {
            assert(before.questions.contains_key(a) ==> before.questions[a] < before.asked);
            assert(before.questions.contains_key(b) ==> before.questions[b] < before.asked);
        }
    }
}

/// A question that was asked and that the bird's agent does not have open, because
/// it was answered or because the agent that asked it is gone, is never open
/// again: an answer to it changes nothing, whoever has the bird by then.
pub proof fn law_late_answers_are_lost(
    m: ManagerView,
    events: Seq<FlockEvent>,
    key: u32,
    number: u64,
    action: Action,
)
    requires
        m.wf(),
        all_may_happen(m, events),
        number < m.asked,
        !m.awaits(key, number),
    ensures
        !flock_after(m, events).awaits(key, number),
        flock_after(m, events).answered(key, number, action) == flock_after(m, events),
    decreases events.len(),
{
    if events.len() > 0 {
        law_late_answers_are_lost(m, events.drop_last(), key, number, action);
        law_one_question_for_each_agent(m, events.drop_last());
        let before = flock_after(m, events.drop_last());
        assert(before.questions.contains_key(key) <==> before.agents.contains_key(key)
            && before.agents[key].action_inflight);
    }
}

/// Taking an agent away closes its question, and so does the answer to it.
pub proof fn law_questions_close(m: ManagerView, key: u32, number: u64, action: Action)
    ensures
        !m.unbound(key).awaits(key, number),
        !m.answered(key, number, action).awaits(key, number),
{
}

/// How the pipes ahead are lined up.
proof fn lemma_line(pipes: Seq<PipeSight>, rear: Single)
    requires
        placed(pipes, rear),
    ensures
        forall|k: int|
            0 <= k < ahead(pipes, rear).len() ==> to_come(
                pipes,
                rear,
                #[trigger] ahead(pipes, rear)[k],
            ),
        forall|p: int| #[trigger]
            to_come(pipes, rear, p) ==> exists|k: int|
                0 <= k < ahead(pipes, rear).len() && #[trigger] ahead(pipes, rear)[k] == p,
        forall|a: int, b: int|
            0 <= a < ahead(pipes, rear).len() && 0 <= b < ahead(pipes, rear).len() ==> (nearer(
                pipes,
                #[trigger] ahead(pipes, rear)[a],
                #[trigger] ahead(pipes, rear)[b],
            ) <==> a < b),
{
    let order = ahead(pipes, rear);
    law_pipes_ahead_are_in_order(pipes, rear, 0, 0);
    assert forall|k: int| 0 <= k < order.len() implies to_come(pipes, rear, #[trigger] order[k]) by {
        assert(order.contains(order[k]));
    }
    assert forall|p: int| #[trigger] to_come(pipes, rear, p) implies exists|k: int|
        0 <= k < order.len() && #[trigger] order[k] == p by {
        assert(order.contains(p));
    }
    assert forall|a: int, b: int| 0 <= a < order.len() && 0 <= b < order.len() implies (nearer(
        pipes,
        #[trigger] order[a],
        #[trigger] order[b],
    ) <==> a < b) by {
        law_pipes_ahead_are_in_order(pipes, rear, a, b);
        law_pipes_ahead_are_in_order(pipes, rear, b, a);
        assert(to_come(pipes, rear, order[a]));
        assert(to_come(pipes, rear, order[b]));
        assert(!pipes[order[a]].x.nan());
        assert(!pipes[order[b]].x.nan());
    }
}

/// Where in the line a pipe stands.
proof fn lemma_places(pipes: Seq<PipeSight>, rear: Single)
    requires
        placed(pipes, rear),
    ensures
        forall|p: int| #[trigger]
            first(pipes, rear, p) ==> ahead(pipes, rear).len() > 0 && ahead(pipes, rear)[0] == p,
        forall|k: int, q: int|
            0 <= k < ahead(pipes, rear).len() && #[trigger] follows(
                pipes,
                rear,
                ahead(pipes, rear)[k],
                q,
            ) ==> k + 1 < ahead(pipes, rear).len() && ahead(pipes, rear)[k + 1] == q,
        forall|k: int|
            0 <= k < ahead(pipes, rear).len() && #[trigger] last(
                pipes,
                rear,
                ahead(pipes, rear)[k],
            ) ==> k + 1 == ahead(pipes, rear).len(),
{
    let order = ahead(pipes, rear);
    lemma_line(pipes, rear);
    assert forall|p: int| #[trigger] first(pipes, rear, p) implies order.len() > 0 && order[0]
        == p by {
        let k = choose|k: int| 0 <= k < order.len() && #[trigger] order[k] == p;
        assert(to_come(pipes, rear, order[0]));
        assert(nearer(pipes, order[0], order[k]) <==> 0 < k);
    }
    assert forall|k: int, q: int|
        0 <= k < order.len() && #[trigger] follows(pipes, rear, order[k], q) implies k + 1
        < order.len() && order[k + 1] == q by {
        let b = choose|b: int| 0 <= b < order.len() && #[trigger] order[b] == q;
        assert(nearer(pipes, order[k], order[b]) <==> k < b);
        let next = order[k + 1];
        assert(to_come(pipes, rear, next));
        assert(nearer(pipes, order[k], next));
        assert(nearer(pipes, next, order[b]) <==> k + 1 < b);
    }
    assert forall|k: int| 0 <= k < order.len() && #[trigger] last(pipes, rear, order[k]) implies k
        + 1 == order.len() by {
        if k + 1 < order.len() {
            let next = order[k + 1];
            assert(to_come(pipes, rear, next));
            assert(nearer(pipes, order[k], next));
        }
    }
}

proof fn lemma_pairs_are_told(pipes: Seq<PipeSight>, m: Measure, beyond: PipeEdgeInfo)
    requires
        placed(pipes, m.rear),
    ensures
        forall|p: int, q: int|
            #![trigger first(pipes, m.rear, p), follows(pipes, m.rear, p, q)]
            first(pipes, m.rear, p) && follows(pipes, m.rear, p, q) && !m.size.below(pipes[p].lead)
                ==> told(pipes, m, active(pipes, m), beyond).edge_y == pipes[p].edge_y && told(
                pipes,
                m,
                active(pipes, m) + 1,
                beyond,
            ).edge_y == pipes[q].edge_y,
{
    lemma_places(pipes, m.rear);
}

/// Where pipes are to come, one is first, and after each that is not last another
/// follows.
pub proof fn law_pipes_follow_each_other(pipes: Seq<PipeSight>, rear: Single, i: int)
    requires
        placed(pipes, rear),
        to_come(pipes, rear, i),
    ensures
        exists|p: int| #[trigger] first(pipes, rear, p),
        last(pipes, rear, i) || exists|q: int| #[trigger] follows(pipes, rear, i, q),
{
    let order = ahead(pipes, rear);
    lemma_line(pipes, rear);
    let k = choose|k: int| 0 <= k < order.len() && #[trigger] order[k] == i;
    assert forall|j: int| to_come(pipes, rear, j) implies !nearer(pipes, j, order[0]) by {
        let b = choose|b: int| 0 <= b < order.len() && #[trigger] order[b] == j;
        assert(nearer(pipes, order[b], order[0]) <==> b < 0);
    }
    assert(first(pipes, rear, order[0]));
    if k + 1 < order.len() {
        let q = order[k + 1];
        assert(nearer(pipes, order[k], q));
        assert forall|j: int| to_come(pipes, rear, j) implies !(nearer(pipes, i, j) && nearer(
            pipes,
            j,
            q,
        )) by {
            let b = choose|b: int| 0 <= b < order.len() && #[trigger] order[b] == j;
            assert(nearer(pipes, order[k], order[b]) <==> k < b);
            assert(nearer(pipes, order[b], order[k + 1]) <==> b < k + 1);
        }
        assert(follows(pipes, rear, i, q));
    } else {
        assert forall|j: int| to_come(pipes, rear, j) implies !nearer(pipes, i, j) by {
            let b = choose|b: int| 0 <= b < order.len() && #[trigger] order[b] == j;
            assert(nearer(pipes, order[k], order[b]) <==> k < b);
        }
        assert(last(pipes, rear, i));
    }
}

/// While the nearest lower pipe is not well past, a bird sees its edge and how far
/// it still is, and the edge of the lower pipe that follows it.
pub proof fn law_the_two_lower_pipes_are_seen(
    m: Measure,
    tops: Seq<PipeSight>,
    bottoms: Seq<PipeSight>,
    beyond_top: PipeEdgeInfo,
    beyond_bottom: PipeEdgeInfo,
    p: int,
    q: int,
)
    requires
        placed(bottoms, m.rear),
        0 <= p < bottoms.len(),
        0 <= q < bottoms.len(),
        p != q,
        m.rear.below(bottoms[p].right),
        m.rear.below(bottoms[q].right),
        !m.size.below(bottoms[p].lead),
        forall|i: int|
            0 <= i < bottoms.len() && i != p && m.rear.below((#[trigger] bottoms[i]).right)
                ==> bottoms[p].x.below(bottoms[i].x) || (!bottoms[i].x.below(bottoms[p].x) && p
                < i),
        forall|i: int|
            0 <= i < bottoms.len() && i != p && i != q && m.rear.below(
                (#[trigger] bottoms[i]).right,
            ) ==> bottoms[q].x.below(bottoms[i].x) || (!bottoms[i].x.below(bottoms[q].x) && q < i),
    ensures
        ({
            let s = seen(m, tops, bottoms, beyond_top, beyond_bottom);
            &&& s.next_pipe_bottom_y == bottoms[p].edge_y
            &&& s.remaining_bot_x == bottoms[p].remaining_x
            &&& s.second_bot_y == bottoms[q].edge_y
        }),
{
    lemma_the_first_two(bottoms, m.rear, p, q);
    lemma_places(bottoms, m.rear);
}

/// While the nearest upper pipe is not well past, a bird sees its edge and how far
/// it still is, and the edge of the upper pipe that follows it.
pub proof fn law_the_two_upper_pipes_are_seen(
    m: Measure,
    tops: Seq<PipeSight>,
    bottoms: Seq<PipeSight>,
    beyond_top: PipeEdgeInfo,
    beyond_bottom: PipeEdgeInfo,
    p: int,
    q: int,
)
    requires
        placed(tops, m.rear),
        0 <= p < tops.len(),
        0 <= q < tops.len(),
        p != q,
        m.rear.below(tops[p].right),
        m.rear.below(tops[q].right),
        !m.size.below(tops[p].lead),
        forall|i: int|
            0 <= i < tops.len() && i != p && m.rear.below((#[trigger] tops[i]).right)
                ==> tops[p].x.below(tops[i].x) || (!tops[i].x.below(tops[p].x) && p < i),
        forall|i: int|
            0 <= i < tops.len() && i != p && i != q && m.rear.below((#[trigger] tops[i]).right)
                ==> tops[q].x.below(tops[i].x) || (!tops[i].x.below(tops[q].x) && q < i),
    ensures
        ({
            let s = seen(m, tops, bottoms, beyond_top, beyond_bottom);
            &&& s.next_pipe_top_y == tops[p].edge_y
            &&& s.remaining_top_x == tops[p].remaining_x
            &&& s.second_top_y == tops[q].edge_y
        }),
{
    lemma_the_first_two(tops, m.rear, p, q);
    lemma_places(tops, m.rear);
}

proof fn lemma_the_first_two(pipes: Seq<PipeSight>, rear: Single, p: int, q: int)
    requires
        placed(pipes, rear),
        to_come(pipes, rear, p),
        to_come(pipes, rear, q),
        p != q,
        forall|i: int|
            0 <= i < pipes.len() && i != p && rear.below((#[trigger] pipes[i]).right) ==> nearer(
                pipes,
                p,
                i,
            ),
        forall|i: int|
            0 <= i < pipes.len() && i != p && i != q && rear.below((#[trigger] pipes[i]).right)
                ==> nearer(pipes, q, i),
    ensures
        first(pipes, rear, p),
        follows(pipes, rear, p, q),
{
    assert(nearer(pipes, p, q)) by {
        assert(rear.below(pipes[q].right));
    }
    assert forall|i: int| to_come(pipes, rear, i) implies !nearer(pipes, i, p) by {
        assert(rear.below(pipes[i].right));
    }
    assert forall|i: int| to_come(pipes, rear, i) implies !(nearer(pipes, p, i) && nearer(
        pipes,
        i,
        q,
    )) by {
        assert(rear.below(pipes[i].right));
    }
}

/// What is seen beyond the two nearest pipes: once the nearest is well past, those
/// after it count; and where there is no pipe, what stands in for one is seen.  A
/// bird's own height and speed are seen as they are.
pub proof fn law_pipes_are_seen_in_turn(
    m: Measure,
    tops: Seq<PipeSight>,
    bottoms: Seq<PipeSight>,
    beyond_top: PipeEdgeInfo,
    beyond_bottom: PipeEdgeInfo,
    p: int,
    q: int,
    r: int,
)
    requires
        placed(tops, m.rear),
        placed(bottoms, m.rear),
    ensures
        ({
            let s = seen(m, tops, bottoms, beyond_top, beyond_bottom);
            s.bird_y == m.y && s.bird_speed == m.speed
        }),
        ({
            let s = seen(m, tops, bottoms, beyond_top, beyond_bottom);
            let past = m.size.below(bottoms[p].lead);
            let next = PipeEdgeInfo {
                edge_y: s.next_pipe_bottom_y,
                remaining_x: s.remaining_bot_x,
            };
            let info = |i: int|
                PipeEdgeInfo { edge_y: bottoms[i].edge_y, remaining_x: bottoms[i].remaining_x };
            let rear = m.rear;
            &&& (forall|i: int| !(#[trigger] to_come(bottoms, rear, i))) ==> next == beyond_bottom
                && s.second_bot_y == beyond_bottom.edge_y
            &&& first(bottoms, rear, p) && !past ==> next == info(p)
            &&& first(bottoms, rear, p) && last(bottoms, rear, p) && !past ==> s.second_bot_y
                == beyond_bottom.edge_y
            &&& first(bottoms, rear, p) && last(bottoms, rear, p) && past ==> next
                == beyond_bottom && s.second_bot_y == beyond_bottom.edge_y
            &&& first(bottoms, rear, p) && follows(bottoms, rear, p, q) && past ==> next == info(q)
            &&& first(bottoms, rear, p) && follows(bottoms, rear, p, q) && follows(
                bottoms,
                rear,
                q,
                r,
            ) && past ==> s.second_bot_y == bottoms[r].edge_y
            &&& first(bottoms, rear, p) && follows(bottoms, rear, p, q) && last(bottoms, rear, q)
                && past ==> s.second_bot_y == beyond_bottom.edge_y
        }),
        ({
            let s = seen(m, tops, bottoms, beyond_top, beyond_bottom);
            let past = m.size.below(tops[p].lead);
            let next = PipeEdgeInfo { edge_y: s.next_pipe_top_y, remaining_x: s.remaining_top_x };
            let info = |i: int|
                PipeEdgeInfo { edge_y: tops[i].edge_y, remaining_x: tops[i].remaining_x };
            let rear = m.rear;
            &&& (forall|i: int| !(#[trigger] to_come(tops, rear, i))) ==> next == beyond_top
                && s.second_top_y == beyond_top.edge_y
            &&& first(tops, rear, p) && !past ==> next == info(p)
            &&& first(tops, rear, p) && last(tops, rear, p) && !past ==> s.second_top_y
                == beyond_top.edge_y
            &&& first(tops, rear, p) && last(tops, rear, p) && past ==> next == beyond_top
                && s.second_top_y == beyond_top.edge_y
            &&& first(tops, rear, p) && follows(tops, rear, p, q) && past ==> next == info(q)
            &&& first(tops, rear, p) && follows(tops, rear, p, q) && follows(tops, rear, q, r)
                && past ==> s.second_top_y == tops[r].edge_y
            &&& first(tops, rear, p) && follows(tops, rear, p, q) && last(tops, rear, q) && past
                ==> s.second_top_y == beyond_top.edge_y
        }),
{
    lemma_line(bottoms, m.rear);
    lemma_places(bottoms, m.rear);
    lemma_line(tops, m.rear);
    lemma_places(tops, m.rear);
    if ahead(bottoms, m.rear).len() > 0 {
        assert(to_come(bottoms, m.rear, ahead(bottoms, m.rear)[0]));
    }
    if ahead(tops, m.rear).len() > 0 {
        assert(to_come(tops, m.rear, ahead(tops, m.rear)[0]));
    }
    if first(bottoms, m.rear, p) && follows(bottoms, m.rear, p, q) {
        assert(ahead(bottoms, m.rear)[1] == q);
    }
    if first(tops, m.rear, p) && follows(tops, m.rear, p, q) {
        assert(ahead(tops, m.rear)[1] == q);
    }
}

/// A frame is paid by the bird's state alone: the living by the score that is
/// noted, the dead by how they died.  Every rise of the score, however small, pays
/// for a cleared pipe, and nothing else does; flying strictly between the two edges
/// pays a bonus, and a jump has its cost.
pub proof fn law_what_a_frame_pays(agent: GradientView, bird: Bird, state: GameStateFeatures)
    ensures
        ({
            let parts = reward_parts(agent, bird, state);
            let (y, top, bottom) = (
                state.bird_y,
                state.next_pipe_top_y,
                state.next_pipe_bottom_y,
            );
            &&& bird.score > agent.state.score ==> parts.cleared
            &&& bird.score <= agent.state.score ==> !parts.cleared
            &&& !bird.dead ==> parts.base == (RewardBase::Alive { score: agent.state.score })
            &&& bird.dead && bird.pipe_death ==> parts.base == RewardBase::PipeDeath
            &&& bird.dead && !bird.pipe_death ==> parts.base == RewardBase::Dying
            &&& top.below(y) && y.below(bottom) ==> parts.in_gap
            &&& bottom.below(y) && y.below(top) ==> parts.in_gap
            &&& parts.in_gap ==> (top.below(y) || bottom.below(y)) && (y.below(top) || y.below(
                bottom,
            ))
            &&& agent.pending_action is Some ==> (parts.jumped <==> agent.pending_action
                == Some(Action::Jump))
            &&& agent.pending_action is None ==> (parts.jumped <==> agent.last_action
                == Action::Jump)
        }),
{
}

/// A decision notes the higher of the two scores, puts the new sight in the place
/// of the old one, uses up the answer that was waiting, and has a question out
/// afterwards; the episode and the statistics stay as they are.
pub proof fn law_what_a_decision_leaves(agent: GradientView, bird: Bird, state: GameStateFeatures)
    ensures
        ({
            let after = thoughtful(agent, bird, state);
            &&& after.state.score >= bird.score
            &&& after.state.score >= agent.state.score
            &&& after.state.score == bird.score || after.state.score == agent.state.score
            &&& after.state.current_gamestate == Some(state)
            &&& after.state.episode == agent.state.episode
            &&& after.state.is_dead == agent.state.is_dead
            &&& after.stats == agent.stats
            &&& after.pending_action is None
            &&& after.action_inflight
            &&& agent.pending_action is Some ==> Some(after.last_action) == agent.pending_action
            &&& agent.pending_action is None ==> after.last_action == agent.last_action
        }),
{
}

/// A decision concerns one agent: the others stay as they are, with their
/// questions; a question is asked exactly where none is out, under a number that
/// was never given before.
pub proof fn law_a_decision_concerns_one_agent(
    before: ManagerView,
    bird: Bird,
    state: GameStateFeatures,
    other: u32,
)
    requires
        before.asked < u64::MAX,
    ensures
        ({
            let after = decided(before, bird, state);
            &&& after.agents.contains_key(bird.uid)
            &&& after.agents[bird.uid] == thoughtful(before.thinker(bird.uid), bird, state)
            &&& other != bird.uid ==> {
                &&& after.agents.contains_key(other) == before.agents.contains_key(other)
                &&& after.agents[other] == before.agents[other]
                &&& after.questions.contains_key(other) == before.questions.contains_key(other)
                &&& after.questions[other] == before.questions[other]
            }
            &&& before.agents.contains_key(bird.uid) && before.agents[bird.uid].action_inflight
                ==> after.questions == before.questions && after.asked == before.asked
            &&& !before.agents.contains_key(bird.uid)
                || !before.agents[bird.uid].action_inflight ==> {
                &&& after.questions.contains_key(bird.uid)
                &&& after.questions[bird.uid] == before.asked
                &&& after.asked == before.asked + 1
            }
        }),
{
}

} // verus!

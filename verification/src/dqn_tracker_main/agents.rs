//! The agents in training.
//!
//! An agent, once registered, keeps its place for good, and the place is the
//! handle by which its training thread reaches it.  A name means the agent that
//! was last registered under it: registering a name again leaves the older agent
//! to whoever holds its handle.

use crate::scalar::{lemma_double_nearest, Double};
use crate::text::views;
use vstd::arithmetic::power2::{lemma2_to64, lemma2_to64_rest};
use vstd::prelude::*;

verus! {

/// How many of the best rewards are remembered.
pub const REMEMBERED: usize = 200;

/// An agent must have played more episodes than this to be finished.
pub const EPISODES_TO_FINISH: usize = 150;

#[derive(Debug, Clone, Copy, PartialEq, Eq, Structural)]
pub enum AgentStatus {
    Training,
    Finished,
    Best,
}

#[derive(Debug)]
pub struct Agent {
    pub id: String,
    pub generation: u32,
    /// Reward per episode; the training thread appends.
    pub episodes: Vec<Double>,
    /// The names of the agents that descend from this one.
    pub children: Vec<String>,
    pub parent: Option<String>,
    pub status: AgentStatus,
    pub epsilon: Double,
    pub learning_rate: Double,
}

/// What an [`Agent`] holds.
#[verifier::ext_equal]
pub struct AgentView {
    pub id: Seq<char>,
    pub generation: u32,
    pub episodes: Seq<Double>,
    pub children: Seq<Seq<char>>,
    pub parent: Option<Seq<char>>,
    pub status: AgentStatus,
    pub epsilon: Double,
    pub learning_rate: Double,
}

pub open spec fn optional_view(s: Option<String>) -> Option<Seq<char>> {
    match s {
        Some(s) => Some(s@),
        None => None,
    }
}

impl View for Agent {
    type V = AgentView;

    open spec fn view(&self) -> AgentView {
        AgentView {
            id: self.id@,
            generation: self.generation,
            episodes: self.episodes@,
            children: views(self.children@),
            parent: optional_view(self.parent),
            status: self.status,
            epsilon: self.epsilon,
            learning_rate: self.learning_rate,
        }
    }
}

/// The bit pattern of `0.06`: an agent that explores no more than this is
/// finished.
pub const FINISHING_EPSILON: u64 = 0x3fae_b851_eb85_1eb8;

/// The bit pattern of `0.05`: an agent explores no less than this.
pub const LEAST_EPSILON: u64 = 0x3fa9_9999_9999_999a;

/// The bit pattern of `-50`: an episode brings no less than this.
pub const LEAST_REWARD: u64 = 0xc049_0000_0000_0000;

/// The bit pattern of minus infinity.
pub const MINUS_INFINITY: u64 = 0xfff0_0000_0000_0000;

pub open spec fn finishing_epsilon() -> Double {
    Double { bits: FINISHING_EPSILON }
}

pub open spec fn least_epsilon() -> Double {
    Double { bits: LEAST_EPSILON }
}

pub open spec fn least_reward() -> Double {
    Double { bits: LEAST_REWARD }
}

/// The least exploration rate is 5/100, and the least reward is -50.
pub proof fn law_floors_of_training()
    ensures
        least_epsilon().nearest(5, 100),
        least_reward().nearest(-50, 1),
{
    lemma2_to64();
    lemma2_to64_rest();
    lemma_double_nearest(least_epsilon(), 5, 100, 57, 0x200_0000_0000_0000);
    lemma_double_nearest(least_reward(), -50, 1, 47, 0x8000_0000_0000);
}

/// The finishing exploration rate is 6/100.
pub proof fn law_finishing_epsilon_is_six_hundredths()
    ensures
        finishing_epsilon().nearest(6, 100),
{
    lemma2_to64_rest();
    lemma_double_nearest(finishing_epsilon(), 6, 100, 57, 0x200_0000_0000_0000);
}

impl AgentView {
    pub open spec fn fresh(
        id: Seq<char>,
        generation: u32,
        parent: Option<Seq<char>>,
        epsilon: Double,
        learning_rate: Double,
    ) -> AgentView {
        AgentView {
            id,
            generation,
            episodes: Seq::empty(),
            children: Seq::empty(),
            parent,
            status: AgentStatus::Training,
            epsilon,
            learning_rate,
        }
    }

    /// The agent after one more episode.
    pub open spec fn trained(self, reward: Double, epsilon: Double) -> AgentView {
        AgentView {
            episodes: self.episodes.push(reward),
            epsilon,
            status: if self.episodes.len() > EPISODES_TO_FINISH && epsilon.at_most(
                finishing_epsilon(),
            ) {
                AgentStatus::Finished
            } else {
                self.status
            },
            ..self
        }
    }
}

impl Agent {
    pub fn new(
        id: String,
        generation: u32,
        parent: Option<String>,
        epsilon: Double,
        learning_rate: Double,
    ) -> (r: Agent)
        ensures
            r@ == AgentView::fresh(
                id@,
                generation,
                optional_view(parent),
                epsilon,
                learning_rate,
            ),
    {
        let r = Agent {
            id,
            generation,
            episodes: Vec::new(),
            children: Vec::new(),
            parent,
            status: AgentStatus::Training,
            epsilon,
            learning_rate,
        };
        assert(r@.children =~= Seq::empty());
        r
    }

    /// The highest reward of an episode; minus infinity where there is none.
    pub fn best_reward(&self) -> (r: Double)
        ensures
            Double::is_highest(self.episodes@, None) ==> r.bits == MINUS_INFINITY,
            !Double::is_highest(self.episodes@, None) ==> Double::is_highest(
                self.episodes@,
                Some(r),
            ),
    {
        match Double::highest(&self.episodes) {
            Some(r) => r,
            None => Double { bits: MINUS_INFINITY },
        }
    }

    /// The best reward as it is shown: 0 stands for minus infinity.
    pub fn shown_best(&self) -> (r: Double)
        ensures
            Double::is_highest(self.episodes@, None) ==> r.bits == 0,
            !Double::is_highest(self.episodes@, None) ==> exists|best: Double| #[trigger]
                Double::is_highest(self.episodes@, Some(best)) && r == (if best.bits
                    == MINUS_INFINITY {
                    Double { bits: 0 }
                } else {
                    best
                }),
    {
        let best: Double = self.best_reward();
        if best.bits == MINUS_INFINITY {
            Double { bits: 0 }
        } else {
            best
        }
    }
}

/// How long a training thread rests between two episodes, in milliseconds.
pub fn pace_millis(generation: u32) -> (r: u64)
    ensures
        r == 80 + 30 * generation,
{
    80 + generation as u64 * 30
}

/// The agents in training, and which of them is the best.
pub struct AgentRegistry {
    inner: RegistryInner,
}

struct RegistryInner {
    agents: Vec<Agent>,
    root_ids: Vec<String>,
    best_rewards: Vec<(Double, Double)>,
    best_agent_id: Option<String>,
}

/// What an [`AgentRegistry`] holds.
#[verifier::ext_equal]
pub struct RegistryView {
    pub agents: Seq<AgentView>,
    pub root_ids: Seq<Seq<char>>,
    /// Episode and total reward, most recent last.
    pub best_rewards: Seq<(Double, Double)>,
    pub best_agent_id: Option<Seq<char>>,
}

pub open spec fn agent_views(agents: Seq<Agent>) -> Seq<AgentView> {
    agents.map_values(|a: Agent| a@)
}

impl View for AgentRegistry {
    type V = RegistryView;

    closed spec fn view(&self) -> RegistryView {
        self.inner@
    }
}

impl View for RegistryInner {
    type V = RegistryView;

    closed spec fn view(&self) -> RegistryView {
        RegistryView {
            agents: agent_views(self.agents@),
            root_ids: views(self.root_ids@),
            best_rewards: self.best_rewards@,
            best_agent_id: optional_view(self.best_agent_id),
        }
    }
}

pub open spec fn names_of(agents: Seq<AgentView>) -> Seq<Seq<char>> {
    agents.map_values(|a: AgentView| a.id)
}

/// The last place that holds a name.
pub open spec fn last_place(names: Seq<Seq<char>>, name: Seq<char>) -> Option<int>
    decreases names.len(),
{
    if names.len() == 0 {
        None
    } else if names.last() == name {
        Some(names.len() - 1)
    } else {
        last_place(names.drop_last(), name)
    }
}

/// The agent that a name means.
pub open spec fn current(agents: Seq<AgentView>, name: Seq<char>) -> Option<int> {
    last_place(names_of(agents), name)
}

/// What [`last_place`] says.
pub proof fn lemma_last_place(names: Seq<Seq<char>>, name: Seq<char>)
    ensures
        match last_place(names, name) {
            Some(i) => {
                &&& 0 <= i < names.len()
                &&& names[i] == name
                &&& forall|k: int| i < k < names.len() ==> #[trigger] names[k] != name
            },
            None => !names.contains(name),
        },
    decreases names.len(),
{
    if names.len() > 0 && names.last() != name {
        let rest = names.drop_last();
        lemma_last_place(rest, name);
        assert forall|k: int| 0 <= k < rest.len() implies #[trigger] names[k] == rest[k] by {}
    }
}

/// `rewards` with one more, of which only the last ones are kept.
pub open spec fn remembered(rewards: Seq<(Double, Double)>, reward: (Double, Double)) -> Seq<
    (Double, Double),
> {
    let all = rewards.push(reward);
    if all.len() > REMEMBERED {
        all.drop_first()
    } else {
        all
    }
}

/// The last `n` of a list.
pub open spec fn recent<A>(all: Seq<A>, n: int) -> Seq<A> {
    if all.len() <= n {
        all
    } else {
        all.skip(all.len() - n)
    }
}

impl RegistryView {
    /// The roots are registered; an agent's children were registered after it;
    /// the agent that a name means is marked the best only if it is; no more
    /// rewards are remembered than should be.
    pub open spec fn wf(self) -> bool {
        &&& forall|k: int|
            0 <= k < self.root_ids.len() ==> current(
                self.agents,
                #[trigger] self.root_ids[k],
            ) is Some
        &&& forall|p: int, k: int|
            0 <= p < self.agents.len() && 0 <= k < self.agents[p].children.len() ==> self.after(
                p,
                #[trigger] self.agents[p].children[k],
            )
        &&& forall|name: Seq<char>| #[trigger]
            self.means_best(name) ==> self.best_agent_id == Some(name)
        &&& self.best_rewards.len() <= REMEMBERED
    }

    /// The agent that a name means was registered after the one at `p`.
    pub open spec fn after(self, p: int, name: Seq<char>) -> bool {
        current(self.agents, name) matches Some(c) && c > p
    }

    /// The agent that a name means is marked the best.
    pub open spec fn means_best(self, name: Seq<char>) -> bool {
        current(self.agents, name) matches Some(i) && self.agents[i].status == AgentStatus::Best
    }

    /// The agent that a name means, altered; unchanged where it means none.
    pub open spec fn altered(self, name: Seq<char>, f: spec_fn(AgentView) -> AgentView) -> Seq<
        AgentView,
    > {
        match current(self.agents, name) {
            Some(i) => self.agents.update(i, f(self.agents[i])),
            None => self.agents,
        }
    }

    pub open spec fn registered(
        self,
        id: Seq<char>,
        generation: u32,
        parent: Option<Seq<char>>,
        epsilon: Double,
        learning_rate: Double,
    ) -> RegistryView {
        let told = match parent {
            Some(name) => self.altered(
                name,
                |a: AgentView| AgentView { children: a.children.push(id), ..a },
            ),
            None => self.agents,
        };
        RegistryView {
            agents: told.push(
                AgentView::fresh(id, generation, parent, epsilon, learning_rate),
            ),
            root_ids: if generation == 0 {
                self.root_ids.push(id)
            } else {
                self.root_ids
            },
            ..self
        }
    }

    /// The previous best, unless it stays the best, is an agent in training
    /// again, unless it has finished.
    pub open spec fn demoted(self, candidate: Seq<char>) -> RegistryView {
        match self.best_agent_id {
            Some(prev) if prev != candidate => RegistryView {
                agents: self.altered(
                    prev,
                    |a: AgentView|
                        AgentView {
                            status: if a.status == AgentStatus::Finished {
                                AgentStatus::Finished
                            } else {
                                AgentStatus::Training
                            },
                            ..a
                        },
                ),
                ..self
            },
            _ => self,
        }
    }

    pub open spec fn promoted(self, candidate: Seq<char>) -> RegistryView {
        RegistryView {
            agents: self.altered(
                candidate,
                |a: AgentView| AgentView { status: AgentStatus::Best, ..a },
            ),
            best_agent_id: Some(candidate),
            ..self
        }
    }

    pub open spec fn with_best(
        self,
        candidate: Seq<char>,
        total_reward: Double,
        episode_idx: Double,
    ) -> RegistryView {
        RegistryView {
            best_rewards: remembered(self.best_rewards, (episode_idx, total_reward)),
            ..self.demoted(candidate).promoted(candidate)
        }
    }

    /// A candidate with this total reward is the best agent: there was none, it
    /// is the candidate already, or it earned more than any that is remembered.
    pub open spec fn beaten_by(self, candidate: Seq<char>, total_reward: Double) -> bool {
        ||| self.best_agent_id is None
        ||| self.best_agent_id == Some(candidate)
        ||| forall|k: int|
            0 <= k < self.best_rewards.len() ==> (#[trigger] self.best_rewards[k]).1.below(
                total_reward,
            )
    }

    /// The registry after it decided on a candidate.
    pub open spec fn considered(
        self,
        candidate: Seq<char>,
        total_reward: Double,
        episode_idx: Double,
    ) -> RegistryView {
        if self.beaten_by(candidate, total_reward) {
            self.with_best(candidate, total_reward, episode_idx)
        } else {
            self
        }
    }

    /// The registry after a round of an agent's training: a finished agent is left
    /// alone; another has an episode more, with the reward and the exploration
    /// rate no lower than they may be.
    pub open spec fn after_round(
        self,
        handle: int,
        estimate: Double,
        decayed: Double,
    ) -> RegistryView {
        if self.agents[handle].status == AgentStatus::Finished {
            self
        } else {
            self.trained(
                handle,
                estimate.or_floor(least_reward()),
                decayed.or_floor(least_epsilon()),
            )
        }
    }

    pub open spec fn trained(self, handle: int, reward: Double, epsilon: Double) -> RegistryView {
        RegistryView {
            agents: self.agents.update(handle, self.agents[handle].trained(reward, epsilon)),
            ..self
        }
    }
}

/// Altering an agent's other properties changes no name.
proof fn lemma_altered(r: RegistryView, name: Seq<char>, f: spec_fn(AgentView) -> AgentView)
    requires
        forall|a: AgentView| (#[trigger] f(a)).id == a.id,
    ensures
        names_of(r.altered(name, f)) == names_of(r.agents),
        r.altered(name, f).len() == r.agents.len(),
{
    lemma_last_place(names_of(r.agents), name);
    assert(names_of(r.altered(name, f)) =~= names_of(r.agents));
}

/// A newly registered name means the new agent; every other name what it meant.
proof fn lemma_push(agents: Seq<AgentView>, a: AgentView, name: Seq<char>)
    ensures
        current(agents.push(a), name) == (if a.id == name {
            Some(agents.len() as int)
        } else {
            current(agents, name)
        }),
{
    let names = names_of(agents.push(a));
    assert(names.drop_last() =~= names_of(agents));
    assert(names.last() == a.id);
}

proof fn lemma_registered_wf(
    r: RegistryView,
    id: Seq<char>,
    generation: u32,
    parent: Option<Seq<char>>,
    epsilon: Double,
    learning_rate: Double,
)
    requires
        r.wf(),
    ensures
        r.registered(id, generation, parent, epsilon, learning_rate).wf(),
{
    let f = |a: AgentView| AgentView { children: a.children.push(id), ..a };
    let next = r.registered(id, generation, parent, epsilon, learning_rate);
    let told = match parent {
        Some(name) => r.altered(name, f),
        None => r.agents,
    };
    let new = AgentView::fresh(id, generation, parent, epsilon, learning_rate);
    if parent is Some {
        lemma_altered(r, parent->0, f);
        lemma_last_place(names_of(r.agents), parent->0);
    }
    assert(names_of(told) == names_of(r.agents));
    assert forall|name: Seq<char>| #[trigger] current(next.agents, name) == (if id == name {
        Some(told.len() as int)
    } else {
        current(r.agents, name)
    }) by {
        lemma_push(told, new, name);
    }
    assert forall|name: Seq<char>|
        match #[trigger] current(r.agents, name) {
            Some(i) => 0 <= i < r.agents.len(),
            None => true,
        } by {
        lemma_last_place(names_of(r.agents), name);
    }
    assert forall|k: int| 0 <= k < next.root_ids.len() implies current(
        next.agents,
        #[trigger] next.root_ids[k],
    ) is Some by {
        if k < r.root_ids.len() {
            assert(next.root_ids[k] == r.root_ids[k]);
        }
    }
    assert forall|p: int, k: int|
        0 <= p < next.agents.len() && 0 <= k < next.agents[p].children.len() implies next.after(
        p,
        #[trigger] next.agents[p].children[k],
    ) by {
        if p < told.len() {
            assert(next.agents[p] == told[p]);
            if k < r.agents[p].children.len() {
                let name = r.agents[p].children[k];
                assert(told[p].children[k] == name);
                assert(r.after(p, name));
                assert(current(next.agents, name) is Some);
            } else {
                assert(told[p].children[k] == id);
                assert(current(next.agents, id) == Some(told.len() as int));
            }
        }
    }
    assert forall|name: Seq<char>| #[trigger] next.means_best(name) implies next.best_agent_id
        == Some(name) by {
        let i = current(next.agents, name)->0;
        if name != id {
            assert(current(r.agents, name) == Some(i));
            assert(next.agents[i].status == r.agents[i].status);
            assert(r.means_best(name));
        }
    }
}

proof fn lemma_with_best_wf(
    r: RegistryView,
    candidate: Seq<char>,
    total_reward: Double,
    episode_idx: Double,
)
    requires
        r.wf(),
    ensures
        r.with_best(candidate, total_reward, episode_idx).wf(),
{
    let next = r.with_best(candidate, total_reward, episode_idx);
    let mid = r.demoted(candidate);
    let f = |a: AgentView|
        AgentView {
            status: if a.status == AgentStatus::Finished {
                AgentStatus::Finished
            } else {
                AgentStatus::Training
            },
            ..a
        };
    let g = |a: AgentView| AgentView { status: AgentStatus::Best, ..a };
    if r.best_agent_id is Some && r.best_agent_id->0 != candidate {
        lemma_altered(r, r.best_agent_id->0, f);
        lemma_last_place(names_of(r.agents), r.best_agent_id->0);
    }
    lemma_altered(mid, candidate, g);
    lemma_last_place(names_of(r.agents), candidate);
    assert(names_of(next.agents) == names_of(r.agents));
    assert forall|p: int| 0 <= p < r.agents.len() implies (#[trigger] next.agents[p]).children
        == r.agents[p].children by {}
    assert forall|k: int| 0 <= k < next.root_ids.len() implies current(
        next.agents,
        #[trigger] next.root_ids[k],
    ) is Some by {
        assert(current(r.agents, r.root_ids[k]) is Some);
    }
    assert forall|p: int, k: int|
        0 <= p < next.agents.len() && 0 <= k < next.agents[p].children.len() implies next.after(
        p,
        #[trigger] next.agents[p].children[k],
    ) by {
        assert(next.agents[p].children == r.agents[p].children);
        assert(r.after(p, r.agents[p].children[k]));
    }
    assert forall|name: Seq<char>| #[trigger] next.means_best(name) implies next.best_agent_id
        == Some(name) by {
        lemma_last_place(names_of(r.agents), name);
        let i = current(next.agents, name)->0;
        if name != candidate {
            assert(mid.agents[i].status == AgentStatus::Best);
            assert(r.agents[i].status == AgentStatus::Best);
            assert(r.means_best(name));
        }
    }
}

proof fn lemma_trained_wf(r: RegistryView, handle: int, reward: Double, epsilon: Double)
    requires
        r.wf(),
        0 <= handle < r.agents.len(),
    ensures
        r.trained(handle, reward, epsilon).wf(),
{
    let next = r.trained(handle, reward, epsilon);
    assert(names_of(next.agents) =~= names_of(r.agents));
    assert forall|k: int| 0 <= k < next.root_ids.len() implies current(
        next.agents,
        #[trigger] next.root_ids[k],
    ) is Some by {
        assert(current(r.agents, r.root_ids[k]) is Some);
    }
    assert forall|p: int, k: int|
        0 <= p < next.agents.len() && 0 <= k < next.agents[p].children.len() implies next.after(
        p,
        #[trigger] next.agents[p].children[k],
    ) by {
        assert(next.agents[p].children == r.agents[p].children);
        assert(r.after(p, r.agents[p].children[k]));
    }
    assert forall|name: Seq<char>| #[trigger] next.means_best(name) implies next.best_agent_id
        == Some(name) by {
        lemma_last_place(names_of(r.agents), name);
        assert(r.means_best(name));
    }
}

impl RegistryInner {
    fn new() -> (r: RegistryInner)
        ensures
            r@.agents == Seq::<AgentView>::empty(),
            r@.root_ids == Seq::<Seq<char>>::empty(),
            r@.best_rewards == Seq::<(Double, Double)>::empty(),
            r@.best_agent_id is None,
            r@.wf(),
    {
        let r: RegistryInner = RegistryInner {
            agents: Vec::new(),
            root_ids: Vec::new(),
            best_rewards: Vec::new(),
            best_agent_id: None,
        };
        proof {
            assert(r@.agents =~= Seq::empty());
            assert(r@.root_ids =~= Seq::empty());
        }
        r
    }

    fn find(&self, name: &String) -> (r: Option<usize>)
        ensures
            match r {
                Some(i) => current(self@.agents, name@) == Some(i as int),
                None => current(self@.agents, name@) is None,
            },
            r matches Some(i) ==> i < self@.agents.len(),
    {
        let ghost names = names_of(self@.agents);
        let mut i: usize = self.agents.len();
        proof {
            assert(names.take(i as int) =~= names);
        }
        while i > 0
            invariant
                i <= self.agents@.len(),
                names == names_of(self@.agents),
                current(self@.agents, name@) == last_place(names.take(i as int), name@),
            decreases i,
        {
            proof {
                assert(names.take(i as int).last() == self.agents@[i - 1].id@);
                assert(names.take(i as int).drop_last() =~= names.take(i - 1));
            }
            if self.agents[i - 1].id == *name {
                return Some(i - 1);
            }
            i = i - 1;
        }
        None
    }

    fn register(
        &mut self,
        id: String,
        generation: u32,
        parent: Option<String>,
        epsilon: Double,
        learning_rate: Double,
    ) -> (handle: usize)
        requires
            old(self)@.wf(),
        ensures
            handle == old(self)@.agents.len(),
            final(self)@ == old(self)@.registered(
                id@,
                generation,
                optional_view(parent),
                epsilon,
                learning_rate,
            ),
            final(self)@.wf(),
    {
        let ghost before = self@;
        proof {
            lemma_registered_wf(before, id@, generation, optional_view(parent), epsilon, learning_rate);
        }
        if generation == 0 {
            self.root_ids.push(id.clone());
        }
        match &parent {
            Some(name) => {
                match self.find(name) {
                    Some(p) => {
                        let mut a: Agent = self.agents.remove(p);
                        let ghost kids = a@.children;
                        a.children.push(id.clone());
                        proof {
                            assert(a@.children =~= kids.push(id@));
                        }
                        self.agents.insert(p, a);
                    },
                    None => {},
                }
            },
            None => {},
        }
        let handle: usize = self.agents.len();
        self.agents.push(Agent::new(id, generation, parent, epsilon, learning_rate));
        proof {
            let next = before.registered(
                id@,
                generation,
                optional_view(parent),
                epsilon,
                learning_rate,
            );
            assert(self@.agents =~= next.agents);
            assert(self@.root_ids =~= next.root_ids);
        }
        handle
    }

    fn set_status(&mut self, handle: usize, status: AgentStatus)
        requires
            handle < old(self)@.agents.len(),
        ensures
            final(self)@ == (RegistryView {
                agents: old(self)@.agents.update(
                    handle as int,
                    AgentView { status, ..old(self)@.agents[handle as int] },
                ),
                ..old(self)@
            }),
    {
        let mut a: Agent = self.agents.remove(handle);
        a.status = status;
        self.agents.insert(handle, a);
        proof {
            assert(self@.agents =~= old(self)@.agents.update(
                handle as int,
                AgentView { status, ..old(self)@.agents[handle as int] },
            ));
        }
    }

    fn is_beaten_by(&self, candidate_id: &String, total_reward: Double) -> (r: bool)
        ensures
            r == self@.beaten_by(candidate_id@, total_reward),
    {
        match &self.best_agent_id {
            None => {
                return true;
            },
            Some(best) => {
                if *best == *candidate_id {
                    return true;
                }
            },
        }
        let mut k: usize = 0;
        while k < self.best_rewards.len()
            invariant
                k <= self.best_rewards@.len(),
                self@.best_agent_id is Some,
                self@.best_agent_id != Some(candidate_id@),
                forall|j: int|
                    0 <= j < k ==> (#[trigger] self.best_rewards@[j]).1.below(total_reward),
            decreases self.best_rewards@.len() - k,
        {
            if !self.best_rewards[k].1.is_below(&total_reward) {
                proof {
                    assert(!self@.best_rewards[k as int].1.below(total_reward));
                }
                return false;
            }
            k = k + 1;
        }
        true
    }

    fn update_best(&mut self, candidate_id: &String, total_reward: Double, episode_idx: Double)
        requires
            old(self)@.wf(),
        ensures
            final(self)@ == old(self)@.considered(candidate_id@, total_reward, episode_idx),
            final(self)@.wf(),
    {
        if !self.is_beaten_by(candidate_id, total_reward) {
            return;
        }
        let ghost before = self@;
        proof {
            lemma_with_best_wf(before, candidate_id@, total_reward, episode_idx);
        }
        let prev: Option<usize> = match &self.best_agent_id {
            Some(prev) => {
                if *prev == *candidate_id {
                    None
                } else {
                    self.find(prev)
                }
            },
            None => None,
        };
        match prev {
            Some(handle) => {
                if self.agents[handle].status != AgentStatus::Finished {
                    self.set_status(handle, AgentStatus::Training);
                }
            },
            None => {},
        }
        proof {
            lemma_last_place(names_of(before.agents), before.best_agent_id->0);
            assert(self@.agents =~= before.demoted(candidate_id@).agents);
        }
        self.best_agent_id = Some(candidate_id.clone());
        match self.find(candidate_id) {
            Some(handle) => {
                self.set_status(handle, AgentStatus::Best);
            },
            None => {},
        }
        proof {
            assert(self@ =~= before.demoted(candidate_id@).promoted(candidate_id@));
        }
        self.best_rewards.push((episode_idx, total_reward));
        if self.best_rewards.len() > REMEMBERED {
            self.best_rewards.remove(0);
        }
        proof {
            let next = before.with_best(candidate_id@, total_reward, episode_idx);
            assert(self@.best_rewards =~= next.best_rewards);
        }
    }

    fn record_episode(&mut self, handle: usize, reward: Double, epsilon: Double)
        requires
            old(self)@.wf(),
            handle < old(self)@.agents.len(),
        ensures
            final(self)@ == old(self)@.trained(handle as int, reward, epsilon),
            final(self)@.wf(),
    {
        let ghost before = self@;
        proof {
            lemma_trained_wf(before, handle as int, reward, epsilon);
        }
        let mut a: Agent = self.agents.remove(handle);
        let played: usize = a.episodes.len();
        a.episodes.push(reward);
        a.epsilon = epsilon;
        let floor = Double { bits: FINISHING_EPSILON };
        if played > EPISODES_TO_FINISH && epsilon.is_at_most(&floor) {
            a.status = AgentStatus::Finished;
        }
        self.agents.insert(handle, a);
        proof {
            assert(self@.agents =~= before.trained(handle as int, reward, epsilon).agents);
        }
    }
}

impl AgentRegistry {
    /// Roots, children and the best agent are as they should be.
    #[verifier::type_invariant]
    pub open spec fn ordered(self) -> bool {
        self@.wf()
    }

    pub fn new() -> (r: AgentRegistry)
        ensures
            r@.agents == Seq::<AgentView>::empty(),
            r@.root_ids == Seq::<Seq<char>>::empty(),
            r@.best_rewards == Seq::<(Double, Double)>::empty(),
            r@.best_agent_id is None,
            r@.wf(),
    {
        AgentRegistry { inner: RegistryInner::new() }
    }

    /// The handle of the agent that a name means.
    pub fn find(&self, name: &String) -> (r: Option<usize>)
        ensures
            match r {
                Some(i) => current(self@.agents, name@) == Some(i as int),
                None => current(self@.agents, name@) is None,
            },
            r matches Some(i) ==> i < self@.agents.len(),
    {
        self.inner.find(name)
    }

    /// How many agents there are, handles included that no name leads to.
    pub fn len(&self) -> (r: usize)
        ensures
            r == self@.agents.len(),
    {
        self.inner.agents.len()
    }

    /// The agent behind a handle.
    pub fn agent(&self, handle: usize) -> (r: &Agent)
        requires
            handle < self@.agents.len(),
        ensures
            r@ == self@.agents[handle as int],
    {
        &self.inner.agents[handle]
    }

    pub fn root_ids(&self) -> (r: &Vec<String>)
        ensures
            views(r@) == self@.root_ids,
    {
        &self.inner.root_ids
    }

    pub fn best_rewards(&self) -> (r: &Vec<(Double, Double)>)
        ensures
            r@ == self@.best_rewards,
    {
        &self.inner.best_rewards
    }

    pub fn best_agent_id(&self) -> (r: &Option<String>)
        ensures
            optional_view(*r) == self@.best_agent_id,
    {
        &self.inner.best_agent_id
    }

    /// Whether the agent behind a handle trains on: a finished one does not.
    pub fn goes_on(&self, handle: usize) -> (r: bool)
        requires
            handle < self@.agents.len(),
        ensures
            r == (self@.agents[handle as int].status != AgentStatus::Finished),
    {
        self.inner.agents[handle].status != AgentStatus::Finished
    }

    /// Registers a new agent and returns its handle, which is for its training
    /// thread.
    pub fn register(
        &mut self,
        id: String,
        generation: u32,
        parent: Option<String>,
        epsilon: Double,
        learning_rate: Double,
    ) -> (handle: usize)
        ensures
            handle == old(self)@.agents.len(),
            final(self)@ == old(self)@.registered(
                id@,
                generation,
                optional_view(parent),
                epsilon,
                learning_rate,
            ),
            final(self)@.wf(),
    {
        proof {
            use_type_invariant(&*self);
        }
        let mut inner: RegistryInner = RegistryInner::new();
        std::mem::swap(&mut inner, &mut self.inner);
        let handle: usize = inner.register(id, generation, parent, epsilon, learning_rate);
        self.inner = inner;
        handle
    }

    /// Makes an agent the best one, if its total reward makes it so.
    pub fn update_best(&mut self, candidate_id: &String, total_reward: Double, episode_idx: Double)
        ensures
            final(self)@ == (if old(self)@.beaten_by(candidate_id@, total_reward) {
                old(self)@.with_best(candidate_id@, total_reward, episode_idx)
            } else {
                old(self)@
            }),
            final(self)@.wf(),
    {
        proof {
            use_type_invariant(&*self);
        }
        let mut inner: RegistryInner = RegistryInner::new();
        std::mem::swap(&mut inner, &mut self.inner);
        inner.update_best(candidate_id, total_reward, episode_idx);
        self.inner = inner;
    }

    /// Takes in the result of an episode.
    pub fn record_episode(&mut self, handle: usize, reward: Double, epsilon: Double)
        requires
            handle < old(self)@.agents.len(),
        ensures
            final(self)@ == old(self)@.trained(handle as int, reward, epsilon),
            final(self)@.wf(),
    {
        proof {
            use_type_invariant(&*self);
        }
        let mut inner: RegistryInner = RegistryInner::new();
        std::mem::swap(&mut inner, &mut self.inner);
        inner.record_episode(handle, reward, epsilon);
        self.inner = inner;
    }

    /// A round of an agent's training: what its episode is estimated to have
    /// brought, and its exploration rate decayed.  Says whether it took place;
    /// a finished agent does not train.
    pub fn train(&mut self, handle: usize, estimate: Double, decayed: Double) -> (r: bool)
        requires
            handle < old(self)@.agents.len(),
        ensures
            r == (old(self)@.agents[handle as int].status != AgentStatus::Finished),
            final(self)@ == old(self)@.after_round(handle as int, estimate, decayed),
            final(self)@.wf(),
    {
        proof {
            use_type_invariant(&*self);
        }
        if !self.goes_on(handle) {
            return false;
        }
        let reward: Double = estimate.at_least(Double { bits: LEAST_REWARD });
        let epsilon: Double = decayed.at_least(Double { bits: LEAST_EPSILON });
        self.record_episode(handle, reward, epsilon);
        true
    }
}

/// At most one of the agents that names mean is marked the best.
pub proof fn law_one_best(r: RegistryView, a: Seq<char>, b: Seq<char>)
    requires
        r.wf(),
        r.means_best(a),
        r.means_best(b),
    ensures
        a == b,
{
}

/// The agents along `walk` are each the parent of the next.
pub open spec fn walks_down(r: RegistryView, walk: Seq<int>) -> bool {
    &&& forall|k: int| 0 <= k < walk.len() ==> 0 <= #[trigger] walk[k] < r.agents.len()
    &&& forall|k: int| #![trigger walk[k]]
        0 <= k < walk.len() - 1 ==> exists|c: int|
            0 <= c < r.agents[walk[k]].children.len() && current(
                r.agents,
                #[trigger] r.agents[walk[k]].children[c],
            ) == Some(walk[k + 1])
}

/// No agent descends from itself.
pub proof fn law_no_agent_descends_from_itself(r: RegistryView, walk: Seq<int>)
    requires
        r.wf(),
        walks_down(r, walk),
        walk.len() >= 2,
    ensures
        walk[0] < walk.last(),
    decreases walk.len(),
{
    let n = walk.len() - 2;
    let from = walk[n];
    let c = choose|c: int|
        0 <= c < r.agents[from].children.len() && current(
            r.agents,
            #[trigger] r.agents[from].children[c],
        ) == Some(walk[n + 1]);
    assert(r.after(from, r.agents[from].children[c]));
    if n > 0 {
        let shorter = walk.drop_last();
        assert forall|k: int| 0 <= k < shorter.len() implies 0 <= #[trigger] shorter[k]
            < r.agents.len() by {
            assert(shorter[k] == walk[k]);
        }
        assert forall|k: int| #![trigger shorter[k]] 0 <= k < shorter.len() - 1 implies exists|
            c: int,
        |
            0 <= c < r.agents[shorter[k]].children.len() && current(
                r.agents,
                #[trigger] r.agents[shorter[k]].children[c],
            ) == Some(shorter[k + 1]) by {
            assert(shorter[k] == walk[k] && shorter[k + 1] == walk[k + 1]);
        }
        law_no_agent_descends_from_itself(r, shorter);
    }
}

/// The remembered rewards are the most recent ones.
pub proof fn law_recent_rewards_are_remembered(
    all: Seq<(Double, Double)>,
    reward: (Double, Double),
)
    ensures
        remembered(recent(all, REMEMBERED as int), reward) == recent(
            all.push(reward),
            REMEMBERED as int,
        ),
{
    assert(remembered(recent(all, REMEMBERED as int), reward) =~= recent(
        all.push(reward),
        REMEMBERED as int,
    ));
}

/// A registered name means the agent behind the new handle; every other name
/// means what it meant.
pub proof fn law_names_mean_the_last_registered(
    r: RegistryView,
    id: Seq<char>,
    generation: u32,
    parent: Option<Seq<char>>,
    epsilon: Double,
    learning_rate: Double,
    other: Seq<char>,
)
    requires
        r.wf(),
        other != id,
    ensures
        ({
            let next = r.registered(id, generation, parent, epsilon, learning_rate);
            &&& current(next.agents, id) == Some(r.agents.len() as int)
            &&& current(next.agents, other) == current(r.agents, other)
        }),
{
    let f = |a: AgentView| AgentView { children: a.children.push(id), ..a };
    let told = match parent {
        Some(name) => r.altered(name, f),
        None => r.agents,
    };
    if parent is Some {
        lemma_altered(r, parent->0, f);
    }
    let new = AgentView::fresh(id, generation, parent, epsilon, learning_rate);
    lemma_push(told, new, id);
    lemma_push(told, new, other);
}

/// What happens to the agents in training.
pub enum TrainingEvent {
    /// Name, generation, parent, exploration and learning rate.
    Register(Seq<char>, u32, Option<Seq<char>>, Double, Double),
    /// Name, total reward and episode.
    Best(Seq<char>, Double, Double),
    /// Handle, reward and exploration rate.
    Train(int, Double, Double),
}

/// The registry after one event.
pub open spec fn changed(r: RegistryView, event: TrainingEvent) -> RegistryView {
    match event {
        TrainingEvent::Register(id, generation, parent, epsilon, learning_rate) => r.registered(
            id,
            generation,
            parent,
            epsilon,
            learning_rate,
        ),
        TrainingEvent::Best(name, total, episode) => r.considered(name, total, episode),
        TrainingEvent::Train(handle, reward, epsilon) => r.trained(handle, reward, epsilon),
    }
}

/// The registry after a series of events.
pub open spec fn after_training(r: RegistryView, events: Seq<TrainingEvent>) -> RegistryView
    decreases events.len(),
{
    if events.len() == 0 {
        r
    } else {
        changed(after_training(r, events.drop_last()), events.last())
    }
}

/// Only agents that are registered train.
pub open spec fn handled(r: RegistryView, events: Seq<TrainingEvent>) -> bool
    decreases events.len(),
{
    events.len() == 0 || {
        &&& handled(r, events.drop_last())
        &&& events.last() matches TrainingEvent::Train(handle, _, _) ==> 0 <= handle
            < after_training(r, events.drop_last()).agents.len()
    }
}

/// What an agent is, and all it has done, stays.
pub open spec fn continues(a: AgentView, b: AgentView) -> bool {
    &&& a.id == b.id
    &&& a.generation == b.generation
    &&& a.parent == b.parent
    &&& a.learning_rate == b.learning_rate
    &&& a.episodes.is_prefix_of(b.episodes)
    &&& a.children.is_prefix_of(b.children)
}

proof fn lemma_continues(r: RegistryView, event: TrainingEvent, handle: int)
    requires
        r.wf(),
        event matches TrainingEvent::Train(h, _, _) ==> 0 <= h < r.agents.len(),
        0 <= handle < r.agents.len(),
    ensures
        changed(r, event).wf(),
        changed(r, event).agents.len() >= r.agents.len(),
        continues(r.agents[handle], changed(r, event).agents[handle]),
{
    match event {
        TrainingEvent::Register(id, generation, parent, epsilon, learning_rate) => {
            lemma_registered_wf(r, id, generation, parent, epsilon, learning_rate);
            if parent is Some {
                lemma_last_place(names_of(r.agents), parent->0);
            }
        },
        TrainingEvent::Best(name, total, episode) => {
            lemma_with_best_wf(r, name, total, episode);
            let mid = r.demoted(name);
            if r.best_agent_id is Some {
                lemma_last_place(names_of(r.agents), r.best_agent_id->0);
            }
            lemma_last_place(names_of(mid.agents), name);
            assert(continues(r.agents[handle], mid.agents[handle]));
        },
        TrainingEvent::Train(h, reward, epsilon) => {
            lemma_trained_wf(r, h, reward, epsilon);
        },
    }
}

/// Whatever happens, a handle leads to the same agent, and what that agent has
/// done is never lost.  The registry stays in order: in particular there is never
/// more than one best agent.
pub proof fn law_handles_last(r: RegistryView, events: Seq<TrainingEvent>, handle: int)
    requires
        r.wf(),
        handled(r, events),
        0 <= handle < r.agents.len(),
    ensures
        after_training(r, events).wf(),
        handle < after_training(r, events).agents.len(),
        continues(r.agents[handle], after_training(r, events).agents[handle]),
    decreases events.len(),
{
    if events.len() > 0 {
        law_handles_last(r, events.drop_last(), handle);
        lemma_continues(after_training(r, events.drop_last()), events.last(), handle);
    }
}

/// The registry after rounds of one agent's training, each with an estimate of the
/// reward and a decayed exploration rate.
pub open spec fn after_rounds(
    r: RegistryView,
    handle: int,
    rounds: Seq<(Double, Double)>,
) -> RegistryView
    decreases rounds.len(),
{
    if rounds.len() == 0 {
        r
    } else {
        after_rounds(r, handle, rounds.drop_last()).after_round(
            handle,
            rounds.last().0,
            rounds.last().1,
        )
    }
}

/// In every round the exploration rate decays, if it changes at all, and the reward
/// is estimated below `limit`.
pub open spec fn decaying(
    r: RegistryView,
    handle: int,
    rounds: Seq<(Double, Double)>,
    limit: Double,
) -> bool
    decreases rounds.len(),
{
    rounds.len() == 0 || {
        let before = after_rounds(r, handle, rounds.drop_last()).agents[handle];
        &&& decaying(r, handle, rounds.drop_last(), limit)
        &&& rounds.last().1.at_most(before.epsilon)
        &&& rounds.last().0.below(limit)
    }
}

/// However long an agent trains, its exploration rate never rises and never drops
/// below the least one, each new reward lies between the least one and whatever
/// bounds the estimates, and no earlier episode is changed.
pub proof fn law_training_keeps_its_bounds(
    r: RegistryView,
    handle: int,
    rounds: Seq<(Double, Double)>,
    limit: Double,
)
    requires
        0 <= handle < r.agents.len(),
        least_epsilon().at_most(r.agents[handle].epsilon),
        least_reward().below(limit),
        decaying(r, handle, rounds, limit),
    ensures
        ({
            let before = r.agents[handle];
            let after = after_rounds(r, handle, rounds).agents[handle];
            &&& after_rounds(r, handle, rounds).agents.len() == r.agents.len()
            &&& least_epsilon().at_most(after.epsilon)
            &&& after.epsilon.at_most(before.epsilon)
            &&& before.episodes.is_prefix_of(after.episodes)
            &&& forall|k: int|
                before.episodes.len() <= k < after.episodes.len() ==> least_reward().at_most(
                    #[trigger] after.episodes[k],
                ) && after.episodes[k].below(limit)
        }),
    decreases rounds.len(),
{
    if rounds.len() > 0 {
        law_training_keeps_its_bounds(r, handle, rounds.drop_last(), limit);
    }
}

/// A round appends exactly one episode, unless the agent was finished: then it
/// writes nothing, and so does every later round.
pub proof fn law_a_finished_agent_trains_no_more(
    r: RegistryView,
    handle: int,
    rounds: Seq<(Double, Double)>,
    estimate: Double,
    decayed: Double,
)
    requires
        0 <= handle < r.agents.len(),
    ensures
        r.agents[handle].status == AgentStatus::Finished ==> after_rounds(r, handle, rounds) == r,
        r.agents[handle].status != AgentStatus::Finished ==> r.after_round(
            handle,
            estimate,
            decayed,
        ).agents[handle].episodes == r.agents[handle].episodes.push(
            estimate.or_floor(least_reward()),
        ),
    decreases rounds.len(),
{
    if rounds.len() > 0 {
        law_a_finished_agent_trains_no_more(r, handle, rounds.drop_last(), estimate, decayed);
    }
}

/// An episode adds its reward at the end and takes over the exploration rate.  It
/// finishes an agent that has had at least 151 episodes before and explores no more
/// than it must; a finished agent stays finished, and else the status stays.
pub proof fn law_what_an_episode_changes(a: AgentView, reward: Double, epsilon: Double)
    ensures
        ({
            let after = a.trained(reward, epsilon);
            let explores_little = !epsilon.nan() && !finishing_epsilon().below(epsilon);
            &&& after.episodes.len() == a.episodes.len() + 1
            &&& after.episodes.last() == reward
            &&& after.episodes.drop_last() == a.episodes
            &&& after.epsilon == epsilon
            &&& a.episodes.len() >= 151 && explores_little ==> after.status
                == AgentStatus::Finished
            &&& a.episodes.len() < 151 || !explores_little ==> after.status == a.status
            &&& after.id == a.id
            &&& after.generation == a.generation
            &&& after.children == a.children
            &&& after.parent == a.parent
            &&& after.learning_rate == a.learning_rate
        }),
{
    assert(a.trained(reward, epsilon).episodes.drop_last() =~= a.episodes);
}

/// A round of training concerns one agent.  It has an episode more afterwards, whose
/// reward is not lower than -50, and explores no less than it must; what is above
/// these bounds is taken as it is.
pub proof fn law_what_a_round_changes(
    r: RegistryView,
    handle: int,
    estimate: Double,
    decayed: Double,
    other: int,
)
    requires
        0 <= handle < r.agents.len(),
        0 <= other < r.agents.len(),
    ensures
        ({
            let after = r.after_round(handle, estimate, decayed);
            let agent = after.agents[handle];
            &&& after.agents.len() == r.agents.len()
            &&& other != handle ==> after.agents[other] == r.agents[other]
            &&& after.root_ids == r.root_ids
            &&& after.best_rewards == r.best_rewards
            &&& after.best_agent_id == r.best_agent_id
            &&& r.agents[handle].status == AgentStatus::Finished ==> agent == r.agents[handle]
            &&& r.agents[handle].status != AgentStatus::Finished ==> {
                &&& agent.episodes.len() == r.agents[handle].episodes.len() + 1
                &&& !agent.episodes.last().nan()
                &&& !agent.episodes.last().below(least_reward())
                &&& !agent.epsilon.nan()
                &&& !agent.epsilon.below(least_epsilon())
                &&& least_reward().below(estimate) ==> agent.episodes.last() == estimate
                &&& !least_reward().below(estimate) ==> agent.episodes.last() == least_reward()
                    || agent.episodes.last() == estimate
                &&& least_epsilon().below(decayed) ==> agent.epsilon == decayed
                &&& decayed.below(least_epsilon()) ==> agent.epsilon == least_epsilon()
            }
        }),
{
}

/// When a candidate becomes or stays the best agent, its reward is the last one that
/// is remembered, the earlier ones are kept as far as there is room for 200, and the
/// name of the best agent is the candidate's.
pub proof fn law_the_best_reward_is_remembered(
    r: RegistryView,
    candidate: Seq<char>,
    total_reward: Double,
    episode_idx: Double,
    k: int,
)
    requires
        r.wf(),
    ensures
        ({
            let after = r.with_best(candidate, total_reward, episode_idx);
            let (old_list, new_list) = (r.best_rewards, after.best_rewards);
            &&& after.best_agent_id == Some(candidate)
            &&& new_list.len() == (if old_list.len() < 200 {
                old_list.len() + 1
            } else {
                200
            })
            &&& new_list.last() == (episode_idx, total_reward)
            &&& 0 <= k < new_list.len() - 1 ==> new_list[new_list.len() - 2 - k]
                == old_list[old_list.len() - 1 - k]
            &&& after.root_ids == r.root_ids
            &&& after.agents.len() == r.agents.len()
        }),
{
    let f = |a: AgentView|
        AgentView {
            status: if a.status == AgentStatus::Finished {
                AgentStatus::Finished
            } else {
                AgentStatus::Training
            },
            ..a
        };
    let g = |a: AgentView| AgentView { status: AgentStatus::Best, ..a };
    if r.best_agent_id is Some {
        lemma_altered(r, r.best_agent_id->0, f);
    }
    lemma_altered(r.demoted(candidate), candidate, g);
}

/// When a candidate becomes or stays the best agent, the agent that it names is
/// marked so.  The one that was the best before, if it is another, is in training
/// again, unless it has finished.  No other agent is marked anew, and of none
/// anything but the mark changes.
pub proof fn law_only_marks_change(
    r: RegistryView,
    candidate: Seq<char>,
    total_reward: Double,
    episode_idx: Double,
    k: int,
)
    requires
        r.wf(),
        0 <= k < r.agents.len(),
    ensures
        ({
            let after = r.with_best(candidate, total_reward, episode_idx);
            let (old_agent, new_agent) = (r.agents[k], after.agents[k]);
            let named = current(r.agents, candidate) == Some(k);
            let was_best = r.best_agent_id is Some && r.best_agent_id != Some(candidate)
                && current(r.agents, r.best_agent_id->0) == Some(k);
            &&& named ==> new_agent.status == AgentStatus::Best
            &&& was_best && old_agent.status != AgentStatus::Finished ==> new_agent.status
                == AgentStatus::Training
            &&& was_best && old_agent.status == AgentStatus::Finished ==> new_agent.status
                == AgentStatus::Finished
            &&& !named && !was_best ==> new_agent.status == old_agent.status
            &&& new_agent.id == old_agent.id
            &&& new_agent.generation == old_agent.generation
            &&& new_agent.episodes == old_agent.episodes
            &&& new_agent.children == old_agent.children
            &&& new_agent.parent == old_agent.parent
            &&& new_agent.epsilon == old_agent.epsilon
            &&& new_agent.learning_rate == old_agent.learning_rate
        }),
{
    let names = names_of(r.agents);
    let f = |a: AgentView|
        AgentView {
            status: if a.status == AgentStatus::Finished {
                AgentStatus::Finished
            } else {
                AgentStatus::Training
            },
            ..a
        };
    lemma_last_place(names, candidate);
    if r.best_agent_id is Some {
        let prev = r.best_agent_id->0;
        lemma_altered(r, prev, f);
        lemma_last_place(names, prev);
        if current(r.agents, prev) is Some {
            assert(names[current(r.agents, prev)->0] == prev);
        }
    }
    if current(r.agents, candidate) is Some {
        assert(names[current(r.agents, candidate)->0] == candidate);
    }
}

/// Who takes the first place: anyone where there is no best agent, the best agent
/// itself, and whoever earned strictly more than every reward that is remembered.
/// Whoever did not, changes nothing.
pub proof fn law_who_takes_the_first_place(
    r: RegistryView,
    candidate: Seq<char>,
    total_reward: Double,
    episode_idx: Double,
    k: int,
)
    ensures
        ({
            let after = r.considered(candidate, total_reward, episode_idx);
            &&& r.best_agent_id is None ==> after.best_agent_id == Some(candidate)
            &&& r.best_agent_id is Some && after.best_agent_id != r.best_agent_id && 0 <= k
                < r.best_rewards.len() ==> r.best_rewards[k].1.below(total_reward)
            &&& (forall|i: int|
                0 <= i < r.best_rewards.len() ==> (#[trigger] r.best_rewards[i]).1.below(
                    total_reward,
                )) ==> after.best_agent_id == Some(candidate)
            &&& after.best_agent_id == r.best_agent_id || after.best_agent_id == Some(candidate)
            &&& r.best_agent_id is Some && r.best_agent_id != Some(candidate) && 0 <= k
                < r.best_rewards.len() && !r.best_rewards[k].1.below(total_reward) ==> after == r
            &&& r.best_agent_id == Some(candidate) ==> after.best_rewards.len() > 0
                && after.best_rewards.last() == (episode_idx, total_reward)
        }),
{
}

/// A new agent stands at the end, in training, with the properties it was given and
/// nothing else.  The agent that its parent's name means has it as its last child;
/// no other agent changes; and it is a root exactly if it is of the generation 0.
pub proof fn law_what_registering_changes(
    r: RegistryView,
    id: Seq<char>,
    generation: u32,
    parent: Option<Seq<char>>,
    epsilon: Double,
    learning_rate: Double,
    k: int,
)
    requires
        0 <= k < r.agents.len(),
    ensures
        ({
            let after = r.registered(id, generation, parent, epsilon, learning_rate);
            let new_agent = after.agents.last();
            let is_parent = parent is Some && current(r.agents, parent->0) == Some(k);
            &&& after.agents.len() == r.agents.len() + 1
            &&& new_agent.id == id
            &&& new_agent.generation == generation
            &&& new_agent.parent == parent
            &&& new_agent.epsilon == epsilon
            &&& new_agent.learning_rate == learning_rate
            &&& new_agent.status == AgentStatus::Training
            &&& new_agent.episodes.len() == 0
            &&& new_agent.children.len() == 0
            &&& !is_parent ==> after.agents[k] == r.agents[k]
            &&& is_parent ==> {
                &&& after.agents[k].children.len() == r.agents[k].children.len() + 1
                &&& after.agents[k].children.last() == id
                &&& after.agents[k].children.drop_last() == r.agents[k].children
                &&& after.agents[k].status == r.agents[k].status
                &&& after.agents[k].episodes == r.agents[k].episodes
                &&& after.agents[k].id == r.agents[k].id
                &&& after.agents[k].epsilon == r.agents[k].epsilon
            }
            &&& generation != 0 ==> after.root_ids == r.root_ids
            &&& generation == 0 ==> after.root_ids.len() == r.root_ids.len() + 1
                && after.root_ids.last() == id && after.root_ids.drop_last() == r.root_ids
            &&& after.best_rewards == r.best_rewards
            &&& after.best_agent_id == r.best_agent_id
        }),
{
    let after = r.registered(id, generation, parent, epsilon, learning_rate);
    if parent is Some {
        lemma_last_place(names_of(r.agents), parent->0);
        if current(r.agents, parent->0) == Some(k) {
            assert(after.agents[k].children.drop_last() =~= r.agents[k].children);
        }
    }
    if generation == 0 {
        assert(after.root_ids.drop_last() =~= r.root_ids);
    }
}

/// The recent ones of a list are its end: as many as asked, or all.
pub proof fn law_recent_is_the_end<A>(all: Seq<A>, n: int, k: int)
    requires
        n >= 0,
    ensures
        recent(all, n).len() == (if all.len() < n {
            all.len() as int
        } else {
            n
        }),
        0 <= k < recent(all, n).len() ==> recent(all, n)[recent(all, n).len() - 1 - k]
            == all[all.len() - 1 - k],
{
}

/// A name means the agent of that name that stands last; one that no agent has means
/// none.
pub proof fn law_what_a_name_means(agents: Seq<AgentView>, name: Seq<char>, k: int)
    requires
        0 <= k < agents.len(),
    ensures
        match current(agents, name) {
            Some(i) => {
                &&& 0 <= i < agents.len()
                &&& agents[i].id == name
                &&& k > i ==> agents[k].id != name
            },
            None => agents[k].id != name,
        },
{
    let names = names_of(agents);
    lemma_last_place(names, name);
    assert(names[k] == agents[k].id);
}

/// What stands for the best reward of an agent without rewards is below every other
/// number.
pub proof fn law_nothing_is_below_minus_infinity(reward: Double)
    requires
        !reward.nan(),
    ensures
        !(Double { bits: MINUS_INFINITY }).nan(),
        !reward.below(Double { bits: MINUS_INFINITY }),
        reward.bits != MINUS_INFINITY ==> (Double { bits: MINUS_INFINITY }).below(reward),
{
}

} // verus!

//! The registry of agents.

use crate::scalar::Single;
use std::collections::HashMap;
use vstd::prelude::*;

verus! {

broadcast use vstd::std_specs::hash::group_hash_axioms;

/// One reward sample stored in episode history.
#[derive(Debug)]
pub struct EpisodeRecord {
    /// Episode index (global counter for this agent).
    pub episode_idx: u64,
    /// Total undiscounted return for the episode.
    pub total_reward: Single,
    /// Per-step rewards (optional, may be empty).
    pub step_rewards: Vec<Single>,
    /// Snapshot of the entropy average at episode end.
    pub entropy_ema_snapshot: Single,
}

/// What an [`EpisodeRecord`] says.
pub struct RecordView {
    pub episode_idx: u64,
    pub total_reward: Single,
    pub step_rewards: Seq<Single>,
    pub entropy_ema_snapshot: Single,
}

impl View for EpisodeRecord {
    type V = RecordView;

    open spec fn view(&self) -> RecordView {
        RecordView {
            episode_idx: self.episode_idx,
            total_reward: self.total_reward,
            step_rewards: self.step_rewards@,
            entropy_ema_snapshot: self.entropy_ema_snapshot,
        }
    }
}

/// The views of a history.
pub open spec fn records(history: Seq<EpisodeRecord>) -> Seq<RecordView> {
    history.map_values(|r: EpisodeRecord| r@)
}

/// Lifecycle state of an agent in the registry.
#[derive(Debug, Clone, Copy, PartialEq, Eq, Structural)]
pub enum AgentLifecycle {
    Alive,
    Discarded,
}

/// Registry entry: immutable identity and mutable live metrics.
#[derive(Debug)]
pub struct RegistryEntry {
    /// Stable unique ID.
    pub agent_id: u64,
    /// Human-readable label (e.g. "gen-3/child-2").
    pub label: String,
    /// Optional parent agent ID (for the lineage tree).
    pub parent_id: Option<u64>,
    /// Is this agent still active?
    pub lifecycle: AgentLifecycle,
    pub entropy_ema: Single,
    pub score_ema: Single,
    pub episodes: u64,
    /// One entry per completed episode.
    pub episode_history: Vec<EpisodeRecord>,
}

/// What a [`RegistryEntry`] says.
pub struct EntryView {
    pub agent_id: u64,
    pub label: Seq<char>,
    pub parent_id: Option<u64>,
    pub lifecycle: AgentLifecycle,
    pub entropy_ema: Single,
    pub score_ema: Single,
    pub episodes: u64,
    pub episode_history: Seq<RecordView>,
}

impl View for RegistryEntry {
    type V = EntryView;

    open spec fn view(&self) -> EntryView {
        EntryView {
            agent_id: self.agent_id,
            label: self.label@,
            parent_id: self.parent_id,
            lifecycle: self.lifecycle,
            entropy_ema: self.entropy_ema,
            score_ema: self.score_ema,
            episodes: self.episodes,
            episode_history: records(self.episode_history@),
        }
    }
}

/// The views of a list of entries.
pub open spec fn entry_views(entries: Seq<RegistryEntry>) -> Seq<EntryView> {
    entries.map_values(|e: RegistryEntry| e@)
}

impl EntryView {
    /// An agent that has just been registered.
    pub open spec fn fresh(agent_id: u64, label: Seq<char>, parent_id: Option<u64>) -> EntryView {
        EntryView {
            agent_id,
            label,
            parent_id,
            lifecycle: AgentLifecycle::Alive,
            entropy_ema: Single { bits: 0 },
            score_ema: Single { bits: 0 },
            episodes: 0,
            episode_history: Seq::empty(),
        }
    }

    /// The entry after one more episode.
    pub open spec fn with_episode(self, record: RecordView) -> EntryView {
        EntryView {
            entropy_ema: record.entropy_ema_snapshot,
            episodes: (record.episode_idx + 1) as u64,
            episode_history: self.episode_history.push(record),
            ..self
        }
    }
}

impl Clone for EpisodeRecord {
    fn clone(&self) -> (r: EpisodeRecord)
        ensures
            r@ == self@,
    {
        let step_rewards: Vec<Single> = self.step_rewards.clone();
        assert(step_rewards@ =~= self.step_rewards@);
        EpisodeRecord {
            episode_idx: self.episode_idx,
            total_reward: self.total_reward,
            step_rewards,
            entropy_ema_snapshot: self.entropy_ema_snapshot,
        }
    }
}

impl RegistryEntry {
    pub fn new(agent_id: u64, label: String, parent_id: Option<u64>) -> (r: RegistryEntry)
        ensures
            r@ == EntryView::fresh(agent_id, label@, parent_id),
    {
        let episode_history: Vec<EpisodeRecord> = Vec::new();
        assert(records(episode_history@) =~= Seq::empty());
        RegistryEntry {
            agent_id,
            label,
            parent_id,
            lifecycle: AgentLifecycle::Alive,
            entropy_ema: Single { bits: 0 },
            score_ema: Single { bits: 0 },
            episodes: 0,
            episode_history,
        }
    }
}

impl Clone for RegistryEntry {
    fn clone(&self) -> (r: RegistryEntry)
        ensures
            r@ == self@,
    {
        let mut episode_history: Vec<EpisodeRecord> = Vec::new();
        let mut i: usize = 0;
        while i < self.episode_history.len()
            invariant
                i <= self.episode_history@.len(),
                records(episode_history@) =~= records(self.episode_history@).take(i as int),
            decreases self.episode_history@.len() - i,
        {
            let ghost before = episode_history@;
            let record: EpisodeRecord = self.episode_history[i].clone();
            episode_history.push(record);
            proof {
                assert(records(episode_history@) =~= records(before).push(record@));
                assert(records(self.episode_history@).take(i + 1) =~= records(
                    self.episode_history@,
                ).take(i as int).push(self.episode_history@[i as int]@));
            }
            i = i + 1;
        }
        proof {
            assert(records(episode_history@) =~= records(self.episode_history@));
        }
        RegistryEntry {
            agent_id: self.agent_id,
            label: self.label.clone(),
            parent_id: self.parent_id,
            lifecycle: self.lifecycle,
            entropy_ema: self.entropy_ema,
            score_ema: self.score_ema,
            episodes: self.episodes,
            episode_history,
        }
    }
}

/// All agents that were ever registered, by their IDs.
pub struct AgentRegistry {
    inner: RegistryInner,
}

struct RegistryInner {
    entries: HashMap<u64, RegistryEntry>,
    next_id: u64,
}

/// What an [`AgentRegistry`] holds.
#[verifier::ext_equal]
pub struct RegistryView {
    pub entries: Map<u64, EntryView>,
    pub next_id: u64,
}

impl View for AgentRegistry {
    type V = RegistryView;

    closed spec fn view(&self) -> RegistryView {
        self.inner@
    }
}

impl View for RegistryInner {
    type V = RegistryView;

    closed spec fn view(&self) -> RegistryView {
        RegistryView {
            entries: self.entries@.map_values(|e: RegistryEntry| e@),
            next_id: self.next_id,
        }
    }
}

impl RegistryView {
    /// The agents are numbered from 1, without a gap, up to the next ID, and
    /// every entry is filed under its own ID.
    pub open spec fn wf(self) -> bool {
        &&& self.next_id >= 1
        &&& self.entries.dom().finite()
        &&& forall|id: u64| #[trigger]
            self.entries.contains_key(id) <==> 1 <= id < self.next_id
        &&& forall|id: u64| #[trigger]
            self.entries.contains_key(id) ==> self.entries[id].agent_id == id
    }

    pub open spec fn registered(
        self,
        label: Seq<char>,
        parent_id: Option<u64>,
    ) -> RegistryView {
        RegistryView {
            entries: self.entries.insert(
                self.next_id,
                EntryView::fresh(self.next_id, label, parent_id),
            ),
            next_id: (self.next_id + 1) as u64,
        }
    }

    /// The registry with one entry replaced; unchanged where there is none.
    pub open spec fn altered(self, id: u64, f: spec_fn(EntryView) -> EntryView) -> RegistryView {
        if self.entries.contains_key(id) {
            RegistryView { entries: self.entries.insert(id, f(self.entries[id])), ..self }
        } else {
            self
        }
    }

    pub open spec fn pushed(self, id: u64, record: RecordView) -> RegistryView {
        self.altered(id, |e: EntryView| e.with_episode(record))
    }

    pub open spec fn scored(self, id: u64, score_ema: Single) -> RegistryView {
        self.altered(id, |e: EntryView| EntryView { score_ema, ..e })
    }

    pub open spec fn discarded(self, id: u64) -> RegistryView {
        self.altered(id, |e: EntryView| EntryView { lifecycle: AgentLifecycle::Discarded, ..e })
    }

    /// A list holds every entry of the registry once, in some order.
    pub open spec fn listed(self, list: Seq<EntryView>) -> bool {
        &&& list.len() == self.entries.dom().len()
        &&& distinct_ids(list)
        &&& forall|i: int|
            0 <= i < list.len() ==> self.entries.contains_key((#[trigger] list[i]).agent_id)
                && self.entries[list[i].agent_id] == list[i]
        &&& forall|id: u64| #[trigger]
            self.entries.contains_key(id) ==> list.contains(self.entries[id])
    }
}

/// No two entries of a list share an ID.
pub open spec fn distinct_ids(list: Seq<EntryView>) -> bool {
    forall|i: int, j: int|
        0 <= i < j < list.len() ==> (#[trigger] list[i]).agent_id != (#[trigger] list[j]).agent_id
}

impl RegistryInner {
    fn new() -> (r: RegistryInner)
        ensures
            r@.entries == Map::<u64, EntryView>::empty(),
            r@.next_id == 1,
            r@.wf(),
    {
        let r: RegistryInner = RegistryInner { entries: HashMap::new(), next_id: 1 };
        assert(r@.entries =~= Map::empty());
        r
    }

    fn register(&mut self, label: String, parent_id: Option<u64>) -> (id: u64)
        requires
            old(self)@.wf(),
            old(self)@.next_id < u64::MAX,
        ensures
            id == old(self)@.next_id,
            !old(self)@.entries.contains_key(id),
            final(self)@ == old(self)@.registered(label@, parent_id),
            final(self)@.wf(),
    {
        let id: u64 = self.next_id;
        self.next_id = self.next_id + 1;
        self.entries.insert(id, RegistryEntry::new(id, label, parent_id));
        assert(self@ =~= old(self)@.registered(label@, parent_id));
        id
    }

    fn push_episode(&mut self, agent_id: u64, record: EpisodeRecord)
        requires
            old(self)@.wf(),
            old(self)@.entries.contains_key(agent_id) ==> record.episode_idx < u64::MAX,
        ensures
            final(self)@ == old(self)@.pushed(agent_id, record@),
            final(self)@.entries.contains_key(agent_id) ==> {
                let entry = final(self)@.entries[agent_id];
                &&& entry.episode_history.len() > 0
                &&& entry.entropy_ema == entry.episode_history.last().entropy_ema_snapshot
                &&& entry.episodes == entry.episode_history.last().episode_idx + 1
                &&& entry.episode_history.last() == record@
            },
            final(self)@.wf(),
    {
        match self.entries.remove(&agent_id) {
            Some(mut e) => {
                let ghost before = e@;
                e.entropy_ema = record.entropy_ema_snapshot;
                e.episodes = record.episode_idx + 1;
                let ghost rv = record@;
                e.episode_history.push(record);
                proof {
                    assert(e@.episode_history =~= before.episode_history.push(rv));
                }
                self.entries.insert(agent_id, e);
            },
            None => {},
        }
        assert(self@ =~= old(self)@.pushed(agent_id, record@));
    }

    fn update_score_ema(&mut self, agent_id: u64, score_ema: Single)
        requires
            old(self)@.wf(),
        ensures
            final(self)@ == old(self)@.scored(agent_id, score_ema),
            final(self)@.wf(),
    {
        match self.entries.remove(&agent_id) {
            Some(mut e) => {
                e.score_ema = score_ema;
                self.entries.insert(agent_id, e);
            },
            None => {},
        }
        assert(self@ =~= old(self)@.scored(agent_id, score_ema));
    }

    fn discard(&mut self, agent_id: u64)
        requires
            old(self)@.wf(),
        ensures
            final(self)@ == old(self)@.discarded(agent_id),
            final(self)@.wf(),
    {
        match self.entries.remove(&agent_id) {
            Some(mut e) => {
                e.lifecycle = AgentLifecycle::Discarded;
                self.entries.insert(agent_id, e);
            },
            None => {},
        }
        assert(self@ =~= old(self)@.discarded(agent_id));
    }

    fn snapshot(&self) -> (r: Vec<RegistryEntry>)
        requires
            self@.wf(),
        ensures
            self@.listed(entry_views(r@)),
    {
        let mut r: Vec<RegistryEntry> = Vec::new();
        let ghost m = self.entries@;
        let ghost mut listing: Seq<(u64, RegistryEntry)> = Seq::empty();
        for (key, entry) in it: self.entries.iter()
            invariant
                m == self.entries@,
                self@.wf(),
                listing.len() == it.index(),
                forall|i: int|
                    #![trigger it.seq()[i]]
                    #![trigger listing[i]]
                    0 <= i < it.index() ==> listing[i] == (*it.seq()[i].0, *it.seq()[i].1),
                it.seq().len() == m.dom().len(),
                it.seq().no_duplicates(),
                forall|i: int|
                    0 <= i < it.seq().len() ==> m.contains_key(*(#[trigger] it.seq()[i]).0)
                        && m[*it.seq()[i].0] == *it.seq()[i].1,
                forall|k: u64| #[trigger] m.contains_key(k) ==> it.seq().contains((&k, &m[k])),
                r@.len() == it.index(),
                forall|i: int|
                    0 <= i < it.index() ==> (#[trigger] r@[i])@ == listing[i].1@,
        {
            proof {
                listing = listing.push((*key, *entry));
            }
            r.push(entry.clone());
        }
        proof {
            let list = entry_views(r@);
            let seen = self@.entries;
            assert(m.dom() =~= seen.dom());
            assert forall|i: int| 0 <= i < list.len() implies seen.contains_key(
                (#[trigger] list[i]).agent_id,
            ) && seen[list[i].agent_id] == list[i] by {
                assert(list[i] == r@[i]@);
                assert(m.contains_key(listing[i].0) && m[listing[i].0] == listing[i].1);
            }
            assert(listing.len() == list.len());
            assert forall|i: int| 0 <= i < list.len() implies (#[trigger] list[i]).agent_id
                == listing[i].0 by {
                assert(list[i] == r@[i]@);
                assert(seen[listing[i].0].agent_id == listing[i].0);
            }
            assert forall|id: u64| #[trigger] seen.contains_key(id) implies list.contains(
                seen[id],
            ) by {
                assert(listing.contains((id, m[id])));
                let i = listing.index_of((id, m[id]));
                assert(list[i] == r@[i]@);
            }
            assert forall|i: int, j: int| 0 <= i < j < list.len() implies (
            #[trigger] list[i]).agent_id != (#[trigger] list[j]).agent_id by {
                assert(listing[i] != listing[j]);
            }
        }
        r
    }
}

impl AgentRegistry {
    /// Every entry is where it belongs.
    #[verifier::type_invariant]
    pub open spec fn ordered(self) -> bool {
        self@.wf()
    }

    pub fn new() -> (r: AgentRegistry)
        ensures
            r@.entries == Map::<u64, EntryView>::empty(),
            r@.next_id == 1,
            r@.wf(),
    {
        AgentRegistry { inner: RegistryInner::new() }
    }

    /// The ID of the next agent that registers.
    pub fn next_id(&self) -> (r: u64)
        ensures
            r == self@.next_id,
    {
        self.inner.next_id
    }

    /// Whether there is an agent of this ID.
    pub fn has(&self, agent_id: u64) -> (r: bool)
        ensures
            r == self@.entries.contains_key(agent_id),
    {
        self.inner.entries.contains_key(&agent_id)
    }

    /// Register a new agent; returns its stable ID.
    pub fn register(&mut self, label: String, parent_id: Option<u64>) -> (id: u64)
        requires
            old(self)@.next_id < u64::MAX,
        ensures
            id == old(self)@.next_id,
            !old(self)@.entries.contains_key(id),
            final(self)@ == old(self)@.registered(label@, parent_id),
            final(self)@.wf(),
    {
        proof {
            use_type_invariant(&*self);
        }
        let mut inner: RegistryInner = RegistryInner::new();
        std::mem::swap(&mut inner, &mut self.inner);
        let id: u64 = inner.register(label, parent_id);
        self.inner = inner;
        id
    }

    /// Push a completed episode record for an agent.
    pub fn push_episode(&mut self, agent_id: u64, record: EpisodeRecord)
        requires
            old(self)@.entries.contains_key(agent_id) ==> record.episode_idx < u64::MAX,
        ensures
            final(self)@ == old(self)@.pushed(agent_id, record@),
            final(self)@.entries.contains_key(agent_id) ==> {
                let entry = final(self)@.entries[agent_id];
                &&& entry.episode_history.len() > 0
                &&& entry.entropy_ema == entry.episode_history.last().entropy_ema_snapshot
                &&& entry.episodes == entry.episode_history.last().episode_idx + 1
                &&& entry.episode_history.last() == record@
            },
            final(self)@.wf(),
    {
        proof {
            use_type_invariant(&*self);
        }
        let mut inner: RegistryInner = RegistryInner::new();
        std::mem::swap(&mut inner, &mut self.inner);
        inner.push_episode(agent_id, record);
        self.inner = inner;
    }

    /// Update the live score average without a full episode record.
    pub fn update_score_ema(&mut self, agent_id: u64, score_ema: Single)
        ensures
            final(self)@ == old(self)@.scored(agent_id, score_ema),
            final(self)@.wf(),
    {
        proof {
            use_type_invariant(&*self);
        }
        let mut inner: RegistryInner = RegistryInner::new();
        std::mem::swap(&mut inner, &mut self.inner);
        inner.update_score_ema(agent_id, score_ema);
        self.inner = inner;
    }

    /// Mark an agent as discarded (keeps it in the registry).
    pub fn discard(&mut self, agent_id: u64)
        ensures
            final(self)@ == old(self)@.discarded(agent_id),
            final(self)@.wf(),
    {
        proof {
            use_type_invariant(&*self);
        }
        let mut inner: RegistryInner = RegistryInner::new();
        std::mem::swap(&mut inner, &mut self.inner);
        inner.discard(agent_id);
        self.inner = inner;
    }

    /// Snapshot all entries.
    pub fn snapshot(&self) -> (r: Vec<RegistryEntry>)
        ensures
            self@.wf(),
            self@.listed(entry_views(r@)),
    {
        proof {
            use_type_invariant(self);
        }
        self.inner.snapshot()
    }
}

/// What happens to a registry.
pub enum RegistryEvent {
    Register(Seq<char>, Option<u64>),
    Push(u64, RecordView),
    Score(u64, Single),
    Discard(u64),
}

/// A registry after one event.
pub open spec fn changed(r: RegistryView, event: RegistryEvent) -> RegistryView {
    match event {
        RegistryEvent::Register(label, parent_id) => r.registered(label, parent_id),
        RegistryEvent::Push(id, record) => r.pushed(id, record),
        RegistryEvent::Score(id, score_ema) => r.scored(id, score_ema),
        RegistryEvent::Discard(id) => r.discarded(id),
    }
}

/// A registry after a series of events.
pub open spec fn after(r: RegistryView, events: Seq<RegistryEvent>) -> RegistryView
    decreases events.len(),
{
    if events.len() == 0 {
        r
    } else {
        changed(after(r, events.drop_last()), events.last())
    }
}

/// There are numbers left for all agents that register.
pub open spec fn numbers_last(r: RegistryView, events: Seq<RegistryEvent>) -> bool
    decreases events.len(),
{
    events.len() == 0 || {
        &&& numbers_last(r, events.drop_last())
        &&& events.last() is Register ==> after(r, events.drop_last()).next_id < u64::MAX
    }
}

/// An agent once registered stays in the registry, whatever happens: under the
/// same ID, label and parent, with all episodes it has had, and discarded if it
/// was discarded.
pub proof fn law_entries_last(r: RegistryView, events: Seq<RegistryEvent>, id: u64)
    requires
        r.wf(),
        numbers_last(r, events),
        r.entries.contains_key(id),
    ensures
        ({
            let later = after(r, events);
            let old_entry = r.entries[id];
            let new_entry = later.entries[id];
            &&& later.wf()
            &&& later.next_id >= r.next_id
            &&& later.entries.contains_key(id)
            &&& new_entry.agent_id == old_entry.agent_id
            &&& new_entry.label == old_entry.label
            &&& new_entry.parent_id == old_entry.parent_id
            &&& old_entry.episode_history.is_prefix_of(new_entry.episode_history)
            &&& old_entry.lifecycle == AgentLifecycle::Discarded ==> new_entry.lifecycle
                == AgentLifecycle::Discarded
        }),
    decreases events.len(),
{
    if events.len() > 0 {
        law_entries_last(r, events.drop_last(), id);
    }
}

/// No two agents are ever given the same ID: one that registers later is given a
/// higher one.
pub proof fn law_ids_are_unique(r: RegistryView, label: Seq<char>, parent_id: Option<u64>, events:
    Seq<RegistryEvent>)
    requires
        r.wf(),
        r.next_id < u64::MAX,
        numbers_last(r.registered(label, parent_id), events),
    ensures
        r.next_id < after(r.registered(label, parent_id), events).next_id,
{
    law_entries_last(r.registered(label, parent_id), events, r.next_id);
}

proof fn lemma_ids_up_to(n: u64)
    requires
        n >= 1,
    ensures
        Set::<u64>::new(|id: u64| 1 <= id < n).finite(),
        Set::<u64>::new(|id: u64| 1 <= id < n).len() == n - 1,
    decreases n,
{
    let all = Set::<u64>::new(|id: u64| 1 <= id < n);
    if n == 1 {
        assert(all =~= Set::empty());
    } else {
        let m = (n - 1) as u64;
        lemma_ids_up_to(m);
        assert(all =~= Set::<u64>::new(|id: u64| 1 <= id < m).insert(m));
    }
}

/// The IDs of the agents are the numbers from 1 up to how many there are.
pub proof fn law_ids_count_the_agents(r: RegistryView)
    requires
        r.wf(),
    ensures
        r.entries.dom().len() == r.next_id - 1,
        forall|id: u64| #[trigger]
            r.entries.contains_key(id) <==> 1 <= id <= r.entries.dom().len(),
{
    lemma_ids_up_to(r.next_id);
    assert(r.entries.dom() =~= Set::<u64>::new(|id: u64| 1 <= id < r.next_id));
}

/// After an episode, an agent's live entropy is that of the last record, whatever it
/// was before, and the number of its episodes is one more than the last record's.
/// The record stands at the end of the history, and the rest of the entry and all
/// other entries stay as they are.
pub proof fn law_the_last_episode_counts(
    before: RegistryView,
    id: u64,
    record: RecordView,
    other: u64,
)
    requires
        record.episode_idx < u64::MAX,
    ensures
        ({
            let after = before.pushed(id, record);
            let entry = after.entries[id];
            let old_entry = before.entries[id];
            &&& after.next_id == before.next_id
            &&& after.entries.contains_key(other) == before.entries.contains_key(other)
            &&& other != id ==> after.entries[other] == before.entries[other]
            &&& !before.entries.contains_key(id) ==> after == before
            &&& before.entries.contains_key(id) ==> {
                &&& entry.entropy_ema == entry.episode_history.last().entropy_ema_snapshot
                &&& entry.episodes == entry.episode_history.last().episode_idx + 1
                &&& entry.episode_history.last() == record
                &&& entry.episode_history.drop_last() == old_entry.episode_history
                &&& entry.score_ema == old_entry.score_ema
                &&& entry.lifecycle == old_entry.lifecycle
                &&& entry.label == old_entry.label
                &&& entry.parent_id == old_entry.parent_id
                &&& entry.agent_id == old_entry.agent_id
            }
        }),
{
    if before.entries.contains_key(id) {
        assert(before.pushed(id, record).entries[id].episode_history.drop_last()
            =~= before.entries[id].episode_history);
    }
}

/// A new score and a discard change just that: the score is the given one, the
/// agent is no longer alive, and nothing else of the entry, and no other entry,
/// changes.
pub proof fn law_marks_change_one_thing(
    before: RegistryView,
    id: u64,
    score_ema: Single,
    other: u64,
)
    ensures
        ({
            let scored = before.scored(id, score_ema);
            let gone = before.discarded(id);
            let old_entry = before.entries[id];
            &&& scored.next_id == before.next_id && gone.next_id == before.next_id
            &&& scored.entries.contains_key(other) == before.entries.contains_key(other)
            &&& gone.entries.contains_key(other) == before.entries.contains_key(other)
            &&& other != id ==> scored.entries[other] == before.entries[other]
                && gone.entries[other] == before.entries[other]
            &&& !before.entries.contains_key(id) ==> scored == before && gone == before
            &&& before.entries.contains_key(id) ==> {
                &&& scored.entries[id].score_ema == score_ema
                &&& scored.entries[id].lifecycle == old_entry.lifecycle
                &&& gone.entries[id].lifecycle == AgentLifecycle::Discarded
                &&& gone.entries[id].score_ema == old_entry.score_ema
            }
            &&& before.entries.contains_key(id) ==> forall|entry: EntryView|
                #![trigger entry.episode_history]
                entry == scored.entries[id] || entry == gone.entries[id] ==> {
                    &&& entry.episode_history == old_entry.episode_history
                    &&& entry.entropy_ema == old_entry.entropy_ema
                    &&& entry.episodes == old_entry.episodes
                    &&& entry.label == old_entry.label
                    &&& entry.parent_id == old_entry.parent_id
                    &&& entry.agent_id == old_entry.agent_id
                }
        }),
{
}

/// A new agent is filed under the next ID: alive, with the label and the parent it
/// was given, and without anything that was measured.  Every other entry stays.
pub proof fn law_new_agents_start_empty(
    before: RegistryView,
    label: Seq<char>,
    parent_id: Option<u64>,
    other: u64,
)
    requires
        before.next_id < u64::MAX,
    ensures
        ({
            let after = before.registered(label, parent_id);
            let entry = after.entries[before.next_id];
            &&& after.next_id == before.next_id + 1
            &&& after.entries.contains_key(before.next_id)
            &&& entry.agent_id == before.next_id
            &&& entry.label == label
            &&& entry.parent_id == parent_id
            &&& entry.lifecycle == AgentLifecycle::Alive
            &&& entry.entropy_ema.bits == 0
            &&& entry.score_ema.bits == 0
            &&& entry.episodes == 0
            &&& entry.episode_history.len() == 0
            &&& other != before.next_id ==> after.entries.contains_key(other)
                == before.entries.contains_key(other) && after.entries[other]
                == before.entries[other]
        }),
{
}

/// At any time, the live figures of every agent with a history are those of the
/// last episode in it, and those of an agent without one are zero.
pub proof fn law_figures_match_the_history(
    r: RegistryView,
    events: Seq<RegistryEvent>,
    id: u64,
)
    requires
        r.entries == Map::<u64, EntryView>::empty(),
        forall|i: int|
            0 <= i < events.len() ==> ((#[trigger] events[i]) matches RegistryEvent::Push(_, record)
                ==> record.episode_idx < u64::MAX),
        after(r, events).entries.contains_key(id),
    ensures
        ({
            let entry = after(r, events).entries[id];
            &&& entry.episode_history.len() > 0 ==> entry.entropy_ema
                == entry.episode_history.last().entropy_ema_snapshot && entry.episodes
                == entry.episode_history.last().episode_idx + 1
            &&& entry.episode_history.len() == 0 ==> entry.entropy_ema.bits == 0
                && entry.episodes == 0
        }),
    decreases events.len(),
{
    if events.len() > 0 {
        let earlier = events.drop_last();
        assert forall|i: int| 0 <= i < earlier.len() implies ((
        #[trigger] earlier[i]) matches RegistryEvent::Push(_, record) ==> record.episode_idx
            < u64::MAX) by {
            assert(earlier[i] == events[i]);
        }
        assert(events[events.len() - 1] == events.last());
        if after(r, earlier).entries.contains_key(id) {
            law_figures_match_the_history(r, earlier, id);
        }
    }
}

/// A list of all agents holds each of them once, as it is, and nobody else.
pub proof fn law_lists_are_complete(r: RegistryView, list: Seq<EntryView>, id: u64)
    requires
        r.wf(),
        r.listed(list),
    ensures
        list.len() == r.next_id - 1,
        r.entries.contains_key(id) <==> exists|i: int|
            0 <= i < list.len() && (#[trigger] list[i]).agent_id == id,
        forall|i: int|
            0 <= i < list.len() && (#[trigger] list[i]).agent_id == id ==> list[i]
                == r.entries[id],
        forall|i: int, j: int|
            0 <= i < list.len() && 0 <= j < list.len() && (#[trigger] list[i]).agent_id == id && (
            #[trigger] list[j]).agent_id == id ==> i == j,
{
    law_ids_count_the_agents(r);
    if r.entries.contains_key(id) {
        let i = list.index_of(r.entries[id]);
        assert(list[i].agent_id == id);
    }
}

} // verus!

//! What happens once all birds are dead: every agent becomes a copy of the best
//! one, and the birds start again.
//!
//! The copying takes longer than a frame.  It is started in one frame, and what
//! follows from it happens in the first frame that finds it done.

use crate::ml::model::{FlappyGradientAgent, GradientView};
use crate::ml::multiagent::AgentManager;
use crate::player::BirdInventory;
use crate::plugins::think::DeadBirdRegistry;
use crate::ReplacementState;
use std::collections::HashSet;
use vstd::prelude::*;

verus! {

broadcast use vstd::std_specs::hash::group_hash_axioms;

/// A replacement to be carried out.
#[derive(Debug)]
pub struct Replacement {
    /// The bird whose agent is copied.
    pub best: u32,
    /// The birds whose agents become copies.
    pub others: Vec<u32>,
    /// The birds that start again afterwards.
    pub snapshot: Vec<u32>,
}

/// Each member of the set once, in some order.
pub open spec fn lists(set: Set<u32>, list: Seq<u32>) -> bool {
    &&& list.no_duplicates()
    &&& forall|uid: u32| #[trigger] list.contains(uid) <==> set.contains(uid)
}

/// No agent scored higher.
pub open spec fn is_best(agents: Map<u32, GradientView>, best: u32) -> bool {
    &&& agents.contains_key(best)
    &&& forall|uid: u32| #[trigger]
        agents.contains_key(uid) ==> agents[uid].stats.total_score.rank()
            <= agents[best].stats.total_score.rank()
}

/// There are agents, and their scores can be told apart.
pub open spec fn comparable(agents: Map<u32, GradientView>) -> bool {
    &&& agents.len() > 0
    &&& agents.len() > 1 ==> forall|uid: u32| #[trigger]
        agents.contains_key(uid) ==> !agents[uid].stats.total_score.nan()
}

/// What is seen of a [`ReplacementState`].
pub open spec fn slot_view(slot: ReplacementState<Vec<u32>>) -> ReplacementState<Seq<u32>> {
    match slot {
        ReplacementState::Idle => ReplacementState::Idle,
        ReplacementState::InFlight => ReplacementState::InFlight,
        ReplacementState::Ready(list) => ReplacementState::Ready(list@),
    }
}

/// The replacement, the dead birds and the birds to be spawned.
pub struct Aftermath {
    pub slot: ReplacementState<Seq<u32>>,
    pub dead: Set<u32>,
    pub waiting: Seq<u32>,
}

/// What a frame without birds does, and which replacement it starts.
pub open spec fn frame(
    agents: Map<u32, GradientView>,
    before: Aftermath,
    started: Option<(u32, Seq<u32>, Seq<u32>)>,
    after: Aftermath,
) -> bool {
    match before.slot {
        ReplacementState::Ready(finalized) => {
            &&& started is None
            &&& after.slot is Idle
            &&& after.dead == Set::<u32>::empty()
            &&& after.waiting == finalized
        },
        ReplacementState::InFlight => started is None && after == before,
        ReplacementState::Idle => {
            &&& started matches Some((best, others, snapshot))
            &&& is_best(agents, best)
            &&& lists(agents.dom().remove(best), others)
            &&& lists(before.dead, snapshot)
            &&& after.slot is InFlight
            &&& after.dead == before.dead
            &&& after.waiting == before.waiting
        },
    }
}

/// Whether there are agents whose scores can be told apart.
pub fn can_compare(manager: &AgentManager) -> (r: bool)
    ensures
        r == comparable(manager@.agents),
{
    let ghost m = manager.inner@;
    let ghost mut listing: Seq<(u32, FlappyGradientAgent)> = Seq::empty();
    let mut numbers: bool = true;
    for (key, agent) in it: manager.inner.iter()
        invariant
            m == manager.inner@,
            listing.len() == it.index(),
            forall|i: int|
                #![trigger it.seq()[i]]
                #![trigger listing[i]]
                0 <= i < it.index() ==> listing[i] == (*it.seq()[i].0, *it.seq()[i].1),
            forall|i: int|
                0 <= i < it.seq().len() ==> m.contains_key(*(#[trigger] it.seq()[i]).0)
                    && m[*it.seq()[i].0] == *it.seq()[i].1,
            forall|k: u32| #[trigger] m.contains_key(k) ==> it.seq().contains((&k, &m[k])),
            numbers <==> forall|i: int|
                0 <= i < it.index() ==> !(#[trigger] listing[i]).1.stats.total_score.nan(),
    {
        let ghost before = listing;
        proof {
            listing = listing.push((*key, *agent));
            assert(listing[before.len() as int] == (*key, *agent));
            assert(forall|i: int|
                #![trigger listing[i]]
                #![trigger before[i]]
                0 <= i < before.len() ==> listing[i] == before[i]);
        }
        if agent.stats.total_score.is_nan() {
            numbers = false;
        }
    }
    proof {
        let agents = manager@.agents;
        assert(agents.dom() =~= m.dom());
        assert(numbers <==> forall|uid: u32| #[trigger]
            agents.contains_key(uid) ==> !agents[uid].stats.total_score.nan()) by {
            assert forall|uid: u32| #[trigger] agents.contains_key(uid) && numbers implies
                !agents[uid].stats.total_score.nan() by {
                assert(m.contains_key(uid));
                assert(listing.contains((uid, m[uid])));
                let i = listing.index_of((uid, m[uid]));
                assert(listing[i].1 == m[uid]);
            }
            assert forall|i: int|
                0 <= i < listing.len() && (forall|uid: u32| #[trigger]
                    agents.contains_key(uid) ==> !agents[uid].stats.total_score.nan())
                    implies !(#[trigger] listing[i]).1.stats.total_score.nan() by {
                assert(agents.contains_key(listing[i].0));
            }
        }
    }
    manager.inner.len() > 0 && (manager.inner.len() == 1 || numbers)
}

fn list_members(set: &HashSet<u32>) -> (r: Vec<u32>)
    ensures
        lists(set@, r@),
{
    let mut r: Vec<u32> = Vec::new();
    for key in it: set.iter()
        invariant
            it.seq().unref().to_set() == set@,
            it.seq().unref().no_duplicates(),
            r@ =~= it.seq().unref().take(it.index()),
            it.index() == it.seq().len() ==> r@ =~= it.seq().unref(),
    {
        r.push(*key);
    }
    r
}

fn best_agent(manager: &AgentManager) -> (r: Option<u32>)
    ensures
        r is None <==> manager@.agents.len() == 0,
        r matches Some(best) ==> is_best(manager@.agents, best),
{
    let mut best: Option<u32> = None;
    let mut top: i64 = 0;
    let ghost m = manager.inner@;
    let ghost mut listing: Seq<(u32, FlappyGradientAgent)> = Seq::empty();
    for (key, agent) in it: manager.inner.iter()
        invariant
            m == manager.inner@,
            listing.len() == it.index(),
            forall|i: int|
                #![trigger it.seq()[i]]
                #![trigger listing[i]]
                0 <= i < it.index() ==> listing[i] == (*it.seq()[i].0, *it.seq()[i].1),
            forall|i: int|
                0 <= i < it.seq().len() ==> m.contains_key(*(#[trigger] it.seq()[i]).0)
                    && m[*it.seq()[i].0] == *it.seq()[i].1,
            forall|k: u32| #[trigger] m.contains_key(k) ==> it.seq().contains((&k, &m[k])),
            it.index() == 0 ==> best is None,
            it.index() > 0 ==> best is Some,
            best matches Some(key) ==> m.contains_key(key)
                && m[key].stats.total_score.rank() == top,
            forall|i: int|
                0 <= i < it.index() ==> (#[trigger] listing[i]).1.stats.total_score.rank()
                    <= top,
    {
        let rank: i64 = agent.stats.total_score.get_rank();
        if best.is_none() || top <= rank {
            best = Some(*key);
            top = rank;
        }
        proof {
            listing = listing.push((*key, *agent));
        }
    }
    proof {
        assert(manager@.agents.dom() =~= m.dom());
        assert forall|uid: u32| #[trigger] manager@.agents.contains_key(uid) implies best is Some
            && manager@.agents[uid].stats.total_score.rank() <= top by {
            assert(m.contains_key(uid));
            assert(listing.contains((uid, m[uid])));
            let i = listing.index_of((uid, m[uid]));
            assert(listing[i].1 == m[uid]);
        }
        if best is None {
            assert(manager@.agents.dom() =~= Set::empty());
        } else {
            assert(manager@.agents.contains_key(best->0));
            assert(manager@.agents.dom().len() > 0);
        }
    }
    best
}

fn others_than(manager: &AgentManager, best: u32) -> (r: Vec<u32>)
    ensures
        lists(manager@.agents.dom().remove(best), r@),
{
    let mut r: Vec<u32> = Vec::new();
    let ghost m = manager.inner@;
    let ghost mut visited: Seq<u32> = Seq::empty();
    for key in it: manager.inner.keys()
        invariant
            it.seq().unref().to_set() == m.dom(),
            it.seq().unref().no_duplicates(),
            visited =~= it.seq().unref().take(it.index()),
            it.index() == it.seq().len() ==> visited =~= it.seq().unref(),
            r@.no_duplicates(),
            forall|uid: u32| #[trigger]
                r@.contains(uid) <==> uid != best && visited.contains(uid),
    {
        let ghost before = r@;
        let ghost known = visited;
        proof {
            assert(!known.contains(*key));
            assert(!before.contains(*key));
            visited = visited.push(*key);
            assert(visited[known.len() as int] == *key);
        }
        if *key != best {
            r.push(*key);
            proof {
                assert(r@[before.len() as int] == *key);
            }
        }
        proof {
            assert forall|uid: u32| #[trigger] r@.contains(uid) <==> uid != best
                && visited.contains(uid) by {
                if before.contains(uid) {
                    assert(r@[before.index_of(uid)] == uid);
                }
                if known.contains(uid) {
                    assert(visited[known.index_of(uid)] == uid);
                }
                if visited.contains(uid) && uid != *key {
                    assert(known[visited.index_of(uid)] == uid);
                }
                if r@.contains(uid) && uid != *key {
                    assert(before[r@.index_of(uid)] == uid);
                }
            }
        }
    }
    proof {
        assert(manager@.agents.dom() =~= m.dom());
    }
    r
}

/// The slot, the registry and the inventory together.
pub open spec fn aftermath(
    slot: ReplacementState<Vec<u32>>,
    registry: DeadBirdRegistry,
    inventory: BirdInventory,
) -> Aftermath {
    Aftermath { slot: slot_view(slot), dead: registry@, waiting: inventory.0@ }
}

/// A frame without birds.  If a replacement is done, its birds may be spawned and
/// nobody is dead any more.  If one is under way, nothing happens.  Otherwise one
/// is to be carried out: it is returned.
pub fn run_forwards_and_optims(
    registry: &mut DeadBirdRegistry,
    manager: &AgentManager,
    slot: &mut ReplacementState<Vec<u32>>,
    live_inventory: &mut BirdInventory,
) -> (r: Option<Replacement>)
    requires
        *old(slot) is Idle ==> comparable(manager@.agents),
    ensures
        frame(
            manager@.agents,
            aftermath(*old(slot), *old(registry), *old(live_inventory)),
            (match r {
                Some(started) => Some((started.best, started.others@, started.snapshot@)),
                None => None,
            }),
            aftermath(*final(slot), *final(registry), *final(live_inventory)),
        ),
{
    match &*slot {
        ReplacementState::Ready(finalized) => {
            live_inventory.0 = finalized.clone();
            proof {
                assert(live_inventory.0@ =~= finalized@);
            }
            registry.0.clear();
            *slot = ReplacementState::Idle;
            return None;
        },
        ReplacementState::InFlight => {
            return None;
        },
        ReplacementState::Idle => {},
    }
    match best_agent(manager) {
        Some(best) => {
            let others: Vec<u32> = others_than(manager, best);
            let snapshot: Vec<u32> = list_members(&registry.0);
            *slot = ReplacementState::InFlight;
            Some(Replacement { best, others, snapshot })
        },
        None => None,
    }
}

/// The replacement was carried out.
pub fn stage_replacement(slot: &mut ReplacementState<Vec<u32>>, snapshot: Vec<u32>)
    ensures
        *final(slot) == ReplacementState::Ready(snapshot),
{
    *slot = ReplacementState::Ready(snapshot);
}

/// The dead come back: if a replacement is started in one frame, is carried out
/// after some frames more, and is found done in a later one, then exactly the
/// birds that were dead when it started wait to be spawned, each once; nobody is
/// dead any more; and the next replacement may start.
pub proof fn law_the_dead_come_back(
    agents: Map<u32, GradientView>,
    later: Map<u32, GradientView>,
    start: Aftermath,
    started: (u32, Seq<u32>, Seq<u32>),
    under_way: Aftermath,
    done: Aftermath,
    end: Aftermath,
)
    requires
        start.slot is Idle,
        frame(agents, start, Some(started), under_way),
        done.slot == ReplacementState::Ready(started.2),
        frame(later, done, None, end),
    ensures
        lists(start.dead, end.waiting),
        end.dead == Set::<u32>::empty(),
        end.slot is Idle,
{
}

/// The dead and the waiting birds are touched only in a frame that finds a
/// replacement done.
pub proof fn law_only_a_finished_replacement_counts(
    agents: Map<u32, GradientView>,
    before: Aftermath,
    started: Option<(u32, Seq<u32>, Seq<u32>)>,
    after: Aftermath,
)
    requires
        frame(agents, before, started, after),
        !(before.slot is Ready),
    ensures
        after.dead == before.dead,
        after.waiting == before.waiting,
{
}

/// A series of frames without birds.
pub open spec fn frames(
    agents: Map<u32, GradientView>,
    states: Seq<Aftermath>,
    started: Seq<Option<(u32, Seq<u32>, Seq<u32>)>>,
) -> bool {
    &&& states.len() == started.len() + 1
    &&& forall|k: int|
        0 <= k < started.len() ==> frame(
            agents,
            states[k],
            #[trigger] started[k],
            states[k + 1],
        )
}

/// No replacement is started while one is under way, however many frames that
/// takes, and meanwhile nothing changes.
pub proof fn law_one_replacement_at_a_time(
    agents: Map<u32, GradientView>,
    states: Seq<Aftermath>,
    started: Seq<Option<(u32, Seq<u32>, Seq<u32>)>>,
    k: int,
)
    requires
        frames(agents, states, started),
        states[0].slot is InFlight,
        0 <= k < started.len(),
    ensures
        started[k] is None,
        states[k + 1] == states[0],
    decreases k,
{
    if k > 0 {
        law_one_replacement_at_a_time(agents, states, started, k - 1);
    }
    assert(frame(agents, states[k], started[k], states[k + 1]));
}

/// The best agent and those that become copies of it are all the agents there
/// are, and the best is none of the others.
pub proof fn law_every_agent_takes_part(
    agents: Map<u32, GradientView>,
    before: Aftermath,
    started: (u32, Seq<u32>, Seq<u32>),
    after: Aftermath,
    uid: u32,
)
    requires
        frame(agents, before, Some(started), after),
    ensures
        agents.contains_key(uid) <==> uid == started.0 || started.1.contains(uid),
        !started.1.contains(started.0),
{
}

/// The agent that is copied scored no lower than any other: a replacement is started
/// by a frame that finds none, and it lists each of the other agents once, and each
/// of the dead birds once.
pub proof fn law_what_a_replacement_says(
    agents: Map<u32, GradientView>,
    before: Aftermath,
    started: Option<(u32, Seq<u32>, Seq<u32>)>,
    after: Aftermath,
    uid: u32,
    i: int,
    j: int,
)
    requires
        frame(agents, before, started, after),
    ensures
        started is Some <==> before.slot is Idle,
        started matches Some((best, others, snapshot)) ==> {
            &&& agents.contains_key(best)
            &&& agents.contains_key(uid) ==> !agents[best].stats.total_score.below(
                agents[uid].stats.total_score,
            )
            &&& others.contains(uid) <==> agents.contains_key(uid) && uid != best
            &&& 0 <= i < j < others.len() ==> others[i] != others[j]
            &&& snapshot.contains(uid) <==> before.dead.contains(uid)
            &&& 0 <= i < j < snapshot.len() ==> snapshot[i] != snapshot[j]
        },
{
}

/// How far a replacement is after a frame: one that is started is under way, one
/// that is under way stays so, and one that is done is over, with its birds waiting
/// in the order that was set aside and nobody dead.
pub proof fn law_how_a_replacement_goes_on(
    agents: Map<u32, GradientView>,
    before: Aftermath,
    started: Option<(u32, Seq<u32>, Seq<u32>)>,
    after: Aftermath,
    uid: u32,
)
    requires
        frame(agents, before, started, after),
    ensures
        before.slot is Idle ==> after.slot is InFlight,
        before.slot is InFlight ==> after.slot is InFlight,
        before.slot matches ReplacementState::Ready(birds) ==> {
            &&& after.slot is Idle
            &&& after.waiting == birds
            &&& !after.dead.contains(uid)
        },
        !(before.slot is Ready) ==> after.waiting == before.waiting && (after.dead.contains(uid)
            <==> before.dead.contains(uid)),
{
}

/// Scores can be told apart if there is one agent, or several whose scores are all
/// numbers.
pub proof fn law_when_scores_compare(agents: Map<u32, GradientView>, uid: u32)
    requires
        agents.dom().finite(),
        agents.contains_key(uid),
    ensures
        agents.len() == 1 ==> comparable(agents),
        agents.len() > 1 && agents[uid].stats.total_score.nan() ==> !comparable(agents),
        (forall|k: u32| #[trigger]
            agents.contains_key(k) ==> !agents[k].stats.total_score.nan()) ==> comparable(agents),
{
    assert(agents.dom().contains(uid));
}

} // verus!

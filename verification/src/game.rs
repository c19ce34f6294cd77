//! The rules of the game.
//!
//! Where things are and what touches what is measured by the caller; the rules
//! say what follows from it.

use crate::order::{
    lemma_where_true, lemma_where_true_len, lemma_where_true_same, lemma_where_true_step, positions,
    where_true,
};
use crate::player::{Bird, BirdInventory, PointsGate, Score, SpawnPoint, Velocity};
use crate::scalar::{lemma_single_nearest, Single};
use crate::text::{decimal, number};
use vstd::arithmetic::power2::{lemma2_to64, pow2};
use vstd::prelude::*;

verus! {

/// How many birds start.
pub const FLOCK: u32 = 5;

/// What follows from leaving the canvas.
#[derive(Clone, Copy, Debug, PartialEq, Eq, Structural)]
pub enum Fall {
    /// The player's game is over.
    EndGame,
    /// A bird is dead.
    BirdDeath,
}

/// Below the canvas or above it.
pub open spec fn outside(y: Single, lower: Single, upper: Single) -> bool {
    y.below(lower) || upper.below(y)
}

/// A bird outside the canvas dies; the player's bird ends the game.
pub fn check_in_bounds(
    bird: &mut Bird,
    is_player: bool,
    y: Single,
    lower: Single,
    upper: Single,
) -> (r: Option<Fall>)
    ensures
        r == (if !outside(y, lower, upper) {
            None
        } else if is_player {
            Some(Fall::EndGame)
        } else {
            Some(Fall::BirdDeath)
        }),
        *final(bird) == (Bird {
            dead: old(bird).dead || outside(y, lower, upper),
            ..*old(bird)
        }),
        r is Some <==> y.below(lower) || upper.below(y),
        final(bird).dead == (old(bird).dead || y.below(lower) || upper.below(y)),
{
    if y.is_below(&lower) || upper.is_below(&y) {
        bird.dead = true;
        if is_player {
            Some(Fall::EndGame)
        } else {
            Some(Fall::BirdDeath)
        }
    } else {
        None
    }
}

/// How often `hits` holds.
pub open spec fn tally(hits: Seq<bool>) -> nat {
    where_true(hits.len(), |i: int| hits[i]).len()
}

/// The birds that scored at each gate.
pub open spec fn gate_views(gates: Seq<PointsGate>) -> Seq<Seq<u32>> {
    gates.map_values(|g: PointsGate| g.has_scored@)
}

/// The bird is in the gap and is not noted there.
pub open spec fn scores_at(gates: Seq<Seq<u32>>, hits: Seq<bool>, uid: u32, g: int) -> bool {
    hits[g] && !gates[g].contains(uid)
}

/// What a bird scores in a frame.
pub open spec fn points(gates: Seq<Seq<u32>>, hits: Seq<bool>, uid: u32) -> nat {
    where_true(gates.len(), |g: int| scores_at(gates, hits, uid, g)).len()
}

/// The gates after the bird scored.
pub open spec fn marked(gates: Seq<Seq<u32>>, hits: Seq<bool>, uid: u32) -> Seq<Seq<u32>> {
    Seq::new(
        gates.len(),
        |g: int|
            if scores_at(gates, hits, uid, g) {
                gates[g].push(uid)
            } else {
                gates[g]
            },
    )
}

/// How often a bird is told that it died.  The player's bird passes through
/// pipes.
pub open spec fn deaths(is_player: bool, pipe_hits: Seq<bool>) -> nat {
    if is_player {
        0
    } else {
        tally(pipe_hits)
    }
}

/// A bird after a frame.
pub open spec fn collided(
    bird: Bird,
    is_player: bool,
    pipe_hits: Seq<bool>,
    gates: Seq<Seq<u32>>,
    gate_hits: Seq<bool>,
) -> Bird {
    let struck = deaths(is_player, pipe_hits) > 0;
    Bird {
        uid: bird.uid,
        dead: bird.dead || struck,
        score: (bird.score + points(gates, gate_hits, bird.uid)) as u32,
        pipe_death: bird.pipe_death || struck,
    }
}

/// The gates once the first `n` birds had their turn.
pub open spec fn gates_after(
    gates: Seq<Seq<u32>>,
    birds: Seq<Bird>,
    gate_hits: Seq<Vec<bool>>,
    n: nat,
) -> Seq<Seq<u32>>
    decreases n,
{
    if n == 0 {
        gates
    } else {
        let before = gates_after(gates, birds, gate_hits, (n - 1) as nat);
        marked(before, gate_hits[n - 1]@, birds[n - 1].uid)
    }
}

/// The birds after all of them met the pipes and the gates.
pub open spec fn birds_after(
    birds: Seq<Bird>,
    players: Seq<bool>,
    pipe_hits: Seq<Vec<bool>>,
    gates: Seq<Seq<u32>>,
    gate_hits: Seq<Vec<bool>>,
) -> Seq<Bird> {
    Seq::new(
        birds.len(),
        |i: int|
            collided(
                birds[i],
                players[i],
                pipe_hits[i]@,
                gates_after(gates, birds, gate_hits, i as nat),
                gate_hits[i]@,
            ),
    )
}

/// The score of a bird has room for what it makes when its turn comes.
pub open spec fn score_fits(
    birds: Seq<Bird>,
    gates: Seq<Seq<u32>>,
    gate_hits: Seq<Vec<bool>>,
    i: int,
) -> bool {
    birds[i].score + points(
        gates_after(gates, birds, gate_hits, i as nat),
        gate_hits[i]@,
        birds[i].uid,
    ) <= u32::MAX
}

/// The scores have room for what all birds make.
pub open spec fn scores_fit(
    birds: Seq<Bird>,
    gates: Seq<Seq<u32>>,
    gate_hits: Seq<Vec<bool>>,
) -> bool {
    forall|i: int| 0 <= i < birds.len() ==> #[trigger] score_fits(birds, gates, gate_hits, i)
}

/// Lets one bird meet the pipes and the gates; says how often it is told that it
/// died, once for each pipe.
pub fn collide(
    bird: &mut Bird,
    is_player: bool,
    pipe_hits: &Vec<bool>,
    gates: &mut Vec<PointsGate>,
    gate_hits: &Vec<bool>,
) -> (r: usize)
    requires
        gate_hits@.len() == old(gates)@.len(),
        old(bird).score + points(gate_views(old(gates)@), gate_hits@, old(bird).uid) <= u32::MAX,
    ensures
        r == deaths(is_player, pipe_hits@),
        !is_player && (exists|i: int| 0 <= i < pipe_hits@.len() && #[trigger] pipe_hits@[i])
            ==> final(bird).dead && final(bird).pipe_death && r > 0,
        is_player || (forall|i: int| 0 <= i < pipe_hits@.len() ==> !(#[trigger] pipe_hits@[i]))
            ==> final(bird).dead == old(bird).dead && final(bird).pipe_death == old(
            bird,
        ).pipe_death && r == 0,
        final(bird).uid == old(bird).uid,
        *final(bird) == collided(
            *old(bird),
            is_player,
            pipe_hits@,
            gate_views(old(gates)@),
            gate_hits@,
        ),
        gate_views(final(gates)@) == marked(gate_views(old(gates)@), gate_hits@, old(bird).uid),
{
    let ghost born = *bird;
    let ghost before = gate_views(gates@);
    let mut told: usize = 0;
    let mut i: usize = 0;
    let ghost hit = |k: int| pipe_hits@[k];
    proof {
        assert(where_true(0, hit) =~= Seq::empty()) by {
            reveal(Seq::filter);
        }
    }
    while i < pipe_hits.len()
        invariant
            i <= pipe_hits@.len(),
            hit == (|k: int| pipe_hits@[k]),
            told == (if is_player {
                0
            } else {
                where_true(i as nat, hit).len()
            }),
            told <= i,
            *bird == (Bird {
                dead: born.dead || told > 0,
                pipe_death: born.pipe_death || told > 0,
                ..born
            }),
        decreases pipe_hits@.len() - i,
    {
        proof {
            lemma_where_true_step(i as nat, hit);
        }
        if pipe_hits[i] && !is_player {
            bird.dead = true;
            bird.pipe_death = true;
            told = told + 1;
        }
        i = i + 1;
    }
    let ghost struck = *bird;
    let uid: u32 = bird.uid;
    let ghost fits = |g: int| scores_at(before, gate_hits@, uid, g);
    proof {
        assert(where_true(0, fits) =~= Seq::empty()) by {
            reveal(Seq::filter);
        }
    }
    let mut g: usize = 0;
    while g < gates.len()
        invariant
            g <= gates@.len(),
            gates@.len() == before.len(),
            gate_hits@.len() == before.len(),
            uid == struck.uid,
            fits == (|k: int| scores_at(before, gate_hits@, uid, k)),
            struck.score + where_true(before.len(), fits).len() <= u32::MAX,
            *bird == (Bird {
                score: (struck.score + where_true(g as nat, fits).len()) as u32,
                ..struck
            }),
            forall|k: int|
                0 <= k < g ==> (#[trigger] gates@[k]).has_scored@ == marked(
                    before,
                    gate_hits@,
                    uid,
                )[k],
            forall|k: int|
                g <= k < gates@.len() ==> (#[trigger] gates@[k]).has_scored@ == before[k],
        decreases gates@.len() - g,
    {
        proof {
            lemma_where_true_step(g as nat, fits);
            lemma_where_true_len((g + 1) as nat, before.len(), fits);
        }
        if gate_hits[g] && !holds(&gates[g].has_scored, uid) {
            bird.score = bird.score + 1;
            gates[g].has_scored.push(uid);
        }
        g = g + 1;
    }
    proof {
        assert(gate_views(gates@) =~= marked(before, gate_hits@, uid));
        lemma_deaths(is_player, pipe_hits@);
    }
    told
}

proof fn lemma_deaths(is_player: bool, pipe_hits: Seq<bool>)
    ensures
        deaths(is_player, pipe_hits) > 0 <==> !is_player && exists|i: int|
            0 <= i < pipe_hits.len() && #[trigger] pipe_hits[i],
{
    let hit = |i: int| pipe_hits[i];
    let found = where_true(pipe_hits.len(), hit);
    lemma_where_true(pipe_hits.len(), hit);
    if found.len() > 0 {
        assert(found.contains(found[0]));
        assert(pipe_hits[found[0]]);
    }
    if exists|i: int| 0 <= i < pipe_hits.len() && #[trigger] pipe_hits[i] {
        let i = choose|i: int| 0 <= i < pipe_hits.len() && #[trigger] pipe_hits[i];
        assert(hit(i));
        assert(found.contains(i));
    }
}

fn holds(v: &Vec<u32>, uid: u32) -> (r: bool)
    ensures
        r == v@.contains(uid),
{
    let mut i: usize = 0;
    while i < v.len()
        invariant
            i <= v@.len(),
            forall|k: int| 0 <= k < i ==> v@[k] != uid,
        decreases v@.len() - i,
    {
        if v[i] == uid {
            return true;
        }
        i = i + 1;
    }
    false
}

/// Lets all birds meet the pipes and the gates, one bird after the other; says of
/// each how often it is told that it died.
pub fn check_collisions(
    birds: &mut Vec<Bird>,
    players: &Vec<bool>,
    pipe_hits: &Vec<Vec<bool>>,
    gates: &mut Vec<PointsGate>,
    gate_hits: &Vec<Vec<bool>>,
) -> (r: Vec<usize>)
    requires
        players@.len() == old(birds)@.len(),
        pipe_hits@.len() == old(birds)@.len(),
        gate_hits@.len() == old(birds)@.len(),
        forall|i: int|
            0 <= i < gate_hits@.len() ==> (#[trigger] gate_hits@[i])@.len() == old(gates)@.len(),
        scores_fit(old(birds)@, gate_views(old(gates)@), gate_hits@),
    ensures
        r@.len() == old(birds)@.len(),
        forall|i: int|
            0 <= i < r@.len() ==> #[trigger] r@[i] == deaths(players@[i], pipe_hits@[i]@),
        final(birds)@ == birds_after(
            old(birds)@,
            players@,
            pipe_hits@,
            gate_views(old(gates)@),
            gate_hits@,
        ),
        gate_views(final(gates)@) == gates_after(
            gate_views(old(gates)@),
            old(birds)@,
            gate_hits@,
            old(birds)@.len(),
        ),
        final(birds)@.len() == old(birds)@.len(),
        forall|i: int|
            #![trigger final(birds)@[i]]
            0 <= i < old(birds)@.len() ==> {
                let (before, after) = (old(birds)@[i], final(birds)@[i]);
                let hit = exists|k: int|
                    0 <= k < pipe_hits@[i]@.len() && #[trigger] pipe_hits@[i]@[k];
                &&& after.uid == before.uid
                &&& after.dead == (before.dead || (hit && !players@[i]))
                &&& after.pipe_death == (before.pipe_death || (hit && !players@[i]))
                &&& after.score >= before.score
            },
{
    let ghost flock = birds@;
    let ghost start = gate_views(gates@);
    let mut r: Vec<usize> = Vec::new();
    let mut i: usize = 0;
    while i < birds.len()
        invariant
            i <= birds@.len(),
            birds@.len() == flock.len(),
            players@.len() == flock.len(),
            pipe_hits@.len() == flock.len(),
            gate_hits@.len() == flock.len(),
            gates@.len() == start.len(),
            forall|k: int|
                0 <= k < gate_hits@.len() ==> (#[trigger] gate_hits@[k])@.len() == start.len(),
            scores_fit(flock, start, gate_hits@),
            r@.len() == i,
            forall|k: int|
                0 <= k < i ==> #[trigger] r@[k] == deaths(players@[k], pipe_hits@[k]@),
            forall|k: int|
                0 <= k < i ==> #[trigger] birds@[k] == collided(
                    flock[k],
                    players@[k],
                    pipe_hits@[k]@,
                    gates_after(start, flock, gate_hits@, k as nat),
                    gate_hits@[k]@,
                ),
            forall|k: int| i <= k < flock.len() ==> #[trigger] birds@[k] == flock[k],
            gate_views(gates@) == gates_after(start, flock, gate_hits@, i as nat),
        decreases birds@.len() - i,
    {
        let mut bird: Bird = birds[i];
        proof {
            assert(score_fits(flock, start, gate_hits@, i as int));
        }
        let told: usize = collide(&mut bird, players[i], &pipe_hits[i], gates, &gate_hits[i]);
        proof {
            assert(gate_views(gates@).len() == gates@.len());
            assert(gates_after(start, flock, gate_hits@, (i + 1) as nat) == marked(
                gates_after(start, flock, gate_hits@, i as nat),
                gate_hits@[i as int]@,
                flock[i as int].uid,
            ));
        }
        birds.set(i, bird);
        r.push(told);
        i = i + 1;
    }
    proof {
        assert forall|k: int| 0 <= k < flock.len() implies {
            let (before, after) = (flock[k], #[trigger] birds@[k]);
            let hit = exists|p: int|
                0 <= p < pipe_hits@[k]@.len() && #[trigger] pipe_hits@[k]@[p];
            &&& after.uid == before.uid
            &&& after.dead == (before.dead || (hit && !players@[k]))
            &&& after.pipe_death == (before.pipe_death || (hit && !players@[k]))
            &&& after.score >= before.score
        } by {
            lemma_deaths(players@[k], pipe_hits@[k]@);
            assert(score_fits(flock, start, gate_hits@, k));
        }
    }
    r
}

/// One of the first `n` birds has this number and touches the gap.
pub open spec fn touched_before(
    birds: Seq<Bird>,
    gate_hits: Seq<Vec<bool>>,
    n: int,
    g: int,
    uid: u32,
) -> bool {
    exists|j: int| 0 <= j < n && (#[trigger] birds[j]).uid == uid && gate_hits[j]@[g]
}

fn find_earlier(
    birds: &Vec<Bird>,
    gate_hits: &Vec<Vec<bool>>,
    n: usize,
    g: usize,
    uid: u32,
) -> (r: bool)
    requires
        n <= birds@.len(),
        gate_hits@.len() == birds@.len(),
        forall|i: int| 0 <= i < gate_hits@.len() ==> g < (#[trigger] gate_hits@[i])@.len(),
    ensures
        r == touched_before(birds@, gate_hits@, n as int, g as int, uid),
{
    let mut j: usize = 0;
    while j < n
        invariant
            j <= n <= birds@.len(),
            gate_hits@.len() == birds@.len(),
            forall|i: int| 0 <= i < gate_hits@.len() ==> g < (#[trigger] gate_hits@[i])@.len(),
            !touched_before(birds@, gate_hits@, j as int, g as int, uid),
        decreases n - j,
    {
        proof {
            assert(g < gate_hits@[j as int]@.len());
        }
        if birds[j].uid == uid && gate_hits[j][g] {
            proof {
                assert(birds@[j as int].uid == uid);
            }
            return true;
        }
        j = j + 1;
    }
    false
}

/// Whether the scores have room for what all birds make.
pub fn have_room(birds: &Vec<Bird>, gates: &Vec<PointsGate>, gate_hits: &Vec<Vec<bool>>) -> (r:
    bool)
    requires
        gate_hits@.len() == birds@.len(),
        forall|i: int|
            0 <= i < gate_hits@.len() ==> (#[trigger] gate_hits@[i])@.len() == gates@.len(),
    ensures
        r == scores_fit(birds@, gate_views(gates@), gate_hits@),
{
    let ghost views = gate_views(gates@);
    let mut i: usize = 0;
    while i < birds.len()
        invariant
            i <= birds@.len(),
            views == gate_views(gates@),
            gate_hits@.len() == birds@.len(),
            forall|k: int|
                0 <= k < gate_hits@.len() ==> (#[trigger] gate_hits@[k])@.len() == gates@.len(),
            forall|k: int| 0 <= k < i ==> #[trigger] score_fits(birds@, views, gate_hits@, k),
        decreases birds@.len() - i,
    {
        let uid: u32 = birds[i].uid;
        let ghost now = gates_after(views, birds@, gate_hits@, i as nat);
        let ghost fits = |g: int| scores_at(now, gate_hits@[i as int]@, uid, g);
        let mut room: u32 = u32::MAX - birds[i].score;
        let mut full: bool = false;
        let mut g: usize = 0;
        proof {
            lemma_gates_after_len(views, birds@, gate_hits@, i as nat);
            lemma_where_true_len(0, 0, fits);
        }
        while g < gates.len()
            invariant
                g <= gates@.len(),
                i < birds@.len(),
                views == gate_views(gates@),
                gate_hits@.len() == birds@.len(),
                forall|k: int|
                    0 <= k < gate_hits@.len() ==> (#[trigger] gate_hits@[k])@.len() == gates@.len(),
                uid == birds@[i as int].uid,
                now == gates_after(views, birds@, gate_hits@, i as nat),
                now.len() == gates@.len(),
                fits == (|g: int| scores_at(now, gate_hits@[i as int]@, uid, g)),
                full <==> birds@[i as int].score + where_true(g as nat, fits).len() > u32::MAX,
                !full ==> birds@[i as int].score + where_true(g as nat, fits).len() + room
                    == u32::MAX,
            decreases gates@.len() - g,
        {
            proof {
                lemma_noted(views, birds@, gate_hits@, i as nat, g as int, uid);
                lemma_where_true_step(g as nat, fits);
                assert(gate_hits@[i as int]@.len() == gates@.len());
            }
            if gate_hits[i][g] && !holds(&gates[g].has_scored, uid) && !find_earlier(
                birds,
                gate_hits,
                i,
                g,
                uid,
            ) {
                if room == 0 {
                    full = true;
                } else {
                    room = room - 1;
                }
            }
            g = g + 1;
        }
        if full {
            proof {
                assert(!score_fits(birds@, views, gate_hits@, i as int));
            }
            return false;
        }
        proof {
            assert(score_fits(birds@, views, gate_hits@, i as int));
        }
        i = i + 1;
    }
    true
}

/// `best` is the highest score; there is none without birds.
pub open spec fn is_best_score(birds: Seq<Bird>, best: Option<u32>) -> bool {
    match best {
        None => birds.len() == 0,
        Some(best) => {
            &&& exists|i: int| 0 <= i < birds.len() && (#[trigger] birds[i]).score == best
            &&& forall|i: int| 0 <= i < birds.len() ==> (#[trigger] birds[i]).score <= best
        },
    }
}

/// The highest score, written out; nothing to show without birds.
pub fn best_bird(birds: &Vec<Bird>) -> (r: Option<String>)
    ensures
        r is Some <==> birds@.len() > 0,
        r matches Some(text) ==> exists|best: u32|
            #[trigger] is_best_score(birds@, Some(best)) && text@ == decimal(best as nat),
{
    if birds.len() == 0 {
        return None;
    }
    let mut best: u32 = birds[0].score;
    let mut i: usize = 1;
    while i < birds.len()
        invariant
            1 <= i <= birds@.len(),
            exists|k: int| 0 <= k < i && (#[trigger] birds@[k]).score == best,
            forall|k: int| 0 <= k < i ==> (#[trigger] birds@[k]).score <= best,
        decreases birds@.len() - i,
    {
        if birds[i].score > best {
            best = birds[i].score;
        }
        i = i + 1;
    }
    proof {
        assert(is_best_score(birds@, Some(best)));
    }
    Some(number(best as u64))
}

/// The positions of the dead birds, which leave the game.
pub fn despawn_deads(birds: &Vec<Bird>) -> (r: Vec<usize>)
    ensures
        positions(r@) == where_true(birds@.len(), |i: int| birds@[i].dead),
        forall|k: int|
            0 <= k < r@.len() ==> #[trigger] r@[k] < birds@.len() && birds@[r@[k] as int].dead,
        forall|i: int|
            0 <= i < birds@.len() && (#[trigger] birds@[i]).dead ==> r@.contains(i as usize),
{
    let mut r: Vec<usize> = Vec::new();
    let mut i: usize = 0;
    let ghost dead = |i: int| birds@[i].dead;
    proof {
        assert(where_true(0, dead) =~= Seq::empty()) by {
            reveal(Seq::filter);
        }
        assert(positions(r@) =~= Seq::<int>::empty());
    }
    while i < birds.len()
        invariant
            i <= birds@.len(),
            dead == (|i: int| birds@[i].dead),
            positions(r@) == where_true(i as nat, dead),
        decreases birds@.len() - i,
    {
        let ghost before = r@;
        proof {
            lemma_where_true_step(i as nat, dead);
        }
        if birds[i].dead {
            r.push(i);
            proof {
                assert(positions(r@) =~= positions(before).push(i as int));
            }
        }
        i = i + 1;
    }
    proof {
        let found = positions(r@);
        lemma_where_true(birds@.len(), dead);
        assert forall|k: int| 0 <= k < r@.len() implies #[trigger] r@[k] < birds@.len()
            && birds@[r@[k] as int].dead by {
            assert(found[k] == r@[k]);
            assert(found.contains(found[k]));
        }
        assert forall|b: int| 0 <= b < birds@.len() && (#[trigger] birds@[b]).dead implies
            r@.contains(b as usize) by {
            assert(dead(b));
            assert(found.contains(b));
            let k = found.index_of(b);
            assert(r@[k] == b);
        }
    }
    r
}

/// Something stands where birds start.
pub open spec fn obstructed(pipe_hits: Seq<bool>, gap_hits: Seq<bool>) -> bool {
    pipe_hits.contains(true) || gap_hits.contains(true)
}

fn any(hits: &Vec<bool>) -> (r: bool)
    ensures
        r == hits@.contains(true),
{
    let mut i: usize = 0;
    while i < hits.len()
        invariant
            i <= hits@.len(),
            forall|k: int| 0 <= k < i ==> !hits@[k],
        decreases hits@.len() - i,
    {
        if hits[i] {
            return true;
        }
        i = i + 1;
    }
    false
}

/// Hatches every bird of the inventory, unless something stands where they
/// start.
pub fn bird_respawn(
    inventory: &mut BirdInventory,
    pipe_hits: &Vec<bool>,
    gap_hits: &Vec<bool>,
) -> (r: Vec<(Bird, SpawnPoint)>)
    ensures
        obstructed(pipe_hits@, gap_hits@) ==> r@.len() == 0 && final(inventory).0@ == old(
            inventory,
        ).0@,
        !obstructed(pipe_hits@, gap_hits@) ==> final(inventory).0@.len() == 0 && r@ == old(
            inventory,
        ).0@.map_values(|uid: u32| (Bird::hatched(uid), SpawnPoint::usual())),
        !obstructed(pipe_hits@, gap_hits@) ==> r@.len() == old(inventory).0@.len() && forall|i: int|
            0 <= i < r@.len() ==> (#[trigger] r@[i]).0.uid == old(inventory).0@[i] && !r@[i].0.dead
                && r@[i].0.score == 0,
{
    let mut r: Vec<(Bird, SpawnPoint)> = Vec::new();
    if any(pipe_hits) || any(gap_hits) {
        return r;
    }
    let ghost all = inventory.0@.map_values(
        |uid: u32| (Bird::hatched(uid), SpawnPoint::usual()),
    );
    let mut i: usize = 0;
    while i < inventory.0.len()
        invariant
            i <= inventory.0@.len(),
            all == inventory.0@.map_values(
                |uid: u32| (Bird::hatched(uid), SpawnPoint::usual()),
            ),
            r@ =~= all.take(i as int),
        decreases inventory.0@.len() - i,
    {
        r.push(Bird::new(false, inventory.0[i]));
        i = i + 1;
    }
    inventory.0.clear();
    proof {
        assert(r@ =~= all);
    }
    r
}

/// The birds that the game starts with.
pub fn spawn_birds() -> (r: Vec<(Bird, SpawnPoint)>)
    ensures
        r@ == Seq::new(
            FLOCK as nat,
            |i: int| (Bird::hatched(i as u32), SpawnPoint::usual()),
        ),
        r@.len() == 5,
        forall|i: int|
            0 <= i < 5 ==> (#[trigger] r@[i]).0.uid == i && !r@[i].0.dead && r@[i].0.score == 0,
{
    let mut r: Vec<(Bird, SpawnPoint)> = Vec::new();
    let mut n: u32 = 0;
    while n < FLOCK
        invariant
            n <= FLOCK,
            r@ =~= Seq::new(n as nat, |i: int| (Bird::hatched(i as u32), SpawnPoint::usual())),
        decreases FLOCK - n,
    {
        r.push(Bird::new(false, n));
        n = n + 1;
    }
    r
}

/// The player's game is over: the score starts anew, and the player's bird, if
/// there is one, from the usual place.
pub fn respawn_on_endgame(has_player: bool, score: &mut Score) -> (r: Option<SpawnPoint>)
    ensures
        r == (if has_player {
            Some(SpawnPoint::usual())
        } else {
            None
        }),
        final(score).0 == (if has_player {
            0
        } else {
            old(score).0
        }),
{
    if has_player {
        score.0 = 0;
        Some(SpawnPoint { divisor: 4, height: 0 })
    } else {
        None
    }
}

/// The player scored.
pub fn on_score_point(score: &mut Score)
    requires
        old(score).0 < u32::MAX,
    ensures
        final(score).0 == old(score).0 + 1,
{
    score.0 = score.0 + 1;
}

/// The player's bird jumps as soon as a mouse button goes down.
pub fn controls(has_player: bool, left: bool, right: bool) -> (jump: bool)
    ensures
        jump == (has_player && (left || right)),
{
    has_player && (left || right)
}

/// The space bar stops the clock and lets it go on; says whether it is stopped.
pub fn toggle_pause(paused: bool, space: bool) -> (r: bool)
    ensures
        r == (paused != space),
{
    if space {
        !paused
    } else {
        paused
    }
}

/// A jump: whatever the bird's speed was, it rises.
pub fn on_bird_jump(velocity: &mut Velocity)
    ensures
        final(velocity).0.nearest(300, 1),
{
    let rise: Single = Single { bits: 0x4396_0000 };
    proof {
        lemma2_to64();
        lemma_single_nearest(rise, 300, 1, 15, pow2(15) as int);
    }
    velocity.0 = rise;
}

/// In a frame a bird scores exactly at the gates where it is noted that it did:
/// those that hold it afterwards and did not before.
pub proof fn law_points_are_noted(gates: Seq<Seq<u32>>, hits: Seq<bool>, uid: u32)
    ensures
        points(gates, hits, uid) == where_true(
            gates.len(),
            |g: int| marked(gates, hits, uid)[g].contains(uid) && !gates[g].contains(uid),
        ).len(),
{
    let scored = |g: int| scores_at(gates, hits, uid, g);
    let noted = |g: int| marked(gates, hits, uid)[g].contains(uid) && !gates[g].contains(uid);
    assert forall|g: int| 0 <= g < gates.len() implies #[trigger] scored(g) == noted(g) by {
        if scored(g) {
            assert(gates[g].push(uid)[gates[g].len() as int] == uid);
        }
    }
    lemma_where_true_same(gates.len(), scored, noted);
}

/// A gate that a bird touched never scores for it again: neither in this frame
/// nor in a later one, whatever the other birds do.
pub proof fn law_a_gate_scores_once(
    gates: Seq<Seq<u32>>,
    birds: Seq<Bird>,
    gate_hits: Seq<Vec<bool>>,
    n: nat,
    i: int,
    g: int,
    later: Seq<bool>,
)
    requires
        0 <= i < n <= birds.len(),
        0 <= g < gates.len(),
        gate_hits[i]@[g],
    ensures
        gates_after(gates, birds, gate_hits, n)[g].contains(birds[i].uid),
        !scores_at(gates_after(gates, birds, gate_hits, n), later, birds[i].uid, g),
    decreases n,
{
    let before = gates_after(gates, birds, gate_hits, (n - 1) as nat);
    lemma_gates_after_len(gates, birds, gate_hits, (n - 1) as nat);
    let uid = birds[i].uid;
    let after = gates_after(gates, birds, gate_hits, n)[g];
    if i == n - 1 {
        if !before[g].contains(uid) {
            assert(after[before[g].len() as int] == uid);
        }
    } else {
        law_a_gate_scores_once(gates, birds, gate_hits, (n - 1) as nat, i, g, later);
        let k = before[g].index_of(uid);
        assert(after[k] == uid);
    }
}

proof fn lemma_gates_after_len(
    gates: Seq<Seq<u32>>,
    birds: Seq<Bird>,
    gate_hits: Seq<Vec<bool>>,
    n: nat,
)
    ensures
        gates_after(gates, birds, gate_hits, n).len() == gates.len(),
    decreases n,
{
    if n > 0 {
        lemma_gates_after_len(gates, birds, gate_hits, (n - 1) as nat);
    }
}

/// A gate forgets no bird and notes none twice.
pub proof fn law_gates_note_birds_once(
    gates: Seq<Seq<u32>>,
    birds: Seq<Bird>,
    gate_hits: Seq<Vec<bool>>,
    n: nat,
    g: int,
)
    requires
        0 <= g < gates.len(),
        gates[g].no_duplicates(),
    ensures
        gates_after(gates, birds, gate_hits, n)[g].no_duplicates(),
        gates[g].is_prefix_of(gates_after(gates, birds, gate_hits, n)[g]),
    decreases n,
{
    if n > 0 {
        law_gates_note_birds_once(gates, birds, gate_hits, (n - 1) as nat, g);
        lemma_gates_after_len(gates, birds, gate_hits, (n - 1) as nat);
    }
}

/// Death is final and a score is never lost: what collisions do to a bird only
/// adds to it.  A bird that a pipe killed is dead.
pub proof fn law_death_is_final(
    bird: Bird,
    is_player: bool,
    pipe_hits: Seq<bool>,
    gates: Seq<Seq<u32>>,
    gate_hits: Seq<bool>,
)
    requires
        bird.score + points(gates, gate_hits, bird.uid) <= u32::MAX,
        bird.pipe_death ==> bird.dead,
    ensures
        ({
            let after = collided(bird, is_player, pipe_hits, gates, gate_hits);
            &&& bird.dead ==> after.dead
            &&& after.score >= bird.score
            &&& after.pipe_death ==> after.dead
            &&& is_player ==> after.dead == bird.dead
        }),
{
}

/// Who is noted at a gate: those that were, and those that had their turn and
/// touched it.
proof fn lemma_noted(
    gates: Seq<Seq<u32>>,
    birds: Seq<Bird>,
    gate_hits: Seq<Vec<bool>>,
    n: nat,
    g: int,
    uid: u32,
)
    requires
        n <= birds.len(),
        0 <= g < gates.len(),
    ensures
        gates_after(gates, birds, gate_hits, n)[g].contains(uid) <==> gates[g].contains(uid)
            || touched_before(birds, gate_hits, n as int, g, uid),
    decreases n,
{
    if n > 0 {
        let m = (n - 1) as nat;
        lemma_noted(gates, birds, gate_hits, m, g, uid);
        lemma_gates_after_len(gates, birds, gate_hits, m);
        let before = gates_after(gates, birds, gate_hits, m)[g];
        let after = gates_after(gates, birds, gate_hits, n)[g];
        if before.contains(uid) {
            assert(after[before.index_of(uid)] == uid);
        }
        if after.contains(uid) && !before.contains(uid) {
            let k = after.index_of(uid);
            assert(k == before.len()) by {
                if k < before.len() {
                    assert(before[k] == uid);
                }
            }
            assert(birds[m as int].uid == uid && gate_hits[m as int]@[g]);
        }
        if birds[m as int].uid == uid && gate_hits[m as int]@[g] && !before.contains(uid) {
            assert(after[before.len() as int] == uid);
        }
        if touched_before(birds, gate_hits, n as int, g, uid) && !touched_before(
            birds,
            gate_hits,
            m as int,
            g,
            uid,
        ) {
            let j = choose|j: int|
                0 <= j < n && (#[trigger] birds[j]).uid == uid && gate_hits[j]@[g];
            assert(j == m);
        }
    }
}

/// Birds of different numbers do not get in each other's way: each scores at the
/// gates that it touches and where it was not noted before the check, and is noted
/// at just those.
pub proof fn law_each_bird_scores_for_itself(
    birds: Seq<Bird>,
    gates: Seq<Seq<u32>>,
    gate_hits: Seq<Vec<bool>>,
    i: int,
)
    requires
        0 <= i < birds.len(),
        forall|j: int, k: int|
            0 <= j < k < birds.len() ==> (#[trigger] birds[j]).uid != (#[trigger] birds[k]).uid,
    ensures
        points(
            gates_after(gates, birds, gate_hits, i as nat),
            gate_hits[i]@,
            birds[i].uid,
        ) == points(gates, gate_hits[i]@, birds[i].uid),
        forall|g: int|
            0 <= g < gates.len() ==> ((#[trigger] gates_after(
                gates,
                birds,
                gate_hits,
                birds.len(),
            )[g]).contains(birds[i].uid) <==> gates[g].contains(birds[i].uid)
                || gate_hits[i]@[g]),
{
    let uid = birds[i].uid;
    let now = gates_after(gates, birds, gate_hits, i as nat);
    let a = |g: int| scores_at(now, gate_hits[i]@, uid, g);
    let b = |g: int| scores_at(gates, gate_hits[i]@, uid, g);
    lemma_gates_after_len(gates, birds, gate_hits, i as nat);
    assert forall|g: int| 0 <= g < gates.len() implies #[trigger] a(g) == b(g) by {
        lemma_noted(gates, birds, gate_hits, i as nat, g, uid);
    }
    lemma_where_true_same(gates.len(), a, b);
    assert forall|g: int| 0 <= g < gates.len() implies ((#[trigger] gates_after(
        gates,
        birds,
        gate_hits,
        birds.len(),
    )[g]).contains(uid) <==> gates[g].contains(uid) || gate_hits[i]@[g]) by {
        lemma_noted(gates, birds, gate_hits, birds.len(), g, uid);
        assert(birds[i].uid == uid);
    }
}

proof fn lemma_nothing_left(
    gates: Seq<Seq<u32>>,
    birds: Seq<Bird>,
    gate_hits: Seq<Vec<bool>>,
    i: int,
)
    requires
        0 <= i < birds.len(),
    ensures
        ({
            let after = gates_after(gates, birds, gate_hits, birds.len());
            &&& marked(after, gate_hits[i]@, birds[i].uid) == after
            &&& points(after, gate_hits[i]@, birds[i].uid) == 0
        }),
{
    let after = gates_after(gates, birds, gate_hits, birds.len());
    let uid = birds[i].uid;
    let fits = |g: int| scores_at(after, gate_hits[i]@, uid, g);
    lemma_gates_after_len(gates, birds, gate_hits, birds.len());
    assert forall|g: int| 0 <= g < after.len() implies !(#[trigger] fits(g)) by {
        if gate_hits[i]@[g] {
            law_a_gate_scores_once(gates, birds, gate_hits, birds.len(), i, g, gate_hits[i]@);
        }
    }
    assert(marked(after, gate_hits[i]@, uid) =~= after) by {
        assert forall|g: int| 0 <= g < after.len() implies marked(
            after,
            gate_hits[i]@,
            uid,
        )[g] == after[g] by {
            assert(!fits(g));
        }
    }
    let scored = where_true(after.len(), fits);
    lemma_where_true(after.len(), fits);
    if scored.len() > 0 {
        assert(scored.contains(scored[0]));
        assert(fits(scored[0]));
    }
}

proof fn lemma_gates_stay(
    gates: Seq<Seq<u32>>,
    birds: Seq<Bird>,
    gate_hits: Seq<Vec<bool>>,
    again: Seq<Bird>,
    n: nat,
)
    requires
        n <= birds.len(),
        again.len() == birds.len(),
        forall|i: int| 0 <= i < birds.len() ==> (#[trigger] again[i]).uid == birds[i].uid,
    ensures
        gates_after(
            gates_after(gates, birds, gate_hits, birds.len()),
            again,
            gate_hits,
            n,
        ) == gates_after(gates, birds, gate_hits, birds.len()),
    decreases n,
{
    if n > 0 {
        lemma_gates_stay(gates, birds, gate_hits, again, (n - 1) as nat);
        lemma_nothing_left(gates, birds, gate_hits, n - 1);
        assert(again[n - 1].uid == birds[n - 1].uid);
    }
}

/// As long as nothing moves, a second check changes neither a bird nor a gate.
pub proof fn law_a_second_check_changes_nothing(
    birds: Seq<Bird>,
    players: Seq<bool>,
    pipe_hits: Seq<Vec<bool>>,
    gates: Seq<Seq<u32>>,
    gate_hits: Seq<Vec<bool>>,
)
    requires
        scores_fit(birds, gates, gate_hits),
    ensures
        ({
            let flock = birds_after(birds, players, pipe_hits, gates, gate_hits);
            let noted = gates_after(gates, birds, gate_hits, birds.len());
            &&& scores_fit(flock, noted, gate_hits)
            &&& birds_after(flock, players, pipe_hits, noted, gate_hits) == flock
            &&& gates_after(noted, flock, gate_hits, flock.len()) == noted
        }),
{
    let flock = birds_after(birds, players, pipe_hits, gates, gate_hits);
    let noted = gates_after(gates, birds, gate_hits, birds.len());
    lemma_gates_stay(gates, birds, gate_hits, flock, birds.len());
    assert forall|i: int| 0 <= i < birds.len() implies score_fits(flock, noted, gate_hits, i)
        && collided(
        flock[i],
        players[i],
        pipe_hits[i]@,
        #[trigger] gates_after(noted, flock, gate_hits, i as nat),
        gate_hits[i]@,
    ) == flock[i] by {
        lemma_gates_stay(gates, birds, gate_hits, flock, i as nat);
        lemma_nothing_left(gates, birds, gate_hits, i);
        assert(score_fits(birds, gates, gate_hits, i));
    }
    assert forall|i: int| 0 <= i < flock.len() implies #[trigger] score_fits(
        flock,
        noted,
        gate_hits,
        i,
    ) by {
        assert(gates_after(noted, flock, gate_hits, i as nat) == noted) by {
            lemma_gates_stay(gates, birds, gate_hits, flock, i as nat);
        }
    }
    assert(birds_after(flock, players, pipe_hits, noted, gate_hits) =~= flock) by {
        assert forall|i: int| 0 <= i < flock.len() implies birds_after(
            flock,
            players,
            pipe_hits,
            noted,
            gate_hits,
        )[i] == flock[i] by {
            assert(collided(
                flock[i],
                players[i],
                pipe_hits[i]@,
                gates_after(noted, flock, gate_hits, i as nat),
                gate_hits[i]@,
            ) == flock[i]);
        }
    }
}

/// A bird that touches any of the pipes dies of it, unless it is the player's; one
/// that touches none is no more dead than before.  It stays the same bird.
pub proof fn law_any_pipe_kills(
    bird: Bird,
    is_player: bool,
    pipe_hits: Seq<bool>,
    gates: Seq<Seq<u32>>,
    gate_hits: Seq<bool>,
)
    ensures
        ({
            let after = collided(bird, is_player, pipe_hits, gates, gate_hits);
            let hit = exists|i: int| 0 <= i < pipe_hits.len() && #[trigger] pipe_hits[i];
            &&& after.uid == bird.uid
            &&& !is_player && hit ==> after.dead && after.pipe_death
            &&& is_player || !hit ==> after.dead == bird.dead && after.pipe_death
                == bird.pipe_death
        }),
{
    lemma_deaths(is_player, pipe_hits);
}

/// A bird is told that it died once for each pipe that it touches; the player's
/// never is.
pub proof fn law_deaths_count_the_pipes(is_player: bool, pipe_hits: Seq<bool>, hit: bool)
    ensures
        deaths(is_player, Seq::empty()) == 0,
        deaths(is_player, pipe_hits.push(hit)) == deaths(is_player, pipe_hits) + (if hit
            && !is_player {
            1int
        } else {
            0
        }),
{
    let none = |i: int| Seq::<bool>::empty()[i];
    let before = |i: int| pipe_hits[i];
    let after = |i: int| pipe_hits.push(hit)[i];
    lemma_where_true_len(0, 0, none);
    lemma_where_true_same(pipe_hits.len(), before, after);
    lemma_where_true_step(pipe_hits.len(), after);
}

/// A bird gets one point for each gap that it is in and where it is not noted, and
/// none for any other.
pub proof fn law_points_count_the_gaps(
    gates: Seq<Seq<u32>>,
    hits: Seq<bool>,
    uid: u32,
    noted: Seq<u32>,
    hit: bool,
)
    requires
        gates.len() == hits.len(),
    ensures
        points(Seq::empty(), Seq::empty(), uid) == 0,
        points(gates.push(noted), hits.push(hit), uid) == points(gates, hits, uid) + (if hit
            && !noted.contains(uid) {
            1int
        } else {
            0
        }),
{
    let none = |g: int| scores_at(Seq::empty(), Seq::empty(), uid, g);
    let before = |g: int| scores_at(gates, hits, uid, g);
    let after = |g: int| scores_at(gates.push(noted), hits.push(hit), uid, g);
    lemma_where_true_len(0, 0, none);
    lemma_where_true_same(gates.len(), before, after);
    lemma_where_true_step(gates.len(), after);
}

/// A bird's score rises by its points, and it is noted at the end of exactly those
/// lists that it scored at.
pub proof fn law_scores_and_notes_agree(
    bird: Bird,
    is_player: bool,
    pipe_hits: Seq<bool>,
    gates: Seq<Seq<u32>>,
    gate_hits: Seq<bool>,
    g: int,
)
    requires
        bird.score + points(gates, gate_hits, bird.uid) <= u32::MAX,
        0 <= g < gates.len(),
    ensures
        collided(bird, is_player, pipe_hits, gates, gate_hits).score == bird.score + points(
            gates,
            gate_hits,
            bird.uid,
        ),
        marked(gates, gate_hits, bird.uid).len() == gates.len(),
        gate_hits[g] && !gates[g].contains(bird.uid) ==> marked(gates, gate_hits, bird.uid)[g]
            == gates[g].push(bird.uid),
        !gate_hits[g] || gates[g].contains(bird.uid) ==> marked(gates, gate_hits, bird.uid)[g]
            == gates[g],
{
}

/// The birds have their turns one after the other, in the order of the list, and
/// each finds the gates as the birds before it left them.
pub proof fn law_birds_take_turns(
    birds: Seq<Bird>,
    players: Seq<bool>,
    pipe_hits: Seq<Vec<bool>>,
    gates: Seq<Seq<u32>>,
    gate_hits: Seq<Vec<bool>>,
    i: int,
    g: int,
)
    requires
        0 <= i < birds.len(),
        0 <= g < gates.len(),
        scores_fit(birds, gates, gate_hits),
    ensures
        ({
            let now = gates_after(gates, birds, gate_hits, i as nat);
            let next = gates_after(gates, birds, gate_hits, (i + 1) as nat);
            let flock = birds_after(birds, players, pipe_hits, gates, gate_hits);
            let hit = exists|k: int|
                0 <= k < pipe_hits[i]@.len() && #[trigger] pipe_hits[i]@[k];
            &&& gates_after(gates, birds, gate_hits, 0) == gates
            &&& next.len() == gates.len()
            &&& gate_hits[i]@[g] && !now[g].contains(birds[i].uid) ==> next[g] == now[g].push(
                birds[i].uid,
            )
            &&& !gate_hits[i]@[g] || now[g].contains(birds[i].uid) ==> next[g] == now[g]
            &&& flock.len() == birds.len()
            &&& flock[i].uid == birds[i].uid
            &&& flock[i].score == birds[i].score + points(now, gate_hits[i]@, birds[i].uid)
            &&& flock[i].dead == (birds[i].dead || (hit && !players[i]))
            &&& flock[i].pipe_death == (birds[i].pipe_death || (hit && !players[i]))
        }),
{
    lemma_gates_after_len(gates, birds, gate_hits, i as nat);
    lemma_gates_after_len(gates, birds, gate_hits, (i + 1) as nat);
    lemma_deaths(players[i], pipe_hits[i]@);
    assert(score_fits(birds, gates, gate_hits, i));
}

/// After a check, those are noted at a gate that were before, and those birds that
/// are in its gap.
pub proof fn law_who_is_noted(
    gates: Seq<Seq<u32>>,
    birds: Seq<Bird>,
    gate_hits: Seq<Vec<bool>>,
    g: int,
    uid: u32,
)
    requires
        0 <= g < gates.len(),
    ensures
        gates_after(gates, birds, gate_hits, birds.len())[g].contains(uid) <==> gates[g].contains(
            uid,
        ) || exists|j: int|
            0 <= j < birds.len() && (#[trigger] birds[j]).uid == uid && gate_hits[j]@[g],
{
    lemma_noted(gates, birds, gate_hits, birds.len(), g, uid);
}

/// On the canvas and on its edges a bird is safe; beyond them it is not.
pub proof fn law_the_canvas_is_safe(y: Single, lower: Single, upper: Single)
    ensures
        y.below(lower) ==> outside(y, lower, upper),
        upper.below(y) ==> outside(y, lower, upper),
        !y.below(lower) && !upper.below(y) ==> !outside(y, lower, upper),
{
}

/// The best score is one of the scores, and none is higher.
pub proof fn law_the_best_score_is_the_highest(birds: Seq<Bird>, best: u32, i: int)
    requires
        is_best_score(birds, Some(best)),
        0 <= i < birds.len(),
    ensures
        birds[i].score <= best,
        exists|k: int| 0 <= k < birds.len() && (#[trigger] birds[k]).score == best,
{
}

/// The way is obstructed as soon as one pipe or one gap is in it.
pub proof fn law_one_obstacle_is_enough(pipe_hits: Seq<bool>, gap_hits: Seq<bool>)
    ensures
        obstructed(pipe_hits, gap_hits) <==> (exists|i: int|
            0 <= i < pipe_hits.len() && #[trigger] pipe_hits[i]) || (exists|i: int|
            0 <= i < gap_hits.len() && #[trigger] gap_hits[i]),
{
}

/// A bird hatches alive, without points, and under the number it was given.
pub proof fn law_birds_hatch_alive(id: u32)
    ensures
        Bird::hatched(id).uid == id,
        !Bird::hatched(id).dead,
        !Bird::hatched(id).pipe_death,
        Bird::hatched(id).score == 0,
        SpawnPoint::usual().divisor == 4,
        SpawnPoint::usual().height == 0,
        SpawnPoint::usual().possible(),
{
}

/// The scores have room exactly if none would pass what a score can hold.
pub proof fn law_when_scores_fit(
    birds: Seq<Bird>,
    gates: Seq<Seq<u32>>,
    gate_hits: Seq<Vec<bool>>,
)
    ensures
        scores_fit(birds, gates, gate_hits) <==> forall|i: int|
            0 <= i < birds.len() ==> (#[trigger] birds[i]).score + points(
                gates_after(gates, birds, gate_hits, i as nat),
                gate_hits[i]@,
                birds[i].uid,
            ) <= 0xffff_ffff,
{
    let fits = |i: int|
        birds[i].score + points(
            gates_after(gates, birds, gate_hits, i as nat),
            gate_hits[i]@,
            birds[i].uid,
        ) <= 0xffff_ffff;
    assert forall|i: int| 0 <= i < birds.len() implies score_fits(birds, gates, gate_hits, i)
        == fits(i) by {}
    if scores_fit(birds, gates, gate_hits) {
        assert forall|i: int| 0 <= i < birds.len() implies (#[trigger] birds[i]).score + points(
            gates_after(gates, birds, gate_hits, i as nat),
            gate_hits[i]@,
            birds[i].uid,
        ) <= 0xffff_ffff by {
            assert(score_fits(birds, gates, gate_hits, i));
        }
    }
}

} // verus!

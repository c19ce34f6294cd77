//! Birds and what they fly through.

use crate::scalar::{lemma_single_nearest, Single};
use vstd::arithmetic::power2::{lemma2_to64, pow2};
use vstd::prelude::*;

verus! {

/// What pulls a bird down, per second.
#[derive(Clone, Copy, Debug, PartialEq, Eq, Structural)]
pub struct Gravity(pub Single);

/// How fast a bird rises.
#[derive(Clone, Copy, Debug, PartialEq, Eq, Structural)]
pub struct Velocity(pub Single);

/// The player's score.
#[derive(Clone, Copy, Debug, PartialEq, Eq, Structural)]
pub struct Score(pub u32);

/// A bird.
#[derive(Clone, Copy, Debug, PartialEq, Eq, Structural)]
pub struct Bird {
    pub uid: u32,
    pub dead: bool,
    pub score: u32,
    /// It was a pipe that the bird died of.
    pub pipe_death: bool,
}

/// Where a bird starts: a fraction of the canvas' width left of the middle, and
/// a height.
#[derive(Clone, Copy, Debug, PartialEq, Eq, Structural)]
pub struct SpawnPoint {
    pub divisor: i32,
    pub height: i32,
}

/// The numbers of the birds that wait to be spawned.
#[derive(Debug)]
pub struct BirdInventory(pub Vec<u32>);

/// A gap between two pipes, with the birds that scored there.
#[derive(Debug)]
pub struct PointsGate {
    pub has_scored: Vec<u32>,
}

impl Default for Velocity {
    /// At rest.
    fn default() -> (r: Velocity)
        ensures
            r.0.nearest(0, 1),
    {
        Velocity(Single { bits: 0 })
    }
}

impl Default for Gravity {
    /// The gravity of birds.
    fn default() -> (r: Gravity)
        ensures
            r.0.nearest(1000, 1),
    {
        let pull: Single = Single { bits: 0x447a_0000 };
        proof {
            lemma2_to64();
            lemma_single_nearest(pull, 1000, 1, 14, pow2(14) as int);
        }
        Gravity(pull)
    }
}

impl Default for Score {
    fn default() -> (r: Score)
        ensures
            r.0 == 0,
    {
        Score(0)
    }
}

impl Default for BirdInventory {
    fn default() -> (r: BirdInventory)
        ensures
            r.0@ == Seq::<u32>::empty(),
    {
        BirdInventory(Vec::new())
    }
}

impl SpawnPoint {
    /// The usual place.
    pub open spec fn usual() -> SpawnPoint {
        SpawnPoint { divisor: 4, height: 0 }
    }

    /// A place that chance may pick.
    pub open spec fn possible(self) -> bool {
        1 <= self.divisor <= 4 && 0 <= self.height <= 5
    }
}

impl Bird {
    /// A bird as it is hatched.
    pub open spec fn hatched(id: u32) -> Bird {
        Bird { uid: id, dead: false, score: 0, pipe_death: false }
    }

    /// A new bird and its place, a random one on demand.
    pub fn new(rand: bool, id: u32) -> (r: (Bird, SpawnPoint))
        ensures
            r.0 == Bird::hatched(id),
            !rand ==> r.1 == SpawnPoint::usual(),
            rand ==> r.1.possible(),
    {
        let place: SpawnPoint = if rand {
            let divisor: i32 = random_between(1, 4);
            let height: i32 = random_between(0, 5);
            SpawnPoint { divisor, height }
        } else {
            SpawnPoint { divisor: 4, height: 0 }
        };
        (Bird { uid: id, dead: false, score: 0, pipe_death: false }, place)
    }
}

/// `rand::random_range` on the range from `low` to `high`, both ends included:
/// a number of that range, whichever chance picks.  An empty range would make it
/// panic.
#[verifier::external_body]
fn random_between(low: i32, high: i32) -> (r: i32)
    requires
        low <= high,
    ensures
        low <= r <= high,
{
    rand::random_range(low..=high)
}

} // verus!

//! Measurements held by their bit patterns.
//!
//! Positions, rewards and probabilities are binary floating-point values
//! (IEEE 754 `binary32` and `binary64`).  This library never does arithmetic on
//! them: it keeps them, hands them on and puts them in order.  The bit pattern
//! is all that takes.  Whoever computes with them converts with the standard
//! library's `to_bits` and `from_bits`.

use vstd::arithmetic::power2::pow2;
use vstd::prelude::*;

verus! {

/// A `binary32` value, by its bit pattern.
#[derive(Clone, Copy, Debug, PartialEq, Eq, Structural)]
pub struct Single {
    pub bits: u32,
}

/// A `binary64` value, by its bit pattern.
#[derive(Clone, Copy, Debug, PartialEq, Eq, Structural)]
pub struct Double {
    pub bits: u64,
}

pub open spec fn magnitude(n: int) -> int {
    if n < 0 {
        -n
    } else {
        n
    }
}

impl Single {
    /// Neither a number nor an infinity.
    pub open spec fn nan(self) -> bool {
        self.bits % 0x8000_0000 > 0x7f80_0000
    }

    /// An integer that orders the numbers: `x` is below `y` exactly if its rank
    /// is, and the two zeroes share the rank 0.
    pub open spec fn rank(self) -> int {
        if self.bits < 0x8000_0000 {
            self.bits as int
        } else {
            0x8000_0000 - self.bits
        }
    }

    /// The floating-point `<`: false as soon as either side is not a number.
    pub open spec fn below(self, other: Single) -> bool {
        !self.nan() && !other.nan() && self.rank() < other.rank()
    }

    /// The power of two that divides the significand of a normal value.
    pub open spec fn scale(self) -> int {
        150 - (self.bits / 0x80_0000) % 256
    }

    /// No `binary32` value is closer to `num / den` than this one.  Of use for
    /// values whose magnitude is under 2^23.
    pub open spec fn nearest(self, num: int, den: int) -> bool {
        if num == 0 {
            self.bits == 0
        } else {
            &&& 0 < self.scale() < 150
            &&& (self.bits >= 0x8000_0000 <==> num < 0)
            &&& 2 * magnitude(
                (self.bits % 0x80_0000 + 0x80_0000) * den - magnitude(num) * pow2(
                    self.scale() as nat,
                ),
            ) <= den
        }
    }

    pub fn is_nan(&self) -> (r: bool)
        ensures
            r == self.nan(),
    {
        self.bits % 0x8000_0000 > 0x7f80_0000
    }

    pub fn is_below(&self, other: &Single) -> (r: bool)
        ensures
            r == self.below(*other),
    {
        !self.is_nan() && !other.is_nan() && self.get_rank() < other.get_rank()
    }

    pub fn get_rank(&self) -> (r: i64)
        ensures
            r == self.rank(),
    {
        if self.bits < 0x8000_0000 {
            self.bits as i64
        } else {
            0x8000_0000 - self.bits as i64
        }
    }
}

impl Double {
    /// Neither a number nor an infinity.
    pub open spec fn nan(self) -> bool {
        self.bits % 0x8000_0000_0000_0000 > 0x7ff0_0000_0000_0000
    }

    /// An integer that orders the numbers, as for [`Single`].
    pub open spec fn rank(self) -> int {
        if self.bits < 0x8000_0000_0000_0000 {
            self.bits as int
        } else {
            0x8000_0000_0000_0000 - self.bits
        }
    }

    /// The floating-point `<`: false as soon as either side is not a number.
    pub open spec fn below(self, other: Double) -> bool {
        !self.nan() && !other.nan() && self.rank() < other.rank()
    }

    /// The floating-point `<=`: false as soon as either side is not a number.
    pub open spec fn at_most(self, other: Double) -> bool {
        !self.nan() && !other.nan() && self.rank() <= other.rank()
    }

    /// The power of two that divides the significand of a normal value.
    pub open spec fn scale(self) -> int {
        1075 - (self.bits / 0x10_0000_0000_0000) % 2048
    }

    /// No `binary64` value is closer to `num / den` than this one.  Of use for
    /// values whose magnitude is under 2^52.
    pub open spec fn nearest(self, num: int, den: int) -> bool {
        if num == 0 {
            self.bits == 0
        } else {
            &&& 0 < self.scale() < 1075
            &&& (self.bits >= 0x8000_0000_0000_0000 <==> num < 0)
            &&& 2 * magnitude(
                (self.bits % 0x10_0000_0000_0000 + 0x10_0000_0000_0000) * den - magnitude(num)
                    * pow2(self.scale() as nat),
            ) <= den
        }
    }

    pub fn is_nan(&self) -> (r: bool)
        ensures
            r == self.nan(),
    {
        self.bits % 0x8000_0000_0000_0000 > 0x7ff0_0000_0000_0000
    }

    pub fn get_rank(&self) -> (r: i128)
        ensures
            r == self.rank(),
    {
        if self.bits < 0x8000_0000_0000_0000 {
            self.bits as i128
        } else {
            0x8000_0000_0000_0000 - self.bits as i128
        }
    }

    pub fn is_below(&self, other: &Double) -> (r: bool)
        ensures
            r == self.below(*other),
    {
        !self.is_nan() && !other.is_nan() && self.get_rank() < other.get_rank()
    }

    pub fn is_at_most(&self, other: &Double) -> (r: bool)
        ensures
            r == self.at_most(*other),
    {
        !self.is_nan() && !other.is_nan() && self.get_rank() <= other.get_rank()
    }

    /// The value, or `floor` where it is lower than that or not a number.
    pub open spec fn or_floor(self, floor: Double) -> Double {
        if floor.at_most(self) {
            self
        } else {
            floor
        }
    }

    pub fn at_least(&self, floor: Double) -> (r: Double)
        ensures
            r == self.or_floor(floor),
    {
        if floor.is_at_most(self) {
            *self
        } else {
            floor
        }
    }
}

impl Single {
    /// `r` is a lowest number of the list; there is none if the list holds no
    /// number at all.
    pub open spec fn is_lowest(values: Seq<Single>, r: Option<Single>) -> bool {
        match r {
            None => forall|i: int| 0 <= i < values.len() ==> (#[trigger] values[i]).nan(),
            Some(v) => {
                &&& !v.nan()
                &&& values.contains(v)
                &&& forall|i: int|
                    0 <= i < values.len() && !(#[trigger] values[i]).nan() ==> v.rank()
                        <= values[i].rank()
            },
        }
    }

    /// `r` is a highest number of the list, likewise.
    pub open spec fn is_highest(values: Seq<Single>, r: Option<Single>) -> bool {
        match r {
            None => forall|i: int| 0 <= i < values.len() ==> (#[trigger] values[i]).nan(),
            Some(v) => {
                &&& !v.nan()
                &&& values.contains(v)
                &&& forall|i: int|
                    0 <= i < values.len() && !(#[trigger] values[i]).nan() ==> values[i].rank()
                        <= v.rank()
            },
        }
    }

    pub fn lowest(values: &Vec<Single>) -> (r: Option<Single>)
        ensures
            Single::is_lowest(values@, r),
    {
        let mut r: Option<Single> = None;
        let mut i: usize = 0;
        while i < values.len()
            invariant
                i <= values@.len(),
                Single::is_lowest(values@.take(i as int), r),
            decreases values@.len() - i,
        {
            let v: Single = values[i];
            let take: bool = match r {
                None => !v.is_nan(),
                Some(best) => !v.is_nan() && v.get_rank() < best.get_rank(),
            };
            let ghost seen = values@.take(i as int);
            let ghost next = values@.take(i + 1);
            proof {
                assert(next[i as int] == v);
                assert(forall|k: int| 0 <= k < i ==> #[trigger] next[k] == seen[k]);
                if r is Some {
                    let k = seen.index_of(r->0);
                    assert(next[k] == r->0);
                }
            }
            if take {
                r = Some(v);
            }
            i = i + 1;
        }
        proof {
            assert(values@.take(i as int) =~= values@);
        }
        r
    }

    pub fn highest(values: &Vec<Single>) -> (r: Option<Single>)
        ensures
            Single::is_highest(values@, r),
    {
        let mut r: Option<Single> = None;
        let mut i: usize = 0;
        while i < values.len()
            invariant
                i <= values@.len(),
                Single::is_highest(values@.take(i as int), r),
            decreases values@.len() - i,
        {
            let v: Single = values[i];
            let take: bool = match r {
                None => !v.is_nan(),
                Some(best) => !v.is_nan() && best.get_rank() < v.get_rank(),
            };
            let ghost seen = values@.take(i as int);
            let ghost next = values@.take(i + 1);
            proof {
                assert(next[i as int] == v);
                assert(forall|k: int| 0 <= k < i ==> #[trigger] next[k] == seen[k]);
                if r is Some {
                    let k = seen.index_of(r->0);
                    assert(next[k] == r->0);
                }
            }
            if take {
                r = Some(v);
            }
            i = i + 1;
        }
        proof {
            assert(values@.take(i as int) =~= values@);
        }
        r
    }
}

impl Double {
    /// `r` is a lowest number of the list; there is none if the list holds no
    /// number at all.
    pub open spec fn is_lowest(values: Seq<Double>, r: Option<Double>) -> bool {
        match r {
            None => forall|i: int| 0 <= i < values.len() ==> (#[trigger] values[i]).nan(),
            Some(v) => {
                &&& !v.nan()
                &&& values.contains(v)
                &&& forall|i: int|
                    0 <= i < values.len() && !(#[trigger] values[i]).nan() ==> v.rank()
                        <= values[i].rank()
            },
        }
    }

    /// `r` is a highest number of the list, likewise.
    pub open spec fn is_highest(values: Seq<Double>, r: Option<Double>) -> bool {
        match r {
            None => forall|i: int| 0 <= i < values.len() ==> (#[trigger] values[i]).nan(),
            Some(v) => {
                &&& !v.nan()
                &&& values.contains(v)
                &&& forall|i: int|
                    0 <= i < values.len() && !(#[trigger] values[i]).nan() ==> values[i].rank()
                        <= v.rank()
            },
        }
    }

    pub fn lowest(values: &Vec<Double>) -> (r: Option<Double>)
        ensures
            Double::is_lowest(values@, r),
    {
        let mut r: Option<Double> = None;
        let mut i: usize = 0;
        while i < values.len()
            invariant
                i <= values@.len(),
                Double::is_lowest(values@.take(i as int), r),
            decreases values@.len() - i,
        {
            let v: Double = values[i];
            let take: bool = match r {
                None => !v.is_nan(),
                Some(best) => !v.is_nan() && v.get_rank() < best.get_rank(),
            };
            let ghost seen = values@.take(i as int);
            let ghost next = values@.take(i + 1);
            proof {
                assert(next[i as int] == v);
                assert(forall|k: int| 0 <= k < i ==> #[trigger] next[k] == seen[k]);
                if r is Some {
                    let k = seen.index_of(r->0);
                    assert(next[k] == r->0);
                }
            }
            if take {
                r = Some(v);
            }
            i = i + 1;
        }
        proof {
            assert(values@.take(i as int) =~= values@);
        }
        r
    }

    pub fn highest(values: &Vec<Double>) -> (r: Option<Double>)
        ensures
            Double::is_highest(values@, r),
    {
        let mut r: Option<Double> = None;
        let mut i: usize = 0;
        while i < values.len()
            invariant
                i <= values@.len(),
                Double::is_highest(values@.take(i as int), r),
            decreases values@.len() - i,
        {
            let v: Double = values[i];
            let take: bool = match r {
                None => !v.is_nan(),
                Some(best) => !v.is_nan() && best.get_rank() < v.get_rank(),
            };
            let ghost seen = values@.take(i as int);
            let ghost next = values@.take(i + 1);
            proof {
                assert(next[i as int] == v);
                assert(forall|k: int| 0 <= k < i ==> #[trigger] next[k] == seen[k]);
                if r is Some {
                    let k = seen.index_of(r->0);
                    assert(next[k] == r->0);
                }
            }
            if take {
                r = Some(v);
            }
            i = i + 1;
        }
        proof {
            assert(values@.take(i as int) =~= values@);
        }
        r
    }
}

/// A way to establish [`Single::nearest`] once the power of two is known.
pub proof fn lemma_single_nearest(s: Single, num: int, den: int, scale: nat, power: int)
    requires
        num != 0,
        s.scale() == scale,
        0 < scale < 150,
        pow2(scale) == power,
        s.bits >= 0x8000_0000 <==> num < 0,
        2 * magnitude((s.bits % 0x80_0000 + 0x80_0000) * den - magnitude(num) * power) <= den,
    ensures
        s.nearest(num, den),
{
}

/// A way to establish [`Double::nearest`] once the power of two is known.
pub proof fn lemma_double_nearest(d: Double, num: int, den: int, scale: nat, power: int)
    requires
        num != 0,
        d.scale() == scale,
        0 < scale < 1075,
        pow2(scale) == power,
        d.bits >= 0x8000_0000_0000_0000 <==> num < 0,
        2 * magnitude(
            (d.bits % 0x10_0000_0000_0000 + 0x10_0000_0000_0000) * den - magnitude(num) * power,
        ) <= den,
    ensures
        d.nearest(num, den),
{
}

/// The order of the single numbers: it is strict, and by the bit patterns it is
/// that of the numbers themselves.  A value that is not a number is neither below
/// nor above any other.
pub proof fn law_singles_are_ordered(a: Single, b: Single, c: Single)
    ensures
        a.nan() <==> 0x7f80_0000 < a.bits < 0x8000_0000 || a.bits > 0x8000_0000 + 0x7f80_0000,
        !a.below(a),
        a.below(b) && b.below(c) ==> a.below(c),
        a.nan() || b.nan() ==> !a.below(b) && !b.below(a),
        !a.nan() && !b.nan() && a.bits < 0x8000_0000 && b.bits < 0x8000_0000 ==> (a.below(b) <==> a.bits
            < b.bits),
        !a.nan() && !b.nan() && a.bits >= 0x8000_0000 && b.bits >= 0x8000_0000 ==> (a.below(b)
            <==> a.bits > b.bits),
        !a.nan() && !b.nan() && a.bits >= 0x8000_0000 && b.bits < 0x8000_0000 ==> (a.below(b) <==> !(
        a.bits == 0x8000_0000 && b.bits == 0)),
        a.bits < 0x8000_0000 && b.bits >= 0x8000_0000 ==> !a.below(b),
        !a.nan() && !b.nan() ==> (a.rank() < b.rank() <==> a.below(b)),
{
}

/// The lowest of some values is one of them, and none of them is below it; the
/// highest likewise.  There is one as soon as there is a number among them.
pub proof fn law_single_extremes(values: Seq<Single>, low: Option<Single>, high: Option<Single>, i: int)
    requires
        Single::is_lowest(values, low),
        Single::is_highest(values, high),
        0 <= i < values.len(),
    ensures
        !values[i].nan() ==> low is Some && high is Some,
        low matches Some(v) ==> values.contains(v) && !values[i].below(v),
        high matches Some(v) ==> values.contains(v) && !v.below(values[i]),
{
}

/// The order of the double numbers: it is strict, and by the bit patterns it is
/// that of the numbers themselves.  A value that is not a number is neither below
/// nor above any other.
pub proof fn law_doubles_are_ordered(a: Double, b: Double, c: Double)
    ensures
        a.nan() <==> 0x7ff0_0000_0000_0000 < a.bits < 0x8000_0000_0000_0000 || a.bits > 0x8000_0000_0000_0000 + 0x7ff0_0000_0000_0000,
        !a.below(a),
        a.below(b) && b.below(c) ==> a.below(c),
        a.nan() || b.nan() ==> !a.below(b) && !b.below(a),
        !a.nan() && !b.nan() && a.bits < 0x8000_0000_0000_0000 && b.bits < 0x8000_0000_0000_0000 ==> (a.below(b) <==> a.bits
            < b.bits),
        !a.nan() && !b.nan() && a.bits >= 0x8000_0000_0000_0000 && b.bits >= 0x8000_0000_0000_0000 ==> (a.below(b)
            <==> a.bits > b.bits),
        !a.nan() && !b.nan() && a.bits >= 0x8000_0000_0000_0000 && b.bits < 0x8000_0000_0000_0000 ==> (a.below(b) <==> !(
        a.bits == 0x8000_0000_0000_0000 && b.bits == 0)),
        a.bits < 0x8000_0000_0000_0000 && b.bits >= 0x8000_0000_0000_0000 ==> !a.below(b),
        !a.nan() && !b.nan() ==> (a.rank() < b.rank() <==> a.below(b)),
{
}

/// The lowest of some values is one of them, and none of them is below it; the
/// highest likewise.  There is one as soon as there is a number among them.
pub proof fn law_double_extremes(values: Seq<Double>, low: Option<Double>, high: Option<Double>, i: int)
    requires
        Double::is_lowest(values, low),
        Double::is_highest(values, high),
        0 <= i < values.len(),
    ensures
        !values[i].nan() ==> low is Some && high is Some,
        low matches Some(v) ==> values.contains(v) && !values[i].below(v),
        high matches Some(v) ==> values.contains(v) && !v.below(values[i]),
{
}

/// To be at most another is not to be above it, among numbers.
pub proof fn law_at_most_is_not_above(a: Double, b: Double)
    ensures
        a.at_most(b) <==> !a.nan() && !b.nan() && !b.below(a),
{
}

/// A floor holds from below and changes nothing above it.
pub proof fn law_floors_hold(value: Double, floor: Double)
    requires
        !floor.nan(),
    ensures
        !value.or_floor(floor).nan(),
        !value.or_floor(floor).below(floor),
        value.nan() || value.below(floor) ==> value.or_floor(floor) == floor,
        !value.nan() && !value.below(floor) ==> value.or_floor(floor) == value,
{
}

} // verus!

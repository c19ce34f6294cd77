//! Settings that all networks share.

use crate::scalar::{lemma_single_nearest, Single};
use vstd::arithmetic::power2::{lemma2_to64, pow2};
use vstd::prelude::*;

verus! {

/// The optimizer's epsilon, a ten-millionth.
pub fn optimizer_epsilon() -> (r: Single)
    ensures
        r.nearest(1, 10_000_000),
{
    let r: Single = Single { bits: 0x33d6_bf95 };
    proof {
        lemma2_to64();
        vstd::arithmetic::power2::lemma2_to64_rest();
        lemma_single_nearest(r, 1, 10_000_000, 47, pow2(47) as int);
    }
    r
}

} // verus!

//! Stable sorting.
//!
//! A sort here rearranges positions rather than items: it is told which
//! positions of a list to keep and gives them back in the order of the items
//! that stand there, equal items in the order of their positions.

use crate::scalar::Single;
use vstd::prelude::*;
use vstd::relations::{sorted_by, total_ordering};
use vstd::seq_lib::lemma_sorted_unique;

verus! {

/// Items that a total preorder compares.
pub trait Ordered: Sized {
    /// Whether `self` may stand before `other`.
    spec fn le(self, other: Self) -> bool;

    proof fn lemma_total(a: Self, b: Self)
        ensures
            a.le(b) || b.le(a),
    ;

    proof fn lemma_transitive(a: Self, b: Self, c: Self)
        requires
            a.le(b),
            b.le(c),
        ensures
            a.le(c),
    ;

    fn is_le(&self, other: &Self) -> (r: bool)
        ensures
            r == self.le(*other),
    ;
}

impl Ordered for u64 {
    open spec fn le(self, other: u64) -> bool {
        self <= other
    }

    proof fn lemma_total(a: u64, b: u64) {
    }

    proof fn lemma_transitive(a: u64, b: u64, c: u64) {
    }

    fn is_le(&self, other: &u64) -> (r: bool) {
        *self <= *other
    }
}

impl Ordered for Single {
    open spec fn le(self, other: Single) -> bool {
        self.rank() <= other.rank()
    }

    proof fn lemma_total(a: Single, b: Single) {
    }

    proof fn lemma_transitive(a: Single, b: Single, c: Single) {
    }

    fn is_le(&self, other: &Single) -> (r: bool) {
        self.get_rank() <= other.get_rank()
    }
}

/// The order of positions: by the items that stand there, then by position.
pub open spec fn position_order<T: Ordered>(items: Seq<T>) -> spec_fn(int, int) -> bool {
    |a: int, b: int| items[a].le(items[b]) && (items[b].le(items[a]) ==> a <= b)
}

/// The positions `keep`, in the order of their items.
pub open spec fn in_order<T: Ordered>(items: Seq<T>, keep: Seq<int>) -> Seq<int> {
    keep.sort_by(position_order(items))
}

/// Positions as mathematical integers.
pub open spec fn positions(v: Seq<usize>) -> Seq<int> {
    v.map_values(|i: usize| i as int)
}

/// The positions up to `n` at which `keep` holds, ascending.
pub open spec fn where_true(n: nat, keep: spec_fn(int) -> bool) -> Seq<int> {
    Seq::new(n, |i: int| i).filter(keep)
}

/// [`position_order`] is a total order on positions, so that what it sorts has
/// only one sorted arrangement.
pub proof fn lemma_position_order<T: Ordered>(items: Seq<T>)
    ensures
        total_ordering(position_order(items)),
{
    let r = position_order(items);
    assert forall|a: int| #[trigger] r(a, a) by {
        T::lemma_total(items[a], items[a]);
    }
    assert forall|a: int, b: int, c: int| #[trigger] r(a, b) && #[trigger] r(b, c) implies r(
        a,
        c,
    ) by {
        T::lemma_transitive(items[a], items[b], items[c]);
        if items[c].le(items[a]) {
            T::lemma_transitive(items[b], items[c], items[a]);
            T::lemma_transitive(items[c], items[a], items[b]);
        }
    }
    assert forall|a: int, b: int| #[trigger] r(a, b) || #[trigger] r(b, a) by {
        T::lemma_total(items[a], items[b]);
    }
}

/// One more position at the end of the range.
pub proof fn lemma_where_true_step(n: nat, keep: spec_fn(int) -> bool)
    ensures
        where_true(n + 1, keep) == (if keep(n as int) {
            where_true(n, keep).push(n as int)
        } else {
            where_true(n, keep)
        }),
{
    let all = Seq::new(n + 1, |i: int| i);
    assert(all.drop_last() =~= Seq::new(n, |i: int| i));
    reveal(Seq::filter);
}

/// What [`where_true`] holds.
pub proof fn lemma_where_true(n: nat, keep: spec_fn(int) -> bool)
    ensures
        forall|i: int| #[trigger]
            where_true(n, keep).contains(i) <==> 0 <= i < n && keep(i),
        where_true(n, keep).no_duplicates(),
    decreases n,
{
    if n == 0 {
        assert(where_true(0, keep) =~= Seq::empty()) by {
            reveal(Seq::filter);
        }
    } else {
        let m = (n - 1) as nat;
        lemma_where_true(m, keep);
        lemma_where_true_step(m, keep);
        let before = where_true(m, keep);
        if keep(m as int) {
            assert forall|i: int| #[trigger] where_true(n, keep).contains(i) <==> 0 <= i < n && keep(
                i,
            ) by {
                if i == m {
                    assert(before.push(m as int)[before.len() as int] == i);
                } else if before.contains(i) {
                    let k = choose|k: int| 0 <= k < before.len() && before[k] == i;
                    assert(before.push(m as int)[k] == i);
                } else if before.push(m as int).contains(i) {
                    let k = choose|k: int|
                        0 <= k < before.push(m as int).len() && before.push(m as int)[k] == i;
                    assert(before[k] == i);
                }
            }
            assert(!before.contains(m as int));
            assert(forall|k: int| 0 <= k < before.len() ==> before[k] != m);
        }
    }
}

/// What holds at the same positions is true at the same positions.
pub proof fn lemma_where_true_same(n: nat, a: spec_fn(int) -> bool, b: spec_fn(int) -> bool)
    requires
        forall|i: int| 0 <= i < n ==> #[trigger] a(i) == b(i),
    ensures
        where_true(n, a) == where_true(n, b),
    decreases n,
{
    if n == 0 {
        reveal(Seq::filter);
        assert(where_true(0, a) =~= where_true(0, b));
    } else {
        let m = (n - 1) as nat;
        lemma_where_true_same(m, a, b);
        lemma_where_true_step(m, a);
        lemma_where_true_step(m, b);
        assert(a(m as int) == b(m as int));
    }
}

/// A longer range holds no fewer positions, and no more than it is longer.
pub proof fn lemma_where_true_len(m: nat, n: nat, keep: spec_fn(int) -> bool)
    requires
        m <= n,
    ensures
        where_true(m, keep).len() <= where_true(n, keep).len() <= where_true(m, keep).len() + (n
            - m),
        where_true(m, keep).len() <= m,
    decreases n,
{
    if n > m {
        lemma_where_true_len(m, (n - 1) as nat, keep);
        lemma_where_true_step((n - 1) as nat, keep);
    } else if n == 0 {
        reveal(Seq::filter);
        assert(where_true(0, keep) =~= Seq::empty());
    } else {
        lemma_where_true_len((n - 1) as nat, (n - 1) as nat, keep);
        lemma_where_true_step((n - 1) as nat, keep);
    }
}

/// Sorting keeps what there is.
pub proof fn lemma_in_order<T: Ordered>(items: Seq<T>, keep: Seq<int>)
    ensures
        in_order(items, keep).len() == keep.len(),
        forall|i: int| #[trigger] in_order(items, keep).contains(i) <==> keep.contains(i),
        keep.no_duplicates() ==> in_order(items, keep).no_duplicates(),
        sorted_by(in_order(items, keep), position_order(items)),
{
    broadcast use vstd::seq_lib::to_multiset_contains, vstd::seq_lib::to_multiset_len;

    lemma_position_order(items);
    keep.lemma_sort_by_ensures(position_order(items));
    let sorted = in_order(items, keep);
    assert(sorted.to_multiset() =~= keep.to_multiset());
    assert(sorted.to_multiset().len() == sorted.len());
    assert(keep.to_multiset().len() == keep.len());
    if keep.no_duplicates() {
        keep.lemma_multiset_has_no_duplicates();
        sorted.lemma_multiset_has_no_duplicates_conv();
    }
    assert forall|i: int| #[trigger] sorted.contains(i) <==> keep.contains(i) by {
        assert(sorted.contains(i) <==> sorted.to_multiset().count(i) > 0);
        assert(keep.contains(i) <==> keep.to_multiset().count(i) > 0);
    }
}

/// Sorts the positions `keep` of `items`.
pub fn sort_positions<T: Ordered>(items: &Vec<T>, keep: &Vec<usize>) -> (r: Vec<usize>)
    requires
        forall|k: int| 0 <= k < keep@.len() ==> #[trigger] keep@[k] < items@.len(),
    ensures
        positions(r@) == in_order(items@, positions(keep@)),
{
    let ghost order = position_order(items@);
    let mut r: Vec<usize> = Vec::new();
    let mut n: usize = 0;
    proof {
        lemma_position_order(items@);
        assert(positions(keep@).take(0) =~= positions(r@));
    }
    while n < keep.len()
        invariant
            n <= keep@.len(),
            order == position_order(items@),
            total_ordering(order),
            forall|k: int| 0 <= k < keep@.len() ==> #[trigger] keep@[k] < items@.len(),
            forall|k: int| 0 <= k < r@.len() ==> #[trigger] r@[k] < items@.len(),
            r@.len() == n,
            sorted_by(positions(r@), order),
            positions(r@).to_multiset() =~= positions(keep@).take(n as int).to_multiset(),
        decreases keep@.len() - n,
    {
        broadcast use vstd::seq_lib::to_multiset_build, vstd::seq_lib::to_multiset_insert;

        let p: usize = keep[n];
        let mut at: usize = r.len();
        while at > 0 && !precedes(items, r[at - 1], p)
            invariant
                at <= r@.len(),
                p < items@.len(),
                order == position_order(items@),
                total_ordering(order),
                sorted_by(positions(r@), order),
                forall|k: int| 0 <= k < r@.len() ==> #[trigger] r@[k] < items@.len(),
                forall|k: int| at <= k < r@.len() ==> order(p as int, #[trigger] r@[k] as int),
            decreases at,
        {
            proof {
                let q = r@[at - 1] as int;
                assert(order(q, p as int) || order(p as int, q));
            }
            at = at - 1;
        }
        let ghost before = r@;
        r.insert(at, p);
        proof {
            assert(positions(r@) =~= positions(before).insert(at as int, p as int));
            assert(positions(keep@).take(n + 1) =~= positions(keep@).take(n as int).push(p as int));
            assert forall|i: int, j: int| 0 <= i < j < positions(r@).len() implies order(
                #[trigger] positions(r@)[i],
                #[trigger] positions(r@)[j],
            ) by {
                let before_p = positions(before);
                if i < at && j < at {
                    assert(order(before_p[i], before_p[j]));
                } else if i < at && j > at {
                    assert(order(before_p[i], before_p[j - 1]));
                } else if i > at {
                    assert(order(before_p[i - 1], before_p[j - 1]));
                } else if j == at {
                    let last = before_p[at - 1];
                    assert(order(last, p as int));
                    if i < at - 1 {
                        assert(order(before_p[i], before_p[at - 1]));
                        assert(order(before_p[i], last) && order(last, p as int));
                    }
                } else {
                    assert(order(p as int, before[j - 1] as int));
                }
            }
        }
        n = n + 1;
    }
    proof {
        let whole = positions(keep@);
        assert(whole.take(n as int) =~= whole);
        whole.lemma_sort_by_ensures(order);
        lemma_sorted_unique(positions(r@), whole.sort_by(order), order);
    }
    r
}

fn precedes<T: Ordered>(items: &Vec<T>, a: usize, b: usize) -> (r: bool)
    requires
        a < items@.len(),
        b < items@.len(),
    ensures
        r == position_order(items@)(a as int, b as int),
{
    items[a].is_le(&items[b]) && (!items[b].is_le(&items[a]) || a <= b)
}

/// Positions that are sorted stand in the order of their items, and those of equal
/// items in the order in which they were; none is lost and none is new.
pub proof fn law_sorting_is_stable<T: Ordered>(items: Seq<T>, keep: Seq<int>, i: int, j: int)
    requires
        keep.no_duplicates(),
        0 <= i < j < in_order(items, keep).len(),
    ensures
        ({
            let sorted = in_order(items, keep);
            &&& items[sorted[i]].le(items[sorted[j]])
            &&& items[sorted[j]].le(items[sorted[i]]) ==> sorted[i] < sorted[j]
            &&& sorted.len() == keep.len()
            &&& sorted.no_duplicates()
            &&& forall|p: int| #[trigger] sorted.contains(p) <==> keep.contains(p)
        }),
{
    let sorted = in_order(items, keep);
    lemma_in_order(items, keep);
    assert(position_order(items)(sorted[i], sorted[j]));
    assert(sorted[i] != sorted[j]);
}

/// Where something holds is listed from the front to the back, each place once.
pub proof fn law_places_ascend(n: nat, keep: spec_fn(int) -> bool, i: int, j: int)
    requires
        0 <= i < j < where_true(n, keep).len(),
    ensures
        0 <= where_true(n, keep)[i] < where_true(n, keep)[j] < n,
        keep(where_true(n, keep)[i]),
        forall|p: int| 0 <= p < n && #[trigger] keep(p) ==> where_true(n, keep).contains(p),
    decreases n,
{
    lemma_where_true(n, keep);
    let found = where_true(n, keep);
    assert(found.contains(found[i]));
    assert(found.contains(found[j]));
    if n == 0 {
    } else {
        let m = (n - 1) as nat;
        lemma_where_true_step(m, keep);
        let earlier = where_true(m, keep);
        if j < earlier.len() {
            law_places_ascend(m, keep, i, j);
        } else {
            lemma_where_true(m, keep);
            assert(earlier.contains(earlier[i]));
        }
    }
}

} // verus!

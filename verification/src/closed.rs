//! The interval crate's interval set, and what this library takes for
//! granted of it.
//!
//! Nothing in this file is proved. The crate stores closed intervals of
//! integers and merges two of them as soon as no integer lies between them.

use vstd::prelude::*;
use gcollections::ops::Bounded;
use gcollections::ops::Union;
use interval::interval_set::IntervalSet;
use interval::interval_set::ToIntervalSet;

verus! {

/// The interval crate's `IntervalSet<usize>`. Verus sees nothing of what it
/// holds but through `stored_intervals`.
#[verifier::external_body]
pub struct ClosedIntervals {
    inner: IntervalSet<usize>,
}

/// The intervals that the interval crate's set stores, in the order in which
/// it stores them, each as its lower and its upper bound, both included.
pub uninterp spec fn stored_intervals(set: ClosedIntervals) -> Seq<(usize, usize)>;

/// What the interval crate maintains of the intervals it stores: none is
/// empty, none reaches the largest `usize`, they ascend, and between two
/// neighbours at least one integer is left out.
pub open spec fn closed_merged(stored: Seq<(usize, usize)>) -> bool {
    &&& forall|i: int|
        0 <= i < stored.len() ==> (#[trigger] stored[i]).0 <= stored[i].1 < usize::MAX
    &&& forall|i: int, j: int|
        0 <= i < j < stored.len() ==> (#[trigger] stored[i]).1 + 1 < (#[trigger] stored[j]).0
}

/// The integers that lie in one of the closed intervals.
pub open spec fn closed_points(stored: Seq<(usize, usize)>) -> Set<int> {
    Set::new(
        |t: int|
            exists|i: int| 0 <= i < stored.len() && (#[trigger] stored[i]).0 <= t <= stored[i].1,
    )
}

/// `ToIntervalSet::to_interval_set` of the interval crate, on a vector of
/// pairs: the set that holds exactly the integers of the closed intervals
/// from each pair's first to its second component, and stores them merged.
/// The crate asks that no interval is empty and that none reaches the largest
/// `usize`.
#[verifier::external_body]
pub(crate) fn to_interval_set(pairs: Vec<(usize, usize)>) -> (set: ClosedIntervals)
    requires
        forall|i: int| 0 <= i < pairs.len() ==> (#[trigger] pairs[i]).0 <= pairs[i].1 < usize::MAX,
    ensures
        closed_merged(stored_intervals(set)),
        closed_points(stored_intervals(set)) == closed_points(pairs@),
{
    ClosedIntervals { inner: pairs.to_interval_set() }
}

/// `Union::union` of the interval crate's `IntervalSet`: the set that holds
/// exactly the integers of both sets, and stores them merged.
#[verifier::external_body]
pub(crate) fn interval_set_union(a: &ClosedIntervals, b: &ClosedIntervals) -> (set:
    ClosedIntervals)
    requires
        closed_merged(stored_intervals(*a)),
        closed_merged(stored_intervals(*b)),
    ensures
        closed_merged(stored_intervals(set)),
        closed_points(stored_intervals(set)) == closed_points(stored_intervals(*a)).union(
            closed_points(stored_intervals(*b)),
        ),
{
    ClosedIntervals { inner: a.inner.union(&b.inner) }
}

/// `IntervalSet::iter` of the interval crate, each interval handed out as
/// the pair of what its `lower` and `upper` return: the stored intervals in
/// the order in which the set stores them.
#[verifier::external_body]
pub(crate) fn interval_set_bounds(set: &ClosedIntervals) -> (bounds: Vec<(usize, usize)>)
    requires
        closed_merged(stored_intervals(*set)),
    ensures
        bounds@ == stored_intervals(*set),
{
    set.inner.iter().map(|i| (i.lower(), i.upper())).collect()
}

} // verus!

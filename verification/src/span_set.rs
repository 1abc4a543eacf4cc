//! A set of half-open time spans, kept merged: sorted, pairwise disjoint,
//! never touching.
//!
//! The set is held by the interval crate, which works on closed intervals of
//! integers: the span from `a` up to, not including, `b` is held as the
//! closed interval from `a` to `b - 1`. Two spans that touch are then two
//! closed intervals with no integer between them, which the crate merges.

use vstd::prelude::*;
use crate::closed::closed_merged;
use crate::closed::closed_points;
use crate::closed::interval_set_bounds;
use crate::closed::interval_set_union;
use crate::closed::stored_intervals;
use crate::closed::to_interval_set;
use crate::closed::ClosedIntervals;
use crate::spans::covered;
use crate::spans::in_span;
use crate::spans::is_merge;
use crate::spans::lemma_merge_empty_span;
use crate::spans::lemma_merged_with;
use crate::spans::lemma_normalized_unique;
use crate::spans::merged_with;
use crate::spans::normalized;
use crate::spans::span_points;

verus! {

/// The closed intervals read as half-open spans: each interval with the
/// instant after its upper bound as its end.
spec fn half_open(stored: Seq<(usize, usize)>) -> Seq<(usize, usize)> {
    Seq::new(stored.len(), |i: int| (stored[i].0, (stored[i].1 + 1) as usize))
}

/// Merged closed intervals are, read as half-open spans, in normal form, and
/// cover the same integers.
proof fn lemma_half_open(stored: Seq<(usize, usize)>)
    requires
        closed_merged(stored),
    ensures
        normalized(half_open(stored)),
        covered(half_open(stored)) == closed_points(stored),
{
    let spans = half_open(stored);
    assert forall|t: int| covered(spans).contains(t) == closed_points(stored).contains(t) by {
        if covered(spans).contains(t) {
            let i = choose|i: int| 0 <= i < spans.len() && in_span(#[trigger] spans[i], t);
            assert(stored[i].0 <= t <= stored[i].1);
        }
        if closed_points(stored).contains(t) {
            let i = choose|i: int|
                0 <= i < stored.len() && (#[trigger] stored[i]).0 <= t <= stored[i].1;
            assert(in_span(spans[i], t));
        }
    }
    assert(covered(spans) =~= closed_points(stored));
}

/// A set of half-open time spans, kept merged by the interval crate.
pub struct SpanSet {
    closed: ClosedIntervals,
}

impl View for SpanSet {
    type V = Seq<(usize, usize)>;

    /// The stored spans in ascending order, each from its start up to, not
    /// including, its end.
    closed spec fn view(&self) -> Seq<(usize, usize)> {
        half_open(stored_intervals(self.closed))
    }
}

impl SpanSet {
    /// What holds of every span set: the interval crate keeps it merged.
    #[verifier::type_invariant]
    pub closed spec fn wf(self) -> bool {
        closed_merged(stored_intervals(self.closed))
    }

    /// The spans of a span set are in normal form.
    pub proof fn lemma_normalized(self)
        requires
            self.wf(),
        ensures
            normalized(self@),
    {
        lemma_half_open(stored_intervals(self.closed));
    }

    /// The set without any span.
    pub fn new() -> (set: SpanSet)
        ensures
            set@ == Seq::<(usize, usize)>::empty(),
    {
        let closed = to_interval_set(Vec::new());
        proof {
            let none = Seq::<(usize, usize)>::empty();
            lemma_half_open(stored_intervals(closed));
            assert(covered(half_open(stored_intervals(closed))) =~= covered(none));
            lemma_normalized_unique(half_open(stored_intervals(closed)), none);
        }
        SpanSet { closed }
    }

    /// Merges the span from `open_at` up to, not including, `close_at` into
    /// the set. A span that ends where it starts, or before, holds no instant
    /// and leaves the set as it is.
    pub fn insert(&mut self, open_at: usize, close_at: usize)
        ensures
            final(self)@ == merged_with(old(self)@, open_at, close_at),
            normalized(old(self)@),
            normalized(final(self)@),
            covered(final(self)@) == covered(old(self)@).union(
                span_points(open_at as int, close_at as int),
            ),
    {
        proof {
            use_type_invariant(&*self);
            lemma_half_open(stored_intervals(self.closed));
            lemma_merged_with(self@, open_at, close_at);
        }
        if open_at < close_at {
            let pairs = vec![(open_at, close_at - 1)];
            let ghost one = pairs@;
            assert(one[0] == (open_at, (close_at - 1) as usize));
            let single = to_interval_set(pairs);
            let merged = interval_set_union(&self.closed, &single);
            proof {
                assert(closed_points(one) =~= span_points(open_at as int, close_at as int)) by {
                    assert forall|t: int|
                        closed_points(one).contains(t) == span_points(
                            open_at as int,
                            close_at as int,
                        ).contains(t) by {
                        if open_at <= t < close_at {
                            assert(one[0].0 <= t <= one[0].1);
                        }
                    }
                }
                lemma_half_open(stored_intervals(merged));
                assert(is_merge(
                    self@,
                    open_at,
                    close_at,
                    half_open(stored_intervals(merged)),
                ));
            }
            self.closed = merged;
        } else {
            proof {
                lemma_merge_empty_span(self@, open_at, close_at);
            }
        }
    }

    /// The stored spans in ascending order, each as its start and its end,
    /// the end not included.
    pub fn spans(&self) -> (spans: Vec<(usize, usize)>)
        ensures
            spans@ == self@,
            normalized(self@),
    {
        proof {
            use_type_invariant(self);
            lemma_half_open(stored_intervals(self.closed));
        }
        let bounds = interval_set_bounds(&self.closed);
        let mut spans: Vec<(usize, usize)> = Vec::new();
        let mut i: usize = 0;
        while i < bounds.len()
            invariant
                i <= bounds.len(),
                bounds@ == stored_intervals(self.closed),
                closed_merged(bounds@),
                spans@ == half_open(bounds@).take(i as int),
            decreases bounds.len() - i,
        {
            let (lower, upper) = bounds[i];
            spans.push((lower, upper + 1));
            i += 1;
            assert(spans@ =~= half_open(bounds@).take(i as int));
        }
        assert(spans@ =~= self@);
        spans
    }
}

} // verus!

//! Half-open time spans, the normal form of a sequence of them, and what it
//! means to merge a span into such a sequence.

use vstd::prelude::*;

verus! {

/// The instants of the half-open span from `lo` up to, not including, `hi`.
/// Empty where `hi <= lo`.
pub open spec fn span_points(lo: int, hi: int) -> Set<int> {
    Set::new(|t: int| lo <= t < hi)
}

/// Whether the instant `t` lies in the half-open span `span`.
pub open spec fn in_span(span: (usize, usize), t: int) -> bool {
    span.0 <= t < span.1
}

/// The instants that lie in one of the half-open `spans`.
pub open spec fn covered(spans: Seq<(usize, usize)>) -> Set<int> {
    Set::new(|t: int| exists|i: int| 0 <= i < spans.len() && in_span(#[trigger] spans[i], t))
}

/// The form in which a span set is kept: every span starts strictly before
/// it ends, the spans ascend, and a span ends strictly before the next one
/// starts, so that no two of them overlap or touch.
pub open spec fn normalized(spans: Seq<(usize, usize)>) -> bool {
    &&& forall|i: int| 0 <= i < spans.len() ==> (#[trigger] spans[i]).0 < spans[i].1
    &&& forall|i: int, j: int|
        0 <= i < j < spans.len() ==> (#[trigger] spans[i]).1 < (#[trigger] spans[j]).0
}

/// Whether `after` is `before` with the span from `lo` to `hi` merged in:
/// kept in normal form, and covering the instants of both and no other.
pub open spec fn is_merge(
    before: Seq<(usize, usize)>,
    lo: usize,
    hi: usize,
    after: Seq<(usize, usize)>,
) -> bool {
    &&& normalized(after)
    &&& covered(after) == covered(before).union(span_points(lo as int, hi as int))
}

/// The spans of `before` with the span from `lo` to `hi` merged in.
pub open spec fn merged_with(before: Seq<(usize, usize)>, lo: usize, hi: usize) -> Seq<
    (usize, usize),
> {
    choose|after: Seq<(usize, usize)>| is_merge(before, lo, hi, after)
}

/// In normal form every instant a span covers lies below the start of each
/// later span.
proof fn lemma_last_bounds(spans: Seq<(usize, usize)>, t: int)
    requires
        normalized(spans),
        spans.len() > 0,
        covered(spans).contains(t),
    ensures
        t < spans.last().1,
        t < spans.last().0 ==> covered(spans.drop_last()).contains(t),
        t < spans.last().0 ==> t + 1 < spans.last().0,
{
    let i = choose|i: int| 0 <= i < spans.len() && in_span(#[trigger] spans[i], t);
    let n = spans.len() - 1;
    if i < n {
        assert(spans[i].1 < spans[n].0);
        assert(spans.drop_last()[i] == spans[i]);
    }
}

/// A span of the sequence covers each of its instants.
proof fn lemma_covers(spans: Seq<(usize, usize)>, i: int, t: int)
    requires
        0 <= i < spans.len(),
        in_span(spans[i], t),
    ensures
        covered(spans).contains(t),
{
}

/// Two sequences in normal form that cover the same instants are equal.
pub proof fn lemma_normalized_unique(a: Seq<(usize, usize)>, b: Seq<(usize, usize)>)
    requires
        normalized(a),
        normalized(b),
        covered(a) == covered(b),
    ensures
        a == b,
    decreases a.len(),
{
    if a.len() == 0 {
        if b.len() > 0 {
            lemma_covers(b, 0, b[0].0 as int);
            assert(covered(a).contains(b[0].0 as int));
        }
        assert(a =~= b);
    } else if b.len() == 0 {
        lemma_covers(a, 0, a[0].0 as int);
        assert(covered(b).contains(a[0].0 as int));
    } else {
        let la = a.last();
        let lb = b.last();
        let na = a.len() - 1;
        let nb = b.len() - 1;
        assert(la == a[na] && lb == b[nb]);
        lemma_covers(a, na, la.1 - 1);
        lemma_covers(b, nb, lb.1 - 1);
        lemma_last_bounds(b, la.1 - 1);
        lemma_last_bounds(a, lb.1 - 1);
        assert(la.1 == lb.1);
        if la.0 < lb.0 {
            lemma_covers(a, na, lb.0 - 1);
            lemma_last_bounds(b, lb.0 - 1);
        }
        if lb.0 < la.0 {
            lemma_covers(b, nb, la.0 - 1);
            lemma_last_bounds(a, la.0 - 1);
        }
        assert(la == lb);
        let a0 = a.drop_last();
        let b0 = b.drop_last();
        assert forall|t: int| covered(a0).contains(t) == covered(b0).contains(t) by {
            if covered(a0).contains(t) {
                let i = choose|i: int| 0 <= i < a0.len() && in_span(#[trigger] a0[i], t);
                assert(a0[i] == a[i]);
                assert(a[i].1 < a[na].0);
                lemma_covers(a, i, t);
                lemma_last_bounds(b, t);
            }
            if covered(b0).contains(t) {
                let i = choose|i: int| 0 <= i < b0.len() && in_span(#[trigger] b0[i], t);
                assert(b0[i] == b[i]);
                assert(b[i].1 < b[nb].0);
                lemma_covers(b, i, t);
                lemma_last_bounds(a, t);
            }
        }
        assert(covered(a0) =~= covered(b0));
        assert(normalized(a0)) by {
            assert forall|i: int| 0 <= i < a0.len() implies (#[trigger] a0[i]).0 < a0[i].1 by {
                assert(a0[i] == a[i]);
            }
            assert forall|i: int, j: int| 0 <= i < j < a0.len() implies (#[trigger] a0[i]).1 < (
            #[trigger] a0[j]).0 by {
                assert(a0[i] == a[i] && a0[j] == a[j]);
            }
        }
        assert(normalized(b0)) by {
            assert forall|i: int| 0 <= i < b0.len() implies (#[trigger] b0[i]).0 < b0[i].1 by {
                assert(b0[i] == b[i]);
            }
            assert forall|i: int, j: int| 0 <= i < j < b0.len() implies (#[trigger] b0[i]).1 < (
            #[trigger] b0[j]).0 by {
                assert(b0[i] == b[i] && b0[j] == b[j]);
            }
        }
        lemma_normalized_unique(a0, b0);
        assert(a =~= a0.push(la));
        assert(b =~= b0.push(lb));
    }
}


/// Dropping the last span of a sequence in normal form leaves one in normal
/// form, and pushing a span that starts after the last one ends keeps it.
proof fn lemma_normalized_ends(spans: Seq<(usize, usize)>)
    requires
        normalized(spans),
        spans.len() > 0,
    ensures
        normalized(spans.drop_last()),
        covered(spans) == covered(spans.drop_last()).union(
            span_points(spans.last().0 as int, spans.last().1 as int),
        ),
{
    let init = spans.drop_last();
    let n = spans.len() - 1;
    assert forall|i: int| 0 <= i < init.len() implies (#[trigger] init[i]).0 < init[i].1 by {
        assert(init[i] == spans[i]);
    }
    assert forall|i: int, j: int| 0 <= i < j < init.len() implies (#[trigger] init[i]).1 < (
    #[trigger] init[j]).0 by {
        assert(init[i] == spans[i] && init[j] == spans[j]);
    }
    let rhs = covered(init).union(span_points(spans.last().0 as int, spans.last().1 as int));
    assert forall|t: int| covered(spans).contains(t) == rhs.contains(t) by {
        if covered(spans).contains(t) {
            let i = choose|i: int| 0 <= i < spans.len() && in_span(#[trigger] spans[i], t);
            if i < n {
                assert(init[i] == spans[i]);
            }
        }
        if covered(init).contains(t) {
            let i = choose|i: int| 0 <= i < init.len() && in_span(#[trigger] init[i], t);
            assert(init[i] == spans[i]);
        }
        if span_points(spans.last().0 as int, spans.last().1 as int).contains(t) {
            assert(in_span(spans[n], t));
        }
    }
    assert(covered(spans) =~= rhs);
}

/// Pushing a span that starts after every instant covered so far keeps the
/// normal form and adds the span's instants.
proof fn lemma_push_span(spans: Seq<(usize, usize)>, lo: usize, hi: usize)
    requires
        normalized(spans),
        lo < hi,
        forall|t: int| covered(spans).contains(t) ==> t + 1 < lo,
    ensures
        normalized(spans.push((lo, hi))),
        covered(spans.push((lo, hi))) == covered(spans).union(span_points(lo as int, hi as int)),
{
    let out = spans.push((lo, hi));
    let n = spans.len() as int;
    assert forall|i: int| 0 <= i < out.len() implies (#[trigger] out[i]).0 < out[i].1 by {
        if i < n {
            assert(out[i] == spans[i]);
        }
    }
    assert forall|i: int, j: int| 0 <= i < j < out.len() implies (#[trigger] out[i]).1 < (
    #[trigger] out[j]).0 by {
        assert(out[i] == spans[i]);
        if j < n {
            assert(out[j] == spans[j]);
        } else {
            lemma_covers(spans, i, spans[i].1 - 1);
        }
    }
    let rhs = covered(spans).union(span_points(lo as int, hi as int));
    assert forall|t: int| covered(out).contains(t) == rhs.contains(t) by {
        if covered(out).contains(t) {
            let i = choose|i: int| 0 <= i < out.len() && in_span(#[trigger] out[i], t);
            if i < n {
                assert(out[i] == spans[i]);
            }
        }
        if covered(spans).contains(t) {
            let i = choose|i: int| 0 <= i < spans.len() && in_span(#[trigger] spans[i], t);
            assert(out[i] == spans[i]);
        }
        if span_points(lo as int, hi as int).contains(t) {
            assert(in_span(out[n], t));
        }
    }
    assert(covered(out) =~= rhs);
}

/// For every sequence in normal form and every span there is a merge of the
/// two: the proof builds it, from the last span backwards.
proof fn lemma_merge_exists(spans: Seq<(usize, usize)>, lo: usize, hi: usize) -> (after: Seq<
    (usize, usize),
>)
    requires
        normalized(spans),
    ensures
        is_merge(spans, lo, hi, after),
    decreases spans.len(),
{
    let grown = covered(spans).union(span_points(lo as int, hi as int));
    if hi <= lo {
        assert(covered(spans) =~= grown);
        spans
    } else if spans.len() == 0 {
        let empty = Seq::<(usize, usize)>::empty();
        assert(spans =~= empty);
        lemma_push_span(empty, lo, hi);
        empty.push((lo, hi))
    } else {
        let last = spans.last();
        let init = spans.drop_last();
        lemma_normalized_ends(spans);
        assert(spans[spans.len() - 1] == last);
        if last.1 < lo {
            assert forall|t: int| covered(spans).contains(t) implies t + 1 < lo by {
                lemma_last_bounds(spans, t);
            }
            lemma_push_span(spans, lo, hi);
            spans.push((lo, hi))
        } else if hi < last.0 {
            let below = lemma_merge_exists(init, lo, hi);
            assert forall|t: int| covered(below).contains(t) implies t + 1 < last.0 by {
                if covered(init).contains(t) {
                    let i = choose|i: int| 0 <= i < init.len() && in_span(#[trigger] init[i], t);
                    assert(init[i] == spans[i]);
                    assert(spans[i].1 < spans[spans.len() - 1].0);
                }
            }
            lemma_push_span(below, last.0, last.1);
            let out = below.push(last);
            assert(covered(out) =~= grown);
            out
        } else {
            let wide_lo = if lo < last.0 { lo } else { last.0 };
            let wide_hi = if hi < last.1 { last.1 } else { hi };
            let out = lemma_merge_exists(init, wide_lo, wide_hi);
            assert(span_points(wide_lo as int, wide_hi as int) =~= span_points(
                last.0 as int,
                last.1 as int,
            ).union(span_points(lo as int, hi as int)));
            assert(covered(out) =~= grown);
            out
        }
    }
}

/// Merging a span into a sequence in normal form gives a sequence in normal
/// form that covers the instants of both and no other, and only one sequence
/// does.
pub proof fn lemma_merged_with(spans: Seq<(usize, usize)>, lo: usize, hi: usize)
    requires
        normalized(spans),
    ensures
        is_merge(spans, lo, hi, merged_with(spans, lo, hi)),
        forall|after: Seq<(usize, usize)>|
            is_merge(spans, lo, hi, after) ==> after == merged_with(spans, lo, hi),
{
    let witness = lemma_merge_exists(spans, lo, hi);
    let merged = merged_with(spans, lo, hi);
    assert(is_merge(spans, lo, hi, merged));
    assert forall|after: Seq<(usize, usize)>| is_merge(spans, lo, hi, after) implies after
        == merged by {
        lemma_normalized_unique(after, merged);
    }
}

/// Merging an empty span changes nothing.
pub proof fn lemma_merge_empty_span(spans: Seq<(usize, usize)>, lo: usize, hi: usize)
    requires
        normalized(spans),
        hi <= lo,
    ensures
        merged_with(spans, lo, hi) == spans,
{
    lemma_merged_with(spans, lo, hi);
    assert(covered(spans) =~= covered(spans).union(span_points(lo as int, hi as int)));
    assert(is_merge(spans, lo, hi, spans));
}

/// Merging the same span twice gives what merging it once gives.
pub proof fn lemma_merge_idempotent(spans: Seq<(usize, usize)>, lo: usize, hi: usize)
    requires
        normalized(spans),
    ensures
        merged_with(merged_with(spans, lo, hi), lo, hi) == merged_with(spans, lo, hi),
{
    let once = merged_with(spans, lo, hi);
    lemma_merged_with(spans, lo, hi);
    lemma_merged_with(once, lo, hi);
    let span = span_points(lo as int, hi as int);
    assert(covered(once) =~= covered(once).union(span));
    assert(is_merge(once, lo, hi, once));
}

/// Merging two spans gives the same stored spans in either order.
pub proof fn lemma_merge_commutes(
    spans: Seq<(usize, usize)>,
    a: usize,
    b: usize,
    c: usize,
    d: usize,
)
    requires
        normalized(spans),
    ensures
        merged_with(merged_with(spans, a, b), c, d) == merged_with(merged_with(spans, c, d), a, b),
{
    let first = merged_with(spans, a, b);
    let second = merged_with(spans, c, d);
    lemma_merged_with(spans, a, b);
    lemma_merged_with(spans, c, d);
    lemma_merged_with(first, c, d);
    lemma_merged_with(second, a, b);
    let ab = span_points(a as int, b as int);
    let cd = span_points(c as int, d as int);
    assert(covered(spans).union(ab).union(cd) =~= covered(spans).union(cd).union(ab));
    lemma_normalized_unique(merged_with(first, c, d), merged_with(second, a, b));
}

} // verus!

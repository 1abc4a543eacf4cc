//! Which open and close events the builder pairs, said without reference to
//! the order in which it works.

use vstd::prelude::*;
use crate::builder::lemma_paired_normalized;
use crate::builder::paired;
use crate::builder::start;
use crate::classify::is_gc_name;
use crate::profile::EType;
use crate::profile::Event;
use crate::profile::Frame;
use crate::spans::covered;
use crate::spans::lemma_merged_with;
use crate::spans::normalized;
use crate::spans::span_points;

verus! {

/// Whether event `i` opens a collector frame and none of the events after
/// it and before position `n` carries its frame index.
pub open spec fn open_until(frames: Seq<Frame>, events: Seq<Event>, i: int, n: int) -> bool {
    &&& 0 <= i < n <= events.len()
    &&& events[i].etype == EType::O
    &&& is_gc_name(frames[events[i].frame as int].name@)
    &&& forall|k: int| i < k < n ==> (#[trigger] events[k]).frame != events[i].frame
}

/// Whether events `i` and `j` are a pair: `i` opens a collector frame, `j`
/// is the next event with the same frame index, and it is a close event.
pub open spec fn is_pair(frames: Seq<Frame>, events: Seq<Event>, i: int, j: int) -> bool {
    &&& open_until(frames, events, i, j)
    &&& j < events.len()
    &&& events[j].etype == EType::C
    &&& events[j].frame == events[i].frame
}

/// The instants between the open and the close event of some pair.
pub open spec fn pair_points(frames: Seq<Frame>, events: Seq<Event>) -> Set<int> {
    Set::new(
        |t: int|
            exists|i: int, j: int|
                #[trigger] is_pair(frames, events, i, j) && events[i].at <= t < events[j].at,
    )
}

/// Whether `pending` holds, for the stream so far, exactly the open events of
/// collector frames that no later event with the same frame index followed,
/// each frame index with the timestamp of its event.
pub open spec fn pending_is_open(
    frames: Seq<Frame>,
    events: Seq<Event>,
    pending: Map<usize, usize>,
) -> bool {
    &&& forall|i: int| #[trigger]
        open_until(frames, events, i, events.len() as int) ==> pending.contains_key(
            events[i].frame,
        ) && pending[events[i].frame] == events[i].at
    &&& forall|frame: usize| #[trigger]
        pending.contains_key(frame) ==> exists|i: int| #[trigger]
            open_until(frames, events, i, events.len() as int) && events[i].frame == frame
}

/// An event open until `n` in a stream is open until `n` in every stream
/// that agrees with it on the first `n` events.
proof fn lemma_open_until_prefix(
    frames: Seq<Frame>,
    events: Seq<Event>,
    longer: Seq<Event>,
    i: int,
    n: int,
)
    requires
        0 <= n <= events.len(),
        n <= longer.len(),
        forall|k: int| 0 <= k < n ==> events[k] == longer[k],
    ensures
        open_until(frames, events, i, n) == open_until(frames, longer, i, n),
{
    if 0 <= i < n {
        assert(events[i] == longer[i]);
        if open_until(frames, events, i, n) {
            assert forall|k: int| i < k < n implies (#[trigger] longer[k]).frame
                != longer[i].frame by {
                assert(events[k] == longer[k]);
            }
        }
        if open_until(frames, longer, i, n) {
            assert forall|k: int| i < k < n implies (#[trigger] events[k]).frame
                != events[i].frame by {
                assert(events[k] == longer[k]);
            }
        }
    }
}

/// After every stream, started with nothing pending, the pending open events
/// are those of collector frames that no event with the same frame index
/// followed.
pub proof fn lemma_pending_is_open(
    spans: Seq<(usize, usize)>,
    by_open: Map<usize, usize>,
    by_close: Map<usize, usize>,
    frames: Seq<Frame>,
    events: Seq<Event>,
)
    ensures
        pending_is_open(
            frames,
            events,
            paired(start(spans, by_open, by_close), frames, events).pending,
        ),
    decreases events.len(),
{
    let first = start(spans, by_open, by_close);
    let after = paired(first, frames, events).pending;
    let len = events.len() as int;
    if len == 0 {
        assert(after =~= Map::empty());
    } else {
        let init = events.drop_last();
        let last = events.last();
        let n = len - 1;
        let before = paired(first, frames, init).pending;
        lemma_pending_is_open(spans, by_open, by_close, frames, init);
        assert(events[n] == last);
        assert forall|i: int| open_until(frames, init, i, n) == open_until(
            frames,
            events,
            i,
            n,
        ) by {
            lemma_open_until_prefix(frames, init, events, i, n);
        }
        assert forall|i: int| #[trigger]
            open_until(frames, events, i, len) implies after.contains_key(events[i].frame)
            && after[events[i].frame] == events[i].at by {
            if i < n {
                assert(events[n].frame != events[i].frame);
                assert(open_until(frames, events, i, n));
                assert(open_until(frames, init, i, n));
                assert(init[i] == events[i]);
            }
        }
        assert forall|frame: usize| #[trigger] after.contains_key(frame) implies exists|i: int|
            #[trigger] open_until(frames, events, i, len) && events[i].frame == frame by {
            if last.etype == EType::O && last.frame == frame && is_gc_name(
                frames[frame as int].name@,
            ) {
                assert(open_until(frames, events, n, len));
            } else {
                assert(before.contains_key(frame));
                let i = choose|i: int| #[trigger]
                    open_until(frames, init, i, n) && init[i].frame == frame;
                assert(init[i] == events[i]);
                assert(open_until(frames, events, i, n));
                assert(last.frame != frame);
                assert(open_until(frames, events, i, len));
            }
        }
    }
}

/// The spans that the builder keeps cover the instants that were covered
/// before and the instants between the two events of each pair, and no
/// other instant.
pub proof fn lemma_paired_covers_pairs(
    spans: Seq<(usize, usize)>,
    by_open: Map<usize, usize>,
    by_close: Map<usize, usize>,
    frames: Seq<Frame>,
    events: Seq<Event>,
)
    requires
        normalized(spans),
    ensures
        normalized(paired(start(spans, by_open, by_close), frames, events).spans),
        covered(paired(start(spans, by_open, by_close), frames, events).spans) == covered(
            spans,
        ).union(pair_points(frames, events)),
    decreases events.len(),
{
    let first = start(spans, by_open, by_close);
    let after = paired(first, frames, events);
    let len = events.len() as int;
    lemma_paired_normalized(first, frames, events);
    if len == 0 {
        assert(covered(after.spans) =~= covered(spans).union(pair_points(frames, events)));
    } else {
        let init = events.drop_last();
        let last = events.last();
        let n = len - 1;
        let before = paired(first, frames, init);
        lemma_paired_covers_pairs(spans, by_open, by_close, frames, init);
        lemma_pending_is_open(spans, by_open, by_close, frames, init);
        assert(events[n] == last);
        assert forall|i: int, j: int| 0 <= j <= n implies open_until(frames, init, i, j)
            == open_until(frames, events, i, j) by {
            lemma_open_until_prefix(frames, init, events, i, j);
        }
        assert forall|i: int, j: int| j != n implies is_pair(frames, init, i, j) == is_pair(
            frames,
            events,
            i,
            j,
        ) by {
            if 0 <= i < j < n {
                assert(init[i] == events[i] && init[j] == events[j]);
            }
        }
        assert forall|i: int| !is_pair(frames, init, i, n) by {}
        let closes = last.etype == EType::C && before.pending.contains_key(last.frame);
        let added = if closes {
            span_points(before.pending[last.frame] as int, last.at as int)
        } else {
            Set::<int>::empty()
        };
        if closes {
            lemma_merged_with(before.spans, before.pending[last.frame], last.at);
        }
        assert(covered(after.spans) =~= covered(before.spans).union(added));
        assert forall|t: int|
            pair_points(frames, events).contains(t) == pair_points(frames, init).union(
                added,
            ).contains(t) by {
            if pair_points(frames, events).contains(t) {
                let (i, j) = choose|i: int, j: int| #[trigger]
                    is_pair(frames, events, i, j) && events[i].at <= t < events[j].at;
                if j == n {
                    assert(open_until(frames, init, i, n));
                    assert(init[i] == events[i]);
                    assert(added.contains(t));
                } else {
                    assert(is_pair(frames, init, i, j));
                    assert(init[i] == events[i] && init[j] == events[j]);
                }
            }
            if pair_points(frames, init).contains(t) {
                let (i, j) = choose|i: int, j: int| #[trigger]
                    is_pair(frames, init, i, j) && init[i].at <= t < init[j].at;
                assert(is_pair(frames, events, i, j));
                assert(init[i] == events[i] && init[j] == events[j]);
            }
            if added.contains(t) {
                let i = choose|i: int| #[trigger]
                    open_until(frames, init, i, n) && init[i].frame == last.frame;
                assert(init[i] == events[i]);
                assert(open_until(frames, events, i, n));
                assert(is_pair(frames, events, i, n));
            }
        }
        assert(pair_points(frames, events) =~= pair_points(frames, init).union(added));
        assert(covered(after.spans) =~= covered(spans).union(pair_points(frames, events)));
    }
}

} // verus!

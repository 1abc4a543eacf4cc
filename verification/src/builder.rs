//! Pairing the open and close events of collector frames, and merging the
//! time spans between them.

use std::collections::BTreeMap;
use std::collections::HashMap;
use vstd::prelude::*;
use crate::classify::gc_frame;
use crate::classify::is_gc_name;
use crate::profile::check_frames;
use crate::profile::first_out_of_range;
use crate::profile::frames_in_range;
use crate::profile::EType;
use crate::profile::Event;
use crate::profile::Frame;
use crate::profile::FrameOutOfRange;
use crate::profile::Profile;
use crate::spans::covered;
use crate::spans::lemma_merged_with;
use crate::spans::merged_with;
use crate::spans::normalized;
use crate::spans::span_points;
use crate::span_set::SpanSet;

verus! {

/// What the builder knows after a prefix of the stream.
pub struct Pairing {
    /// For each frame index with an open event not yet closed, the timestamp
    /// of the most recent such event.
    pub pending: Map<usize, usize>,
    /// The merged spans of the pairs closed so far.
    pub spans: Seq<(usize, usize)>,
    /// For each pair closed so far, from its open to its close timestamp;
    /// a later pair with the same open timestamp replaces an earlier one.
    pub by_open: Map<usize, usize>,
    /// The same pairs, from close to open timestamp.
    pub by_close: Map<usize, usize>,
}

/// The state before the first event, over collections that may already
/// hold the result of earlier streams: nothing is pending.
pub open spec fn start(
    spans: Seq<(usize, usize)>,
    by_open: Map<usize, usize>,
    by_close: Map<usize, usize>,
) -> Pairing {
    Pairing { pending: Map::empty(), spans, by_open, by_close }
}

/// The effect of one event. An open event of a collector frame becomes the
/// pending one of its frame index, in place of an earlier one. A close event
/// takes the pending open event of its frame index, whatever the frame's
/// name, and records the span between the two; without one it does nothing.
/// Any other event does nothing.
pub open spec fn step(state: Pairing, frames: Seq<Frame>, event: Event) -> Pairing {
    match event.etype {
        EType::O => if is_gc_name(frames[event.frame as int].name@) {
            Pairing { pending: state.pending.insert(event.frame, event.at), ..state }
        } else {
            state
        },
        EType::C => if state.pending.contains_key(event.frame) {
            let open_at = state.pending[event.frame];
            Pairing {
                pending: state.pending.remove(event.frame),
                spans: merged_with(state.spans, open_at, event.at),
                by_open: state.by_open.insert(open_at, event.at),
                by_close: state.by_close.insert(event.at, open_at),
            }
        } else {
            state
        },
    }
}

/// The state after all of `events`, taken in order from `state`.
pub open spec fn paired(state: Pairing, frames: Seq<Frame>, events: Seq<Event>) -> Pairing
    decreases events.len(),
{
    if events.len() == 0 {
        state
    } else {
        step(paired(state, frames, events.drop_last()), frames, events.last())
    }
}

/// A close event whose frame index has no pending open event leaves the
/// state as it is.
pub proof fn lemma_unmatched_close(state: Pairing, frames: Seq<Frame>, event: Event)
    requires
        event.etype == EType::C,
        !state.pending.contains_key(event.frame),
    ensures
        step(state, frames, event) == state,
{
}

/// Whether an open event of a collector frame with frame index `frame`
/// stands among `events`.
pub open spec fn opened(frames: Seq<Frame>, events: Seq<Event>, frame: usize) -> bool {
    exists|i: int|
        0 <= i < events.len() && (#[trigger] events[i]).etype == EType::O && events[i].frame
            == frame && is_gc_name(frames[frame as int].name@)
}

/// A frame index is pending only after an open event of a collector frame
/// with that index.
pub proof fn lemma_pending_was_opened(
    state: Pairing,
    frames: Seq<Frame>,
    events: Seq<Event>,
    frame: usize,
)
    requires
        paired(state, frames, events).pending.contains_key(frame),
    ensures
        state.pending.contains_key(frame) || opened(frames, events, frame),
    decreases events.len(),
{
    if events.len() > 0 {
        let init = events.drop_last();
        let last = events.last();
        let before = paired(state, frames, init);
        if before.pending.contains_key(frame) {
            lemma_pending_was_opened(state, frames, init, frame);
            if opened(frames, init, frame) {
                let i = choose|i: int|
                    0 <= i < init.len() && (#[trigger] init[i]).etype == EType::O && init[i].frame
                        == frame && is_gc_name(frames[frame as int].name@);
                assert(events[i] == init[i]);
            }
        } else {
            assert(events[events.len() - 1] == last);
        }
    }
}

/// A close event with no open event of a collector frame before it for its
/// frame index is passed over: the state after it is the state before it.
pub proof fn lemma_close_without_open(
    spans: Seq<(usize, usize)>,
    by_open: Map<usize, usize>,
    by_close: Map<usize, usize>,
    frames: Seq<Frame>,
    events: Seq<Event>,
)
    requires
        events.len() > 0,
        events.last().etype == EType::C,
        !opened(frames, events.drop_last(), events.last().frame),
    ensures
        paired(start(spans, by_open, by_close), frames, events) == paired(
            start(spans, by_open, by_close),
            frames,
            events.drop_last(),
        ),
{
    let first = start(spans, by_open, by_close);
    if paired(first, frames, events.drop_last()).pending.contains_key(events.last().frame) {
        lemma_pending_was_opened(first, frames, events.drop_last(), events.last().frame);
    }
}

/// A stream without close events adds no span and no pair, whatever it
/// opens: from empty collections it leaves them empty.
pub proof fn lemma_opens_only(state: Pairing, frames: Seq<Frame>, events: Seq<Event>)
    requires
        forall|i: int| 0 <= i < events.len() ==> (#[trigger] events[i]).etype == EType::O,
    ensures
        paired(state, frames, events).spans == state.spans,
        paired(state, frames, events).by_open == state.by_open,
        paired(state, frames, events).by_close == state.by_close,
    decreases events.len(),
{
    if events.len() > 0 {
        let init = events.drop_last();
        assert forall|i: int| 0 <= i < init.len() implies (#[trigger] init[i]).etype
            == EType::O by {
            assert(init[i] == events[i]);
        }
        lemma_opens_only(state, frames, init);
        assert(events[events.len() - 1].etype == EType::O);
    }
}

/// The spans that the builder keeps are in normal form after every stream:
/// each starts strictly before it ends, and no two overlap or touch.
pub proof fn lemma_paired_normalized(state: Pairing, frames: Seq<Frame>, events: Seq<Event>)
    requires
        normalized(state.spans),
    ensures
        normalized(paired(state, frames, events).spans),
    decreases events.len(),
{
    if events.len() > 0 {
        let before = paired(state, frames, events.drop_last());
        lemma_paired_normalized(state, frames, events.drop_last());
        let event = events.last();
        if event.etype == EType::C && before.pending.contains_key(event.frame) {
            lemma_merged_with(before.spans, before.pending[event.frame], event.at);
        }
    }
}

/// Whether every entry of the two maps names a span that `spans` covers:
/// from the open to the close timestamp, the latter not included.
pub open spec fn index_within(
    spans: Seq<(usize, usize)>,
    by_open: Map<usize, usize>,
    by_close: Map<usize, usize>,
) -> bool {
    &&& forall|open_at: usize| #[trigger]
        by_open.contains_key(open_at) ==> span_points(
            open_at as int,
            by_open[open_at] as int,
        ).subset_of(covered(spans))
    &&& forall|close_at: usize| #[trigger]
        by_close.contains_key(close_at) ==> span_points(
            by_close[close_at] as int,
            close_at as int,
        ).subset_of(covered(spans))
}

/// The builder keeps the two maps within the spans: whatever instant lies
/// between the two timestamps of an entry, the spans cover it.
pub proof fn lemma_index_within_spans(state: Pairing, frames: Seq<Frame>, events: Seq<Event>)
    requires
        normalized(state.spans),
        index_within(state.spans, state.by_open, state.by_close),
    ensures
        index_within(
            paired(state, frames, events).spans,
            paired(state, frames, events).by_open,
            paired(state, frames, events).by_close,
        ),
    decreases events.len(),
{
    if events.len() > 0 {
        let before = paired(state, frames, events.drop_last());
        let after = paired(state, frames, events);
        lemma_index_within_spans(state, frames, events.drop_last());
        lemma_paired_normalized(state, frames, events.drop_last());
        let event = events.last();
        if event.etype == EType::C && before.pending.contains_key(event.frame) {
            let open_at = before.pending[event.frame];
            lemma_merged_with(before.spans, open_at, event.at);
            assert forall|k: usize| #[trigger] after.by_open.contains_key(k) implies span_points(
                k as int,
                after.by_open[k] as int,
            ).subset_of(covered(after.spans)) by {
                if k != open_at {
                    assert(before.by_open.contains_key(k));
                }
            }
            assert forall|k: usize| #[trigger] after.by_close.contains_key(k) implies span_points(
                after.by_close[k] as int,
                k as int,
            ).subset_of(covered(after.spans)) by {
                if k != event.at {
                    assert(before.by_close.contains_key(k));
                }
            }
        }
    }
}

/// Scans the events of `profile` once and adds to the three collections what
/// the open and close events of collector frames give: to `gc_intervals` the
/// merged span of every pair, to the two maps the pair's timestamps. An open
/// event that is never closed and a close event that nothing opened are
/// passed over. An event whose frame index lies outside `frames` is reported,
/// and then nothing is added at all.
pub fn fill_gc_intervals(
    profile: &Profile,
    frames: &Vec<Frame>,
    gc_intervals: &mut SpanSet,
    gc_intervals_by_open: &mut BTreeMap<usize, usize>,
    gc_intervals_by_close: &mut BTreeMap<usize, usize>,
) -> (filled: Result<(), FrameOutOfRange>)
    ensures
        filled is Ok <==> frames_in_range(profile.events@, frames.len() as int),
        filled is Ok ==> {
            let end = paired(
                start(
                    old(gc_intervals)@,
                    old(gc_intervals_by_open)@,
                    old(gc_intervals_by_close)@,
                ),
                frames@,
                profile.events@,
            );
            &&& final(gc_intervals)@ == end.spans
            &&& final(gc_intervals_by_open)@ == end.by_open
            &&& final(gc_intervals_by_close)@ == end.by_close
        },
        filled matches Err(error) ==> {
            &&& first_out_of_range(profile.events@, frames.len() as int, error)
            &&& *final(gc_intervals) == *old(gc_intervals)
            &&& *final(gc_intervals_by_open) == *old(gc_intervals_by_open)
            &&& *final(gc_intervals_by_close) == *old(gc_intervals_by_close)
        },
        normalized(final(gc_intervals)@),
{
    proof {
        use_type_invariant(&*gc_intervals);
        gc_intervals.lemma_normalized();
    }
    match check_frames(&profile.events, frames.len()) {
        Err(error) => {
            return Err(error);
        },
        Ok(()) => {},
    }
    let ghost first = start(gc_intervals@, gc_intervals_by_open@, gc_intervals_by_close@);
    let mut open_events: HashMap<usize, usize> = HashMap::new();
    let mut i: usize = 0;
    while i < profile.events.len()
        invariant
            i <= profile.events.len(),
            frames_in_range(profile.events@, frames.len() as int),
            normalized(gc_intervals@),
            open_events@ == paired(first, frames@, profile.events@.take(i as int)).pending,
            gc_intervals@ == paired(first, frames@, profile.events@.take(i as int)).spans,
            gc_intervals_by_open@ == paired(
                first,
                frames@,
                profile.events@.take(i as int),
            ).by_open,
            gc_intervals_by_close@ == paired(
                first,
                frames@,
                profile.events@.take(i as int),
            ).by_close,
        decreases profile.events.len() - i,
    {
        let event = profile.events[i];
        proof {
            let next = profile.events@.take(i as int + 1);
            assert(next.drop_last() =~= profile.events@.take(i as int));
            assert(next.last() == event);
        }
        match event.etype {
            EType::O => {
                if gc_frame(&frames[event.frame]) {
                    open_events.insert(event.frame, event.at);
                }
            },
            EType::C => {
                match open_events.remove(&event.frame) {
                    Some(open_at) => {
                        gc_intervals.insert(open_at, event.at);
                        gc_intervals_by_open.insert(open_at, event.at);
                        gc_intervals_by_close.insert(event.at, open_at);
                    },
                    None => {},
                }
            },
        }
        i += 1;
    }
    assert(profile.events@.take(i as int) =~= profile.events@);
    Ok(())
}

} // verus!

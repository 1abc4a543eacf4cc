//! Dropping the events of collector frames from a stream.
//!
//! The filter decides event by event, by the name of the event's frame. It
//! does not look at timestamps, nor at the spans that the builder found.

use std::collections::BTreeMap;
use vstd::prelude::*;
use crate::classify::gc_frame;
use crate::classify::is_gc_name;
use crate::profile::check_frames;
use crate::profile::first_out_of_range;
use crate::profile::frames_in_range;
use crate::profile::Event;
use crate::profile::Frame;
use crate::profile::FrameOutOfRange;
use crate::profile::Profile;
use crate::span_set::SpanSet;

verus! {

/// Whether the filter keeps `event`: its frame is not one of the collector.
pub open spec fn keeps(frames: Seq<Frame>, event: Event) -> bool {
    !is_gc_name(frames[event.frame as int].name@)
}

/// The events that the filter keeps, in the order of the stream.
pub open spec fn retained(frames: Seq<Frame>, events: Seq<Event>) -> Seq<Event> {
    events.filter(|event: Event| keeps(frames, event))
}

/// No event of a collector frame is among the retained ones.
pub proof fn lemma_retained_not_gc(frames: Seq<Frame>, events: Seq<Event>)
    ensures
        forall|k: int|
            0 <= k < retained(frames, events).len() ==> keeps(
                frames,
                #[trigger] retained(frames, events)[k],
            ),
{
    let keep = |event: Event| keeps(frames, event);
    assert forall|k: int| 0 <= k < retained(frames, events).len() implies keeps(
        frames,
        #[trigger] retained(frames, events)[k],
    ) by {
        events.lemma_filter_pred(keep, k);
    }
}

/// A stream without any event of a collector frame is retained as it is.
pub proof fn lemma_retained_identity(frames: Seq<Frame>, events: Seq<Event>)
    requires
        forall|i: int| 0 <= i < events.len() ==> keeps(frames, #[trigger] events[i]),
    ensures
        retained(frames, events) == events,
    decreases events.len(),
{
    reveal(Seq::filter);
    if events.len() > 0 {
        let init = events.drop_last();
        assert forall|i: int| 0 <= i < init.len() implies keeps(frames, #[trigger] init[i]) by {
            assert(init[i] == events[i]);
        }
        lemma_retained_identity(frames, init);
        assert(keeps(frames, events[events.len() - 1]));
        assert(init.push(events.last()) =~= events);
    }
}

/// Every retained event is an event of the stream, and the retained events
/// keep the order that they have there.
pub proof fn lemma_retained_in_order(frames: Seq<Frame>, events: Seq<Event>) -> (at: Seq<int>)
    ensures
        at.len() == retained(frames, events).len(),
        forall|k: int|
            0 <= k < at.len() ==> 0 <= #[trigger] at[k] < events.len() && events[at[k]]
                == retained(frames, events)[k],
        forall|k: int, l: int| 0 <= k < l < at.len() ==> #[trigger] at[k] < #[trigger] at[l],
    decreases events.len(),
{
    reveal(Seq::filter);
    if events.len() == 0 {
        Seq::empty()
    } else {
        let init = events.drop_last();
        let before = lemma_retained_in_order(frames, init);
        assert forall|k: int| 0 <= k < before.len() implies events[#[trigger] before[k]]
            == init[before[k]] by {}
        if keeps(frames, events.last()) {
            before.push(events.len() - 1)
        } else {
            before
        }
    }
}

/// Appends to the events of `out_profile` the events of `profile` whose frame
/// is not one of the collector, in their order. Open and close events are
/// treated alike. The spans that the builder found are taken but not
/// consulted: the decision rests on the frame's name alone. An event whose
/// frame index lies outside `frames` is reported, and then nothing is
/// appended.
pub fn span_events(
    out_profile: &mut Profile,
    profile: &Profile,
    frames: &Vec<Frame>,
    _gc_intervals: &SpanSet,
    _gc_intervals_by_open: &BTreeMap<usize, usize>,
    _gc_intervals_by_close: &BTreeMap<usize, usize>,
) -> (spanned: Result<(), FrameOutOfRange>)
    ensures
        spanned is Ok <==> frames_in_range(profile.events@, frames.len() as int),
        spanned is Ok ==> final(out_profile).events@ == old(out_profile).events@ + retained(
            frames@,
            profile.events@,
        ),
        spanned matches Err(error) ==> {
            &&& first_out_of_range(profile.events@, frames.len() as int, error)
            &&& final(out_profile).events == old(out_profile).events
        },
        final(out_profile).ptype == old(out_profile).ptype,
        final(out_profile).name == old(out_profile).name,
        final(out_profile).unit == old(out_profile).unit,
        final(out_profile).start_value == old(out_profile).start_value,
        final(out_profile).end_value == old(out_profile).end_value,
{
    match check_frames(&profile.events, frames.len()) {
        Err(error) => {
            return Err(error);
        },
        Ok(()) => {},
    }
    let ghost before = out_profile.events@;
    let mut i: usize = 0;
    proof {
        reveal(Seq::filter);
        assert(profile.events@.take(0) =~= Seq::<Event>::empty());
    }
    while i < profile.events.len()
        invariant
            i <= profile.events.len(),
            frames_in_range(profile.events@, frames.len() as int),
            out_profile.events@ == before + retained(frames@, profile.events@.take(i as int)),
            out_profile.ptype == old(out_profile).ptype,
            out_profile.name == old(out_profile).name,
            out_profile.unit == old(out_profile).unit,
            out_profile.start_value == old(out_profile).start_value,
            out_profile.end_value == old(out_profile).end_value,
        decreases profile.events.len() - i,
    {
        let event = profile.events[i];
        proof {
            reveal(Seq::filter);
            let next = profile.events@.take(i as int + 1);
            assert(next.drop_last() =~= profile.events@.take(i as int));
            assert(next.last() == event);
        }
        if !gc_frame(&frames[event.frame]) {
            out_profile.events.push(event);
        }
        i += 1;
        assert(out_profile.events@ =~= before + retained(
            frames@,
            profile.events@.take(i as int),
        ));
    }
    assert(profile.events@.take(i as int) =~= profile.events@);
    Ok(())
}

} // verus!

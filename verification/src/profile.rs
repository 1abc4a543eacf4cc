//! The in-memory shape of a profile document.

use vstd::prelude::*;

verus! {

/// Whether an event opens or closes a call of its frame.
#[derive(Clone, Copy, Debug, PartialEq, Eq, Structural)]
pub enum EType {
    /// The frame is entered.
    O,
    /// The frame is left.
    C,
}

/// One occurrence in the trace.
#[derive(Clone, Copy, Debug, PartialEq, Eq, Structural)]
pub struct Event {
    pub etype: EType,
    /// Index into the document's frame table.
    pub frame: usize,
    /// Timestamp, in the profile's unit.
    pub at: usize,
}

/// A stack location. Events refer to it by its index in the frame table.
#[derive(Debug)]
pub struct Frame {
    pub name: String,
    pub file: String,
    pub line: Option<usize>,
}

/// What all profiles of a document share: the frame table.
#[derive(Debug)]
pub struct Shared {
    pub frames: Vec<Frame>,
}

/// One timeline of events.
#[derive(Debug)]
pub struct Profile {
    pub ptype: String,
    pub name: String,
    pub unit: String,
    pub start_value: usize,
    pub end_value: usize,
    pub events: Vec<Event>,
}

/// The whole document: descriptive fields, the frame table and the profiles.
#[derive(Debug)]
pub struct Speedscope {
    pub exporter: String,
    pub name: String,
    pub active_profile_index: usize,
    pub schema: String,
    pub shared: Shared,
    pub profiles: Vec<Profile>,
}

/// An event that names a frame which the frame table does not hold.
#[derive(Clone, Copy, Debug, PartialEq, Eq, Structural)]
pub struct FrameOutOfRange {
    /// Position of the event in its stream.
    pub event: usize,
    /// The frame index that the event carries.
    pub frame: usize,
}

/// Whether every event names a frame of a table of `frames` entries.
pub open spec fn frames_in_range(events: Seq<Event>, frames: int) -> bool {
    forall|i: int| 0 <= i < events.len() ==> (#[trigger] events[i]).frame < frames
}

/// Whether `error` reports the first event of the stream whose frame index
/// is not below `frames`.
pub open spec fn first_out_of_range(
    events: Seq<Event>,
    frames: int,
    error: FrameOutOfRange,
) -> bool {
    &&& error.event < events.len()
    &&& error.frame == events[error.event as int].frame
    &&& error.frame >= frames
    &&& frames_in_range(events.take(error.event as int), frames)
}

/// Checks that every event names a frame of a table of `frames` entries, and
/// reports the first one that does not.
pub fn check_frames(events: &Vec<Event>, frames: usize) -> (checked: Result<(), FrameOutOfRange>)
    ensures
        checked is Ok <==> frames_in_range(events@, frames as int),
        checked matches Err(error) ==> first_out_of_range(events@, frames as int, error),
{
    let mut i: usize = 0;
    while i < events.len()
        invariant
            i <= events.len(),
            frames_in_range(events@.take(i as int), frames as int),
        decreases events.len() - i,
    {
        let event = events[i];
        if event.frame >= frames {
            return Err(FrameOutOfRange { event: i, frame: event.frame });
        }
        i += 1;
        assert forall|k: int| 0 <= k < i implies (#[trigger] events@.take(i as int)[k]).frame
            < frames by {
            if k < i - 1 {
                assert(events@.take(i as int)[k] == events@.take(i as int - 1)[k]);
            }
        }
    }
    assert(events@.take(i as int) =~= events@);
    Ok(())
}

} // verus!

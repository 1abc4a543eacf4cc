//! Both stages applied to every profile of a document.

use std::collections::BTreeMap;
use vstd::prelude::*;
use crate::builder::fill_gc_intervals;
use crate::builder::paired;
use crate::builder::start;
use crate::filter::retained;
use crate::filter::span_events;
use crate::profile::first_out_of_range;
use crate::profile::frames_in_range;
use crate::profile::Event;
use crate::profile::Frame;
use crate::profile::FrameOutOfRange;
use crate::profile::Profile;
use crate::profile::Speedscope;
use crate::spans::normalized;
use crate::span_set::SpanSet;

verus! {

/// What the builder finds in one profile.
pub struct GcIntervals {
    /// The merged spans during which a collector frame was open.
    pub spans: SpanSet,
    /// From the open timestamp of each pair of events to its close timestamp.
    pub by_open: BTreeMap<usize, usize>,
    /// From the close timestamp of each pair of events to its open timestamp.
    pub by_close: BTreeMap<usize, usize>,
}

/// A document without the events of collector frames, and what the builder
/// found in each of its profiles.
pub struct Cleaned {
    pub document: Speedscope,
    /// One entry for each profile, in the document's order.
    pub gc_intervals: Vec<GcIntervals>,
}

/// A profile that holds an event with a frame index outside the frame table.
#[derive(Clone, Copy, Debug, PartialEq, Eq, Structural)]
pub struct ProfileOutOfRange {
    /// Position of the profile in the document.
    pub profile: usize,
    /// The first such event of that profile.
    pub error: FrameOutOfRange,
}

/// Whether `after` is `before` with the events of collector frames removed
/// and everything else as it was.
pub open spec fn is_cleaned(frames: Seq<Frame>, before: Profile, after: Profile) -> bool {
    &&& after.ptype == before.ptype
    &&& after.name == before.name
    &&& after.unit == before.unit
    &&& after.start_value == before.start_value
    &&& after.end_value == before.end_value
    &&& after.events@ == retained(frames, before.events@)
}

/// Whether `found` is what the builder gives for `events`, from nothing.
pub open spec fn is_built(frames: Seq<Frame>, events: Seq<Event>, found: GcIntervals) -> bool {
    let end = paired(start(Seq::empty(), Map::empty(), Map::empty()), frames, events);
    &&& found.spans@ == end.spans
    &&& found.by_open@ == end.by_open
    &&& found.by_close@ == end.by_close
    &&& normalized(found.spans@)
}

/// Runs the builder and then the filter on each profile of `speedscope`.
/// The result is the document with each profile's events filtered and all
/// else unchanged, beside the spans found in each profile. The first profile
/// with an event whose frame index lies outside the frame table is reported,
/// with that event, and then there is no result.
pub fn remove_gc(speedscope: Speedscope) -> (removed: Result<Cleaned, ProfileOutOfRange>)
    ensures
        removed is Ok <==> forall|p: int|
            0 <= p < speedscope.profiles.len() ==> frames_in_range(
                (#[trigger] speedscope.profiles[p]).events@,
                speedscope.shared.frames.len() as int,
            ),
        removed matches Ok(cleaned) ==> {
            &&& cleaned.document.exporter == speedscope.exporter
            &&& cleaned.document.name == speedscope.name
            &&& cleaned.document.active_profile_index == speedscope.active_profile_index
            &&& cleaned.document.schema == speedscope.schema
            &&& cleaned.document.shared == speedscope.shared
            &&& cleaned.document.profiles.len() == speedscope.profiles.len()
            &&& cleaned.gc_intervals.len() == speedscope.profiles.len()
            &&& forall|p: int|
                0 <= p < speedscope.profiles.len() ==> is_cleaned(
                    speedscope.shared.frames@,
                    speedscope.profiles[p],
                    #[trigger] cleaned.document.profiles[p],
                )
            &&& forall|p: int|
                0 <= p < speedscope.profiles.len() ==> is_built(
                    speedscope.shared.frames@,
                    speedscope.profiles[p].events@,
                    #[trigger] cleaned.gc_intervals[p],
                )
        },
        removed matches Err(refused) ==> {
            &&& refused.profile < speedscope.profiles.len()
            &&& first_out_of_range(
                speedscope.profiles[refused.profile as int].events@,
                speedscope.shared.frames.len() as int,
                refused.error,
            )
            &&& forall|p: int|
                0 <= p < refused.profile ==> frames_in_range(
                    (#[trigger] speedscope.profiles[p]).events@,
                    speedscope.shared.frames.len() as int,
                )
        },
{
    let Speedscope { exporter, name, active_profile_index, schema, shared, profiles } = speedscope;
    let mut out_profiles: Vec<Profile> = Vec::new();
    let mut found: Vec<GcIntervals> = Vec::new();
    let mut p: usize = 0;
    while p < profiles.len()
        invariant
            profiles == speedscope.profiles,
            shared == speedscope.shared,
            p <= profiles.len(),
            out_profiles.len() == p,
            found.len() == p,
            forall|q: int|
                0 <= q < p ==> frames_in_range(
                    (#[trigger] profiles[q]).events@,
                    shared.frames.len() as int,
                ),
            forall|q: int|
                0 <= q < p ==> is_cleaned(shared.frames@, profiles[q], #[trigger] out_profiles[q]),
            forall|q: int|
                0 <= q < p ==> is_built(shared.frames@, profiles[q].events@, #[trigger] found[q]),
        decreases profiles.len() - p,
    {
        let profile = &profiles[p];
        let mut gc_intervals = SpanSet::new();
        let mut gc_intervals_by_open: BTreeMap<usize, usize> = BTreeMap::new();
        let mut gc_intervals_by_close: BTreeMap<usize, usize> = BTreeMap::new();
        match fill_gc_intervals(
            profile,
            &shared.frames,
            &mut gc_intervals,
            &mut gc_intervals_by_open,
            &mut gc_intervals_by_close,
        ) {
            Err(error) => {
                return Err(ProfileOutOfRange { profile: p, error });
            },
            Ok(()) => {},
        }
        let mut out_profile = Profile {
            ptype: profile.ptype.clone(),
            name: profile.name.clone(),
            unit: profile.unit.clone(),
            start_value: profile.start_value,
            end_value: profile.end_value,
            events: Vec::new(),
        };
        match span_events(
            &mut out_profile,
            profile,
            &shared.frames,
            &gc_intervals,
            &gc_intervals_by_open,
            &gc_intervals_by_close,
        ) {
            Err(error) => {
                return Err(ProfileOutOfRange { profile: p, error });
            },
            Ok(()) => {},
        }
        assert(out_profile.events@ =~= retained(shared.frames@, profile.events@));
        out_profiles.push(out_profile);
        found.push(
            GcIntervals {
                spans: gc_intervals,
                by_open: gc_intervals_by_open,
                by_close: gc_intervals_by_close,
            },
        );
        p += 1;
    }
    Ok(
        Cleaned {
            document: Speedscope {
                exporter,
                name,
                active_profile_index,
                schema,
                shared,
                profiles: out_profiles,
            },
            gc_intervals: found,
        },
    )
}

} // verus!

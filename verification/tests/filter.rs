use std::collections::BTreeMap;

use speedscope_gc::document::remove_gc;
use speedscope_gc::document::ProfileOutOfRange;
use speedscope_gc::filter::span_events;
use speedscope_gc::profile::EType;
use speedscope_gc::profile::Event;
use speedscope_gc::profile::Frame;
use speedscope_gc::profile::FrameOutOfRange;
use speedscope_gc::profile::Profile;
use speedscope_gc::profile::Shared;
use speedscope_gc::profile::Speedscope;
use speedscope_gc::span_set::SpanSet;

fn frame(name: &str) -> Frame {
    Frame { name: name.to_string(), file: "app.rb".to_string(), line: Some(7) }
}

fn open(frame: usize, at: usize) -> Event {
    Event { etype: EType::O, frame, at }
}

fn close(frame: usize, at: usize) -> Event {
    Event { etype: EType::C, frame, at }
}

fn profile_of(name: &str, events: Vec<Event>) -> Profile {
    Profile {
        ptype: "evented".to_string(),
        name: name.to_string(),
        unit: "nanoseconds".to_string(),
        start_value: 3,
        end_value: 100,
        events,
    }
}

fn filter(frames: &Vec<Frame>, events: Vec<Event>) -> (Result<(), FrameOutOfRange>, Vec<Event>) {
    let mut out = profile_of("out", vec![]);
    let result = span_events(
        &mut out,
        &profile_of("in", events),
        frames,
        &SpanSet::new(),
        &BTreeMap::new(),
        &BTreeMap::new(),
    );
    (result, out.events)
}

fn gc_and_compute() -> Vec<Frame> {
    vec![frame("(garbage collection)"), frame("compute")]
}

#[test]
fn gc_events_inside_compute_are_dropped() {
    let (result, kept) =
        filter(&gc_and_compute(), vec![open(1, 0), open(0, 5), close(0, 8), close(1, 10)]);
    assert_eq!(result, Ok(()));
    assert_eq!(kept, vec![open(1, 0), close(1, 10)]);
}

#[test]
fn no_gc_event_survives() {
    let frames = vec![
        frame("a"),
        frame("(marking)"),
        frame("b"),
        frame("(sweeping)"),
        frame("(garbage collection)"),
    ];
    let mut events = vec![];
    for at in 0..60 {
        let frame = (at * 7 + at / 5) % 5;
        events.push(if at % 3 == 0 { close(frame, at) } else { open(frame, at) });
    }
    let (result, kept) = filter(&frames, events.clone());
    assert_eq!(result, Ok(()));
    assert!(kept.iter().all(|e| e.frame == 0 || e.frame == 2));
    let expected: Vec<Event> =
        events.into_iter().filter(|e| e.frame == 0 || e.frame == 2).collect();
    assert_eq!(kept, expected);
}

#[test]
fn stream_without_gc_frames_is_returned_as_it_is() {
    let frames = vec![frame("compute"), frame("render"), frame("(Marking)")];
    let events = vec![
        open(0, 0),
        open(1, 2),
        open(2, 2),
        close(2, 3),
        close(1, 5),
        close(0, 5),
        close(1, 9),
    ];
    let (result, kept) = filter(&frames, events.clone());
    assert_eq!(result, Ok(()));
    assert_eq!(kept, events);
}

#[test]
fn stream_of_gc_frames_only_is_emptied() {
    let frames = vec![frame("(marking)"), frame("(sweeping)")];
    let (result, kept) = filter(&frames, vec![open(0, 0), open(1, 2), close(1, 3), close(0, 5)]);
    assert_eq!(result, Ok(()));
    assert_eq!(kept, vec![]);
}

#[test]
fn filter_ignores_timestamps_and_spans() {
    let frames = gc_and_compute();
    let mut inside = SpanSet::new();
    inside.insert(0, 100);
    let mut out = profile_of("out", vec![]);
    let events = vec![open(0, 5), open(1, 6), close(1, 7), close(0, 8)];
    let result = span_events(
        &mut out,
        &profile_of("in", events),
        &frames,
        &inside,
        &[(5, 8)].into_iter().collect(),
        &[(8, 5)].into_iter().collect(),
    );
    assert_eq!(result, Ok(()));
    assert_eq!(out.events, vec![open(1, 6), close(1, 7)]);
}

#[test]
fn retained_events_are_appended() {
    let frames = gc_and_compute();
    let mut out = profile_of("out", vec![open(1, 1), close(1, 2)]);
    let result = span_events(
        &mut out,
        &profile_of("in", vec![open(0, 3), open(1, 4), close(0, 5), close(1, 6)]),
        &frames,
        &SpanSet::new(),
        &BTreeMap::new(),
        &BTreeMap::new(),
    );
    assert_eq!(result, Ok(()));
    assert_eq!(out.events, vec![open(1, 1), close(1, 2), open(1, 4), close(1, 6)]);
    assert_eq!(out.name, "out");
    assert_eq!(out.ptype, "evented");
    assert_eq!(out.unit, "nanoseconds");
    assert_eq!(out.start_value, 3);
    assert_eq!(out.end_value, 100);
}

#[test]
fn filter_reports_frame_out_of_range() {
    let frames = gc_and_compute();
    let mut out = profile_of("out", vec![open(1, 1)]);
    let result = span_events(
        &mut out,
        &profile_of("in", vec![open(1, 3), close(2, 4), open(5, 6)]),
        &frames,
        &SpanSet::new(),
        &BTreeMap::new(),
        &BTreeMap::new(),
    );
    assert_eq!(result, Err(FrameOutOfRange { event: 1, frame: 2 }));
    assert_eq!(out.events, vec![open(1, 1)]);
}

fn document(frames: Vec<Frame>, profiles: Vec<Profile>) -> Speedscope {
    Speedscope {
        exporter: "stackprof".to_string(),
        name: "trace".to_string(),
        active_profile_index: 1,
        schema: "https://www.speedscope.app/file-format-schema.json".to_string(),
        shared: Shared { frames },
        profiles,
    }
}

#[test]
fn document_keeps_everything_but_gc_events() {
    let input = document(
        gc_and_compute(),
        vec![
            profile_of("first", vec![open(1, 0), open(0, 5), close(0, 8), close(1, 10)]),
            profile_of("second", vec![open(0, 2), close(0, 6), open(0, 4), close(0, 9)]),
            profile_of("third", vec![]),
        ],
    );
    let cleaned = remove_gc(input).unwrap();
    let out = cleaned.document;
    assert_eq!(out.exporter, "stackprof");
    assert_eq!(out.name, "trace");
    assert_eq!(out.active_profile_index, 1);
    assert_eq!(out.schema, "https://www.speedscope.app/file-format-schema.json");
    assert_eq!(out.shared.frames.len(), 2);
    assert_eq!(out.shared.frames[0].name, "(garbage collection)");
    assert_eq!(out.shared.frames[1].name, "compute");
    assert_eq!(out.shared.frames[1].file, "app.rb");
    assert_eq!(out.shared.frames[1].line, Some(7));
    assert_eq!(out.profiles.len(), 3);
    assert_eq!(out.profiles[0].name, "first");
    assert_eq!(out.profiles[0].ptype, "evented");
    assert_eq!(out.profiles[0].unit, "nanoseconds");
    assert_eq!(out.profiles[0].start_value, 3);
    assert_eq!(out.profiles[0].end_value, 100);
    assert_eq!(out.profiles[0].events, vec![open(1, 0), close(1, 10)]);
    assert_eq!(out.profiles[1].name, "second");
    assert_eq!(out.profiles[1].events, vec![]);
    assert_eq!(out.profiles[2].name, "third");
    assert_eq!(out.profiles[2].events, vec![]);
    assert_eq!(cleaned.gc_intervals.len(), 3);
    assert_eq!(cleaned.gc_intervals[0].spans.spans(), vec![(5, 8)]);
    assert_eq!(cleaned.gc_intervals[0].by_open.get(&5), Some(&8));
    assert_eq!(cleaned.gc_intervals[0].by_close.get(&8), Some(&5));
    assert_eq!(cleaned.gc_intervals[1].spans.spans(), vec![(2, 9)]);
    assert_eq!(cleaned.gc_intervals[1].by_open.len(), 2);
    assert_eq!(cleaned.gc_intervals[2].spans.spans(), vec![]);
    assert!(cleaned.gc_intervals[2].by_open.is_empty());
}

#[test]
fn document_without_profiles_is_unchanged() {
    let cleaned = remove_gc(document(gc_and_compute(), vec![])).unwrap();
    assert_eq!(cleaned.document.profiles.len(), 0);
    assert_eq!(cleaned.gc_intervals.len(), 0);
    assert_eq!(cleaned.document.shared.frames.len(), 2);
}

#[test]
fn document_reports_the_first_profile_out_of_range() {
    let input = document(
        gc_and_compute(),
        vec![
            profile_of("first", vec![open(1, 0), close(1, 10)]),
            profile_of("second", vec![open(1, 0), close(1, 1), close(4, 2), open(3, 3)]),
            profile_of("third", vec![open(2, 0)]),
        ],
    );
    match remove_gc(input) {
        Err(refused) => assert_eq!(
            refused,
            ProfileOutOfRange { profile: 1, error: FrameOutOfRange { event: 2, frame: 4 } }
        ),
        Ok(_) => panic!("a frame index outside the table was accepted"),
    }
}

use std::collections::BTreeMap;

use speedscope_gc::builder::fill_gc_intervals;
use speedscope_gc::profile::check_frames;
use speedscope_gc::profile::EType;
use speedscope_gc::profile::Event;
use speedscope_gc::profile::Frame;
use speedscope_gc::profile::FrameOutOfRange;
use speedscope_gc::profile::Profile;
use speedscope_gc::span_set::SpanSet;

fn frame(name: &str) -> Frame {
    Frame { name: name.to_string(), file: "app.rb".to_string(), line: None }
}

fn open(frame: usize, at: usize) -> Event {
    Event { etype: EType::O, frame, at }
}

fn close(frame: usize, at: usize) -> Event {
    Event { etype: EType::C, frame, at }
}

fn profile_of(events: Vec<Event>) -> Profile {
    Profile {
        ptype: "evented".to_string(),
        name: "main".to_string(),
        unit: "nanoseconds".to_string(),
        start_value: 0,
        end_value: 100,
        events,
    }
}

struct Built {
    result: Result<(), FrameOutOfRange>,
    spans: Vec<(usize, usize)>,
    by_open: BTreeMap<usize, usize>,
    by_close: BTreeMap<usize, usize>,
}

fn build(frames: &Vec<Frame>, events: Vec<Event>) -> Built {
    let mut set = SpanSet::new();
    let mut by_open = BTreeMap::new();
    let mut by_close = BTreeMap::new();
    let result =
        fill_gc_intervals(&profile_of(events), frames, &mut set, &mut by_open, &mut by_close);
    Built { result, spans: set.spans(), by_open, by_close }
}

fn gc_and_compute() -> Vec<Frame> {
    vec![frame("(garbage collection)"), frame("compute")]
}

fn map_of(pairs: &[(usize, usize)]) -> BTreeMap<usize, usize> {
    pairs.iter().cloned().collect()
}

#[test]
fn gc_span_inside_compute() {
    let built =
        build(&gc_and_compute(), vec![open(1, 0), open(0, 5), close(0, 8), close(1, 10)]);
    assert_eq!(built.result, Ok(()));
    assert_eq!(built.spans, vec![(5, 8)]);
    assert_eq!(built.by_open, map_of(&[(5, 8)]));
    assert_eq!(built.by_close, map_of(&[(8, 5)]));
}

#[test]
fn overlapping_gc_spans_merge() {
    let frames = vec![frame("(marking)"), frame("(sweeping)")];
    let built = build(&frames, vec![open(0, 2), open(1, 4), close(0, 6), close(1, 9)]);
    assert_eq!(built.result, Ok(()));
    assert_eq!(built.spans, vec![(2, 9)]);
    assert_eq!(built.by_open, map_of(&[(2, 6), (4, 9)]));
    assert_eq!(built.by_close, map_of(&[(6, 2), (9, 4)]));
}

#[test]
fn same_frame_twice_with_touching_spans() {
    let frames = gc_and_compute();
    let built = build(&frames, vec![open(0, 2), close(0, 6), open(0, 6), close(0, 9)]);
    assert_eq!(built.spans, vec![(2, 9)]);
    assert_eq!(built.by_open, map_of(&[(2, 6), (6, 9)]));
    assert_eq!(built.by_close, map_of(&[(6, 2), (9, 6)]));
}

#[test]
fn separate_gc_spans_stay_apart() {
    let frames = gc_and_compute();
    let built = build(&frames, vec![open(0, 2), close(0, 6), open(0, 7), close(0, 9)]);
    assert_eq!(built.spans, vec![(2, 6), (7, 9)]);
}

#[test]
fn unmatched_close_is_ignored() {
    let frames = gc_and_compute();
    let built = build(&frames, vec![close(0, 3), open(0, 5), close(0, 8), close(0, 9)]);
    assert_eq!(built.result, Ok(()));
    assert_eq!(built.spans, vec![(5, 8)]);
    assert_eq!(built.by_open, map_of(&[(5, 8)]));
    assert_eq!(built.by_close, map_of(&[(8, 5)]));
}

#[test]
fn only_unmatched_closes_give_nothing() {
    let built = build(&gc_and_compute(), vec![close(0, 3), close(1, 4), close(0, 9)]);
    assert_eq!(built.result, Ok(()));
    assert_eq!(built.spans, vec![]);
    assert!(built.by_open.is_empty());
    assert!(built.by_close.is_empty());
}

#[test]
fn only_opens_give_an_empty_set() {
    let built = build(&gc_and_compute(), vec![open(0, 1), open(1, 2), open(0, 3), open(0, 9)]);
    assert_eq!(built.result, Ok(()));
    assert_eq!(built.spans, vec![]);
    assert!(built.by_open.is_empty());
    assert!(built.by_close.is_empty());
}

#[test]
fn no_events_give_an_empty_set() {
    let built = build(&gc_and_compute(), vec![]);
    assert_eq!(built.result, Ok(()));
    assert_eq!(built.spans, vec![]);
}

#[test]
fn events_of_other_frames_are_ignored() {
    let built = build(&gc_and_compute(), vec![open(1, 0), close(1, 10), open(1, 12), close(1, 20)]);
    assert_eq!(built.result, Ok(()));
    assert_eq!(built.spans, vec![]);
    assert!(built.by_open.is_empty());
}

#[test]
fn second_open_supersedes_the_first() {
    let built = build(&gc_and_compute(), vec![open(0, 2), open(0, 5), close(0, 8), close(0, 9)]);
    assert_eq!(built.spans, vec![(5, 8)]);
    assert_eq!(built.by_open, map_of(&[(5, 8)]));
    assert_eq!(built.by_close, map_of(&[(8, 5)]));
}

#[test]
fn pair_without_duration_is_indexed_but_not_stored() {
    let built = build(&gc_and_compute(), vec![open(0, 5), close(0, 5)]);
    assert_eq!(built.result, Ok(()));
    assert_eq!(built.spans, vec![]);
    assert_eq!(built.by_open, map_of(&[(5, 5)]));
    assert_eq!(built.by_close, map_of(&[(5, 5)]));
}

#[test]
fn later_pair_with_the_same_open_timestamp_replaces_the_index_entry() {
    let frames = vec![frame("(marking)"), frame("(sweeping)")];
    let built = build(&frames, vec![open(0, 2), open(1, 2), close(0, 4), close(1, 7)]);
    assert_eq!(built.spans, vec![(2, 7)]);
    assert_eq!(built.by_open, map_of(&[(2, 7)]));
    assert_eq!(built.by_close, map_of(&[(4, 2), (7, 2)]));
}

#[test]
fn all_three_gc_names_are_paired() {
    let frames = vec![
        frame("(garbage collection)"),
        frame("(marking)"),
        frame("(sweeping)"),
        frame("(Sweeping)"),
    ];
    let built = build(
        &frames,
        vec![
            open(0, 1),
            close(0, 2),
            open(1, 4),
            close(1, 5),
            open(2, 7),
            close(2, 8),
            open(3, 10),
            close(3, 11),
        ],
    );
    assert_eq!(built.spans, vec![(1, 2), (4, 5), (7, 8)]);
}

#[test]
fn fill_adds_to_what_the_collections_hold() {
    let frames = gc_and_compute();
    let mut set = SpanSet::new();
    set.insert(0, 3);
    set.insert(20, 30);
    let mut by_open = map_of(&[(0, 3), (20, 30)]);
    let mut by_close = map_of(&[(3, 0), (30, 20)]);
    let profile = profile_of(vec![open(0, 3), close(0, 6), open(0, 18), close(0, 20)]);
    let result = fill_gc_intervals(&profile, &frames, &mut set, &mut by_open, &mut by_close);
    assert_eq!(result, Ok(()));
    assert_eq!(set.spans(), vec![(0, 6), (18, 30)]);
    assert_eq!(by_open, map_of(&[(0, 3), (3, 6), (18, 20), (20, 30)]));
    assert_eq!(by_close, map_of(&[(3, 0), (6, 3), (20, 18), (30, 20)]));
}

#[test]
fn open_with_frame_out_of_range_is_reported() {
    let frames = gc_and_compute();
    let mut set = SpanSet::new();
    set.insert(1, 2);
    let mut by_open = map_of(&[(1, 2)]);
    let mut by_close = map_of(&[(2, 1)]);
    let profile = profile_of(vec![open(0, 5), close(0, 8), open(2, 9), close(7, 10)]);
    let result = fill_gc_intervals(&profile, &frames, &mut set, &mut by_open, &mut by_close);
    assert_eq!(result, Err(FrameOutOfRange { event: 2, frame: 2 }));
    assert_eq!(set.spans(), vec![(1, 2)]);
    assert_eq!(by_open, map_of(&[(1, 2)]));
    assert_eq!(by_close, map_of(&[(2, 1)]));
}

#[test]
fn close_with_frame_out_of_range_is_reported() {
    let built = build(&gc_and_compute(), vec![open(0, 5), close(9, 6), close(0, 8)]);
    assert_eq!(built.result, Err(FrameOutOfRange { event: 1, frame: 9 }));
    assert_eq!(built.spans, vec![]);
    assert!(built.by_open.is_empty());
    assert!(built.by_close.is_empty());
}

#[test]
fn any_frame_is_out_of_range_of_an_empty_table() {
    let built = build(&vec![], vec![open(0, 1)]);
    assert_eq!(built.result, Err(FrameOutOfRange { event: 0, frame: 0 }));
    let built = build(&vec![], vec![]);
    assert_eq!(built.result, Ok(()));
}

#[test]
fn check_frames_reports_the_first_offender() {
    let events = vec![open(0, 1), open(3, 2), close(1, 3), close(5, 4)];
    assert_eq!(check_frames(&events, 6), Ok(()));
    assert_eq!(check_frames(&events, 4), Err(FrameOutOfRange { event: 3, frame: 5 }));
    assert_eq!(check_frames(&events, 3), Err(FrameOutOfRange { event: 1, frame: 3 }));
    assert_eq!(check_frames(&events, 0), Err(FrameOutOfRange { event: 0, frame: 0 }));
    assert_eq!(check_frames(&vec![], 0), Ok(()));
}

fn pseudo_random_stream(mut seed: u64, len: usize, frames: usize) -> Vec<Event> {
    let mut events = vec![];
    let mut at = 0;
    for _ in 0..len {
        seed = seed.wrapping_mul(6364136223846793005).wrapping_add(1442695040888963407);
        let frame = ((seed >> 33) as usize) % frames;
        seed = seed.wrapping_mul(6364136223846793005).wrapping_add(1442695040888963407);
        let is_open = (seed >> 40) % 2 == 0;
        seed = seed.wrapping_mul(6364136223846793005).wrapping_add(1442695040888963407);
        at += ((seed >> 35) as usize) % 3;
        events.push(if is_open { open(frame, at) } else { close(frame, at) });
    }
    events
}

#[test]
fn spans_cover_exactly_the_instants_between_paired_events() {
    let frames =
        vec![frame("(marking)"), frame("compute"), frame("(sweeping)"), frame("render")];
    for seed in 0..40 {
        let events = pseudo_random_stream(seed, 80, frames.len());
        let last_at = events.last().map(|e| e.at).unwrap_or(0);
        let mut inside = vec![false; last_at + 2];
        for i in 0..events.len() {
            let gc = events[i].frame == 0 || events[i].frame == 2;
            if events[i].etype != EType::O || !gc {
                continue;
            }
            let next = (i + 1..events.len()).find(|&j| events[j].frame == events[i].frame);
            if let Some(j) = next {
                if events[j].etype == EType::C {
                    for t in events[i].at..events[j].at {
                        inside[t] = true;
                    }
                }
            }
        }
        let built = build(&frames, events);
        assert_eq!(built.result, Ok(()));
        for t in 0..inside.len() {
            assert_eq!(built.spans.iter().any(|s| s.0 <= t && t < s.1), inside[t]);
        }
        assert!(built.spans.iter().all(|s| s.0 < s.1));
        assert!(built.spans.windows(2).all(|w| w[0].1 < w[1].0));
        for (&open_at, &close_at) in built.by_open.iter() {
            assert!((open_at..close_at).all(|t| inside[t]));
            assert_eq!(built.by_close.get(&close_at).map(|&o| o <= close_at), Some(true));
        }
        for (&close_at, &open_at) in built.by_close.iter() {
            assert!((open_at..close_at).all(|t| inside[t]));
            assert!(built.by_open.contains_key(&open_at));
        }
    }
}

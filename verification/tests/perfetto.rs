use pt_fuser::perfetto::converter::{
    can_show, create_event, Converter, GLOBAL_TRACK_ID, PAUSE_BLOCK_NAME, TRACE_SEQUENCE_ID,
    TRACE_TRACK_ID,
};
use pt_fuser::perfetto::intern::InternedStrings;
use pt_fuser::perfetto::packet::{
    ChildTracksOrdering, Data, DebugValue, EventType, NameField, SequenceFlags, TracePacket,
    TrackDescriptor, TrackEvent,
};
use pt_fuser::perfetto::PauseRenderOption;
use pt_fuser::trace::metrics::{Metrics, MetricsRange};
use pt_fuser::trace::{Annotation, Event, Frame, SymbolInfo, Trace};
use std::sync::Arc;

fn range(start: u64, end: u64) -> MetricsRange {
    MetricsRange::new(Metrics::constant(start), &Metrics::constant(end))
}

fn frame(start: u64, end: u64, name: &str) -> Frame {
    let symbol = SymbolInfo { name: name.to_string(), offset: 1, size: 1 };
    Frame::new(range(start, end), 0, Arc::new(symbol))
}

// The root calls "child" twice, with a pause between.
fn sample_trace(events: Vec<Event>) -> Trace {
    let mut root = frame(100, 200, "root");
    root.add_child(frame(110, 120, "child")).unwrap();
    root.add_pause(range(130, 140)).unwrap();
    root.add_child(frame(150, 160, "child")).unwrap();
    let symbols = vec![root.symbol.clone()];
    Trace::new(symbols, root, events)
}

fn event_of(packet: &TracePacket) -> &TrackEvent {
    match &packet.data {
        Data::TrackEvent(event) => event,
        Data::TrackDescriptor(_) => panic!("Expected an event"),
    }
}

fn track_of(packet: &TracePacket) -> &TrackDescriptor {
    match &packet.data {
        Data::TrackDescriptor(track) => track,
        Data::TrackEvent(_) => panic!("Expected a track"),
    }
}

// Beginnings and ends of slices on the track of the calls: time, whether it begins, name.
fn slices(packets: &[TracePacket]) -> Vec<(u64, bool, Option<u64>)> {
    let mut result = Vec::new();
    for packet in packets {
        if packet.sequence_id != TRACE_SEQUENCE_ID {
            continue;
        }
        if let Data::TrackEvent(event) = &packet.data {
            assert_eq!(event.track_uuid, TRACE_TRACK_ID);
            let begins = event.event_type == EventType::SliceBegin;
            let name = match event.name_field {
                Some(NameField::NameIid(iid)) => Some(iid),
                _ => None,
            };
            result.push((packet.timestamp, begins, name));
        }
    }
    result
}

#[test]
fn tracks_come_first() {
    let trace = sample_trace(vec![]);
    let packets = Converter::new(&trace, PauseRenderOption::Gap).start();
    let global = track_of(&packets[0]);
    assert_eq!(packets[0].timestamp, 100);
    assert_eq!(packets[0].sequence_flags, SequenceFlags::SeqIncrementalStateCleared);
    assert_eq!(packets[0].first_packet_on_sequence, Some(true));
    assert_eq!(global.uuid, GLOBAL_TRACK_ID);
    assert_eq!(global.static_name, "Process");
    assert_eq!(global.child_ordering, Some(ChildTracksOrdering::Explicit));
    let overall = event_of(&packets[1]);
    assert_eq!(overall.name_field, Some(NameField::Name("Overall Latency".to_string())));
    assert_eq!(packets[2].timestamp, 200);
    let calls = track_of(&packets[3]);
    assert_eq!(calls.static_name, "Trace");
    assert_eq!(calls.parent_uuid, Some(GLOBAL_TRACK_ID));
    assert_eq!(calls.sibling_order_rank, Some(i32::MAX));
}

#[test]
fn pauses_as_gaps() {
    let trace = sample_trace(vec![]);
    let packets = Converter::new(&trace, PauseRenderOption::Gap).start();
    assert_eq!(
        slices(&packets),
        vec![
            (100, true, Some(1)),
            (110, true, Some(2)),
            (120, false, None),
            (130, false, None),
            (140, true, Some(1)),
            (150, true, Some(2)),
            (160, false, None),
            (200, false, None),
        ]
    );
    // names are introduced once
    let introduced: Vec<String> = packets
        .iter()
        .filter_map(|packet| packet.interned_data.as_ref())
        .flat_map(|data| data.event_names.iter())
        .map(|name| name.text.clone())
        .collect();
    assert_eq!(introduced, vec!["root".to_string(), "child".to_string()]);
}

#[test]
fn pauses_as_blocks() {
    let trace = sample_trace(vec![]);
    let packets = Converter::new(&trace, PauseRenderOption::Block).start();
    assert_eq!(
        slices(&packets),
        vec![
            (100, true, Some(1)),
            (110, true, Some(2)),
            (120, false, None),
            (130, true, Some(3)),
            (140, false, None),
            (150, true, Some(2)),
            (160, false, None),
            (200, false, None),
        ]
    );
    let pause = packets.iter().find(|packet| packet.timestamp == 130).unwrap();
    let data = pause.interned_data.as_ref().unwrap();
    assert_eq!(data.event_names[0].text, PAUSE_BLOCK_NAME);
    assert_eq!(data.event_names[0].iid, 3);
}

#[test]
fn a_stopped_conversion_ends_its_slices() {
    let trace = sample_trace(vec![]);
    let mut converter = Converter::new(&trace, PauseRenderOption::Gap);
    let mut packets = vec![converter.open_root()];
    packets.append(&mut converter.step(false));
    assert!(!converter.finished());
    let mut steps = 0;
    while !converter.finished() {
        packets.append(&mut converter.step(true));
        steps += 1;
    }
    assert_eq!(steps, 2);
    assert_eq!(
        slices(&packets),
        vec![(100, true, Some(1)), (110, true, Some(2)), (120, false, None), (200, false, None)]
    );
}

#[test]
fn steps_give_what_start_gives() {
    let trace = sample_trace(vec![]);
    let whole = Converter::new(&trace, PauseRenderOption::Gap).start();
    let mut converter = Converter::new(&trace, PauseRenderOption::Gap);
    let mut packets = converter.header();
    packets.push(converter.open_root());
    while !converter.finished() {
        packets.append(&mut converter.step(false));
    }
    packets.append(&mut converter.events());
    assert_eq!(packets, whole);
}

#[test]
fn events_get_tracks_of_their_own() {
    let mut event = Event::new(7, "Errors".to_string(), "Something went wrong".to_string());
    event.add_occurence(Metrics::constant(150));
    event.add_occurence(Metrics::constant(120));
    let silent = Event::new(8, "Silent".to_string(), "Never occurs".to_string());
    let trace = sample_trace(vec![silent, event]);
    assert!(can_show(&trace));
    let packets = Converter::new(&trace, PauseRenderOption::Gap).events();
    assert_eq!(packets.len(), 3);
    let track = track_of(&packets[0]);
    assert_eq!(packets[0].timestamp, 120);
    assert_eq!(packets[0].sequence_id, 10);
    assert_eq!(track.uuid, 37);
    assert_eq!(track.static_name, "Errors");
    assert_eq!(track.description, Some("Something went wrong".to_string()));
    assert_eq!(track.parent_uuid, Some(GLOBAL_TRACK_ID));
    assert_eq!(track.sibling_order_rank, Some(i32::MIN + 7));
    let data = packets[0].interned_data.as_ref().unwrap();
    assert_eq!(data.event_names[0].iid, 1);
    assert_eq!(data.event_names[0].text, "Something went wrong");
    assert_eq!(packets[1], create_event(120, 7));
    assert_eq!(packets[2], create_event(150, 7));
    assert_eq!(event_of(&packets[2]).event_type, EventType::Instant);
}

#[test]
fn ids_without_room_cannot_be_shown() {
    let mut event = Event::new(u32::MAX, "e".to_string(), "d".to_string());
    assert!(can_show(&sample_trace(vec![event.clone()])));
    event.add_occurence(Metrics::constant(150));
    assert!(!can_show(&sample_trace(vec![event])));
}

#[test]
fn annotations_are_converted() {
    let mut root = frame(100, 200, "root");
    root.annotations = Some(Box::new(vec![
        ("count".to_string(), Annotation::Uint64(3)),
        ("text".to_string(), Annotation::String("abc".to_string())),
        (
            "list".to_string(),
            Annotation::Array(vec![Annotation::Bool(true), Annotation::String("abc".to_string())]),
        ),
        (
            "dict".to_string(),
            Annotation::Dict(vec![("count".to_string(), Annotation::Double(1.5f64.to_bits()))]),
        ),
    ]));
    let symbols = vec![root.symbol.clone()];
    let trace = Trace::new(symbols, root, vec![]);
    let packet = Converter::new(&trace, PauseRenderOption::Gap).open_root();
    let annotations = &event_of(&packet).debug_annotations;
    assert_eq!(annotations.len(), 4);
    assert_eq!(annotations[0].name_iid, Some(1));
    assert_eq!(annotations[0].value, Some(DebugValue::UintValue(3)));
    assert_eq!(annotations[1].value, Some(DebugValue::StringValueIid(1)));
    assert_eq!(annotations[2].array_values.len(), 2);
    assert_eq!(annotations[2].array_values[1].value, Some(DebugValue::StringValueIid(1)));
    assert_eq!(annotations[3].dict_entries[0].name_iid, Some(1));
    assert_eq!(
        annotations[3].dict_entries[0].value,
        Some(DebugValue::DoubleValue(1.5f64.to_bits()))
    );
    let data = packet.interned_data.as_ref().unwrap();
    let names: Vec<&str> =
        data.debug_annotation_names.iter().map(|name| name.text.as_str()).collect();
    assert_eq!(names, vec!["count", "text", "list", "dict"]);
    assert_eq!(data.debug_annotation_string_values.len(), 1);
}

#[test]
fn texts_keep_their_numbers() {
    let mut texts = InternedStrings::new();
    assert_eq!(texts.intern_string(&"a".to_string()), (true, 1));
    assert_eq!(texts.intern_string(&"b".to_string()), (true, 2));
    assert_eq!(texts.intern_string(&"a".to_string()), (false, 1));
}

#[test]
fn names_of_render_options() {
    assert_eq!(PauseRenderOption::Gap.to_string(), "gap");
    assert_eq!(PauseRenderOption::Block.to_string(), "block");
}

#[test]
fn texts_are_numbered_as_they_first_come() {
    let texts = ["b", "a", "b", "c", "a", "a", "d"];
    let mut interned = InternedStrings::new();
    let results: Vec<(bool, u64)> =
        texts.iter().map(|text| interned.intern_string(&text.to_string())).collect();
    assert_eq!(
        results,
        vec![(true, 1), (true, 2), (false, 1), (true, 3), (false, 2), (false, 2), (true, 4)]
    );
}

#[test]
fn timestamps_never_go_back() {
    let trace = sample_trace(vec![]);
    for option in [PauseRenderOption::Block, PauseRenderOption::Gap] {
        let packets = Converter::new(&trace, option).start();
        let times: Vec<u64> = packets
            .iter()
            .filter(|packet| packet.sequence_id == TRACE_SEQUENCE_ID)
            .map(|packet| packet.timestamp)
            .collect();
        assert!(times.windows(2).all(|pair| pair[0] <= pair[1]));
        assert_eq!((times[0], times[times.len() - 1]), (100, 200));
    }
}

#[test]
fn slices_nest_and_gaps_are_empty() {
    let trace = sample_trace(vec![]);
    for option in [PauseRenderOption::Block, PauseRenderOption::Gap] {
        let gap = matches!(option, PauseRenderOption::Gap);
        let packets = Converter::new(&trace, option).start();
        let mut open = 0i32;
        let mut open_in_pause = 0i32;
        for (time, begins, _) in slices(&packets) {
            open += if begins { 1 } else { -1 };
            assert!(open >= 0);
            if time <= 135 {
                open_in_pause = open;
            }
        }
        assert_eq!(open, 0);
        assert_eq!(open_in_pause, if gap { 0 } else { 2 });
    }
}

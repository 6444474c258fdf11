use pt_fuser::trace::annotation::set_entry;
use pt_fuser::trace::codec::{
    decode, encode, get_major_minor, symbol_index_error, CodecError, VERSION_DELIMITER,
};
use pt_fuser::trace::metrics::{Metrics, MetricsRange};
use pt_fuser::trace::record::{FrameDef, StoredChunkDef, TraceDef};
use pt_fuser::trace::trace_error::{DataCollectionError, LostFrameWhileMerging, TraceInterrupted};
use pt_fuser::trace::{Annotation, Chunk, Error, Event, Frame, SymbolInfo, Trace};
use std::sync::Arc;

const METRICS_ONE: Metrics = Metrics { ts: 1, cycles: 1, insn_count: 1 };

fn sample_range() -> MetricsRange {
    MetricsRange::new(Metrics::new(100, 50, 200), &Metrics::new(200, 350, 1000))
}

fn inner_range1() -> MetricsRange {
    MetricsRange::new(Metrics::new(120, 70, 300), &Metrics::new(150, 150, 500))
}

fn inner_range2() -> MetricsRange {
    MetricsRange::new(Metrics::new(160, 200, 600), &Metrics::new(190, 300, 900))
}

fn test_symbol() -> Arc<SymbolInfo> {
    Arc::new(SymbolInfo { name: "test".to_string(), offset: 0x1000, size: 0x100 })
}

fn frame_of(range: MetricsRange) -> Frame {
    Frame::new(range, 0, test_symbol())
}

fn range(start: Metrics, end: Metrics) -> MetricsRange {
    MetricsRange::new(start, &end)
}

// A root frame with a child frame, a straight line, a child frame, a straight line, a child frame.
fn test_trace() -> Trace {
    let mut outer = frame_of(sample_range());
    outer.add_child(frame_of(inner_range1())).unwrap();
    let beginning = frame_of(range(sample_range().start, inner_range1().start - METRICS_ONE));
    outer.add_child(beginning).unwrap();
    let end = frame_of(range(inner_range1().end() + METRICS_ONE, sample_range().end()));
    outer.add_child(end).unwrap();
    Trace::new(vec![test_symbol()], outer, vec![])
}

#[test]
fn range_totals() {
    let frame = frame_of(sample_range());
    let chunk = Chunk::Frame(&frame);
    assert_eq!(sample_range().total_time(), 100);
    assert_eq!(sample_range().total_cycles(), 300);
    assert_eq!(sample_range().total_insn(), 800);
    assert_eq!(chunk.metrics().total_time(), sample_range().total_time());
    assert_eq!(chunk.metrics().total_cycles(), sample_range().total_cycles());
    assert_eq!(chunk.metrics().total_insn(), sample_range().total_insn());
}

#[test]
fn zero_duration_frame() {
    let frame = frame_of(range(sample_range().start, sample_range().start));
    let chunk = Chunk::Frame(&frame);
    assert_eq!(chunk.metrics().total_time(), 0);
    assert_eq!(chunk.metrics().total_cycles(), 0);
    assert_eq!(chunk.metrics().total_insn(), 0);
}

#[test]
fn empty_frame_invariant() {
    let frame = frame_of(sample_range());
    assert!(frame.check_invariant());
}

#[test]
fn fails_invariant() {
    let mut frame = frame_of(sample_range());
    frame.add_child(frame_of(sample_range())).unwrap();
    frame.metrics = range(sample_range().start, sample_range().end() - METRICS_ONE);
    assert!(!frame.check_invariant());
}

#[test]
fn child_frame_invariant() {
    let mut frame = frame_of(sample_range());
    frame.add_child(frame_of(inner_range1())).unwrap();
    frame.add_child(frame_of(inner_range2())).unwrap();
    assert!(frame.check_invariant());
}

#[test]
fn child_overlaps_parent() {
    let mut outer = frame_of(sample_range());
    outer.add_child(frame_of(sample_range())).unwrap();
    assert_eq!(outer.chunks().len(), 1);
    assert!(outer.check_invariant());
}

#[test]
fn child_overlapping_complex() {
    let trace = test_trace();
    let outer = trace.root_frame();
    assert_eq!(outer.chunks().len(), 5);
    assert!(outer.check_invariant());
    assert!(matches!(&outer.chunks()[0], Chunk::Frame(_)));
    assert!(matches!(&outer.chunks()[1], Chunk::Straightline(_)));
    assert!(matches!(&outer.chunks()[2], Chunk::Frame(_)));
    assert!(matches!(&outer.chunks()[3], Chunk::Straightline(_)));
    assert!(matches!(&outer.chunks()[4], Chunk::Frame(_)));
}

#[test]
fn add_invalid_child() {
    let mut frame = frame_of(sample_range());
    let too_early = frame_of(range(sample_range().start - METRICS_ONE, inner_range1().end()));
    let too_late = frame_of(range(inner_range2().start, sample_range().end() + METRICS_ONE));
    assert!(frame.add_child(too_early).is_err());
    assert!(frame.add_child(too_late).is_err());
}

#[test]
fn add_child_no_space() {
    let mut outer = frame_of(sample_range());
    outer.add_child(frame_of(inner_range1())).unwrap();
    let beginning = frame_of(range(
        sample_range().start + METRICS_ONE,
        inner_range1().start + METRICS_ONE,
    ));
    let end = frame_of(range(
        inner_range1().end() - METRICS_ONE,
        sample_range().end() - METRICS_ONE,
    ));
    assert!(outer.add_child(beginning).is_err());
    assert!(outer.add_child(end).is_err());
}

fn instant() -> MetricsRange {
    range(sample_range().start + METRICS_ONE, sample_range().start + METRICS_ONE)
}

#[test]
fn add_child_instant() {
    let mut outer = frame_of(sample_range());
    assert!(outer.add_child(frame_of(instant())).is_ok());
}

#[test]
fn add_child_nested_instant() {
    let mut outer = frame_of(sample_range());
    let mut child1 = frame_of(instant());
    let mut child2 = frame_of(instant());
    let child3 = frame_of(instant());
    assert!(child2.add_child(child3).is_ok());
    assert!(child1.add_child(child2).is_ok());
    assert!(outer.add_child(child1).is_ok());
}

#[test]
fn add_child_multiple_instant() {
    let mut outer = frame_of(sample_range());
    assert!(outer.add_child(frame_of(instant())).is_ok());
    assert!(outer.add_child(frame_of(instant())).is_ok());
}

#[test]
fn add_child_multiple_nested_instant() {
    let mut outer = frame_of(sample_range());
    let mut child1 = frame_of(instant());
    assert!(child1.add_child(frame_of(instant())).is_ok());
    assert!(child1.add_child(frame_of(instant())).is_ok());
    assert!(outer.add_child(child1).is_ok());
}

#[test]
fn add_child_adjacent_ends_no_straightline() {
    let mut outer = frame_of(sample_range());
    let child1 = frame_of(sample_range());
    let beginning = frame_of(range(sample_range().start, sample_range().start));
    let end = frame_of(range(sample_range().end(), sample_range().end()));
    outer.add_child(child1).unwrap();
    assert!(outer.add_child(beginning).is_ok());
    assert!(outer.add_child(end).is_ok());
}

#[test]
fn add_adjacent_start_invariant() {
    let start = Metrics::new(100, 100, 100);
    let start_off = Metrics::new(100, 110, 110);
    let end = Metrics::new(200, 200, 200);
    let mut outer = frame_of(range(start, end));
    outer.add_child(frame_of(range(start_off, start_off + METRICS_ONE))).unwrap();
    assert!(outer.check_invariant());
}

#[test]
fn add_adjacent_end_invariant() {
    let start = Metrics::new(100, 100, 100);
    let end = Metrics::new(200, 200, 200);
    let end_off = Metrics::new(200, 190, 190);
    let mut outer = frame_of(range(start, end));
    outer.add_child(frame_of(range(end_off - METRICS_ONE, end_off))).unwrap();
    assert!(outer.check_invariant());
}

#[test]
fn event_sorts() {
    let mut event = Event::new(10, "Test Event".to_string(), "Description".to_string());
    event.add_occurence(sample_range().start);
    event.add_occurence(sample_range().start - METRICS_ONE);
    event.add_occurence(sample_range().start + METRICS_ONE);
    assert_eq!(event.occurences().len(), 3);
    assert_eq!(event.occurences()[0], sample_range().start - METRICS_ONE);
    assert_eq!(event.occurences()[1], sample_range().start);
    assert_eq!(event.occurences()[2], sample_range().start + METRICS_ONE);
}

#[test]
fn find_event() {
    let trace = Trace::new(
        vec![test_symbol()],
        frame_of(sample_range()),
        vec![
            Event::new(20, "Another Event".to_string(), "Description".to_string()),
            Event::new(10, "Test Event".to_string(), "Description".to_string()),
        ],
    );
    assert_eq!(trace.events().len(), 2);
    assert!(trace.get_event(10).is_some());
    assert!(trace.get_event(20).is_some());
    assert!(trace.get_event(30).is_none());
}

fn round_trip(gzip: bool) {
    let trace = test_trace();
    let payload = vec![7u8; 3000];
    let data = encode(payload.clone(), gzip, 0, 1).unwrap();
    assert_eq!(decode(&data, gzip, 0, 1).unwrap(), payload);
    let deserialized = Trace::from_def(trace.to_def()).unwrap();
    assert_eq!(deserialized.root_frame().chunks().len(), 5);
    assert!(deserialized.root_frame().check_invariant());
    assert_eq!(deserialized.root_frame(), trace.root_frame());
}

#[test]
fn serialize_round_trip_nogzip() {
    round_trip(false);
}

#[test]
fn serialize_round_trip_gzip() {
    round_trip(true);
}

#[test]
fn zipped_data_is_smaller() {
    let payload = vec![7u8; 3000];
    let zipped = encode(payload.clone(), true, 0, 1).unwrap();
    assert!(zipped.len() < 100);
    assert_eq!(zipped[8], 0x1f);
    assert_eq!(zipped[9], 0x8b);
    // without unzipping, the data is what was written behind the header
    assert_eq!(decode(&zipped, false, 0, 1).unwrap(), zipped[8..].to_vec());
}

#[test]
fn header_is_big_endian() {
    let data = encode(vec![9], false, 0x0102, 0x0304).unwrap();
    assert_eq!(data, vec![1, 2, 3, 4, 0xDE, 0xAD, 0xBE, 0xEF, 9]);
    assert_eq!(VERSION_DELIMITER.to_be_bytes().to_vec(), data[4..8].to_vec());
}

#[test]
fn unsound_files_are_refused() {
    let data = encode(vec![1, 2, 3], false, 0, 1).unwrap();
    assert_eq!(decode(&data[..7], false, 0, 1), Err(CodecError::TooShort));
    assert_eq!(decode(&data[..8], false, 0, 1), Ok(vec![]));
    let mut broken = data.clone();
    broken[7] = 0xEE;
    assert_eq!(decode(&broken, false, 0, 1), Err(CodecError::BadDelimiter));
    assert_eq!(decode(&data, true, 0, 1), Err(CodecError::Gzip));
    let mismatch = decode(&data, false, 2, 3).unwrap_err();
    assert_eq!(
        mismatch,
        CodecError::VersionMismatch { trace_major: 0, trace_minor: 1, tool_major: 2, tool_minor: 3 }
    );
    assert_eq!(
        mismatch.to_string(),
        "Version mismatch: trace data is v0.1 but tool is v2.3"
    );
    assert_eq!(
        CodecError::TooShort.to_string(),
        "Trace data is too short, it can't possible be correct!"
    );
    assert_eq!(
        CodecError::BadDelimiter.to_string(),
        "Trace data is corrupted, version delimiter is incorrect!"
    );
    assert_eq!(CodecError::Gzip.to_string(), "Trace data is not a sound gzip member");
}

#[test]
fn truncated_gzip_is_refused() {
    let data = encode(vec![5; 400], true, 1, 0).unwrap();
    assert_eq!(decode(&data[..data.len() - 1], true, 1, 0), Err(CodecError::Gzip));
    let mut flipped = data.clone();
    let last = flipped.len() - 6;
    flipped[last] ^= 0xFF;
    assert_eq!(decode(&flipped, true, 1, 0), Err(CodecError::Gzip));
}

#[test]
fn versions_are_sixteen_bit_numbers() {
    assert_eq!(get_major_minor("0", "12"), Ok((0, 12)));
    assert_eq!(get_major_minor("65535", "+7"), Ok((65535, 7)));
    assert_eq!(
        get_major_minor("65536", "0"),
        Err("Tool's major version is not a 16-bit integer")
    );
    assert_eq!(
        get_major_minor("1", "x"),
        Err("Tool's minor version is not a 16-bit integer")
    );
}

#[test]
fn symbol_index_out_of_table() {
    let inner = FrameDef {
        symbol_idx: 3,
        metrics: inner_range1(),
        annotations: None,
        chunks: vec![],
    };
    let def = TraceDef {
        symbols: vec![SymbolInfo { name: "f".to_string(), offset: 1, size: 2 }],
        root: FrameDef {
            symbol_idx: 0,
            metrics: sample_range(),
            annotations: None,
            chunks: vec![StoredChunkDef::Pause(inner_range1()), StoredChunkDef::Frame(inner)],
        },
        events: vec![],
    };
    assert!(matches!(Trace::from_def(def), Err(3)));
    assert_eq!(
        symbol_index_error(3, 1),
        "Invalid symbol index 3 for frame, only 1 symbols available"
    );
}

#[test]
fn annotations_survive_a_round_trip() {
    let mut entries: Vec<(String, Annotation)> = Vec::new();
    set_entry(&mut entries, "b".to_string(), Annotation::Uint64(1));
    set_entry(&mut entries, "a".to_string(), Annotation::Bool(true));
    set_entry(&mut entries, "b".to_string(), Annotation::Int64(-1));
    assert_eq!(entries.len(), 2);
    assert_eq!(entries[0], ("b".to_string(), Annotation::Int64(-1)));
    let mut frame = frame_of(sample_range());
    frame.annotations = Some(Box::new(entries));
    let trace = Trace::new(vec![test_symbol()], frame, vec![]);
    let again = Trace::from_def(trace.to_def()).unwrap();
    assert_eq!(again.root_frame(), trace.root_frame());
    assert_eq!(again.num_symbols(), 1);
}

#[test]
fn unsorted_occurences_are_refused() {
    let name = || "e".to_string();
    let early = Metrics::new(1, 9, 9);
    let late = Metrics::new(2, 0, 0);
    assert!(Event::from_occurences(1, name(), name(), vec![early, late]).is_ok());
    let refused = Event::from_occurences(1, name(), name(), vec![late, early]);
    assert!(matches!(refused, Err(Error::NotSorted)));
    assert_eq!(Error::NotSorted.to_string(), "Occurences are not sorted by timestamp");
}

#[test]
fn refused_chunks_name_their_range() {
    let mut outer = frame_of(inner_range1());
    let refused = outer.add_pause(inner_range2());
    assert_eq!(refused, Err(Error::InvalidRange(inner_range2())));
    assert_eq!(
        refused.unwrap_err().to_string(),
        "Invalid range: MetricsRange { (ts: 160, cycles: 200, insn_count: 600) - (ts: 190, cycles: 300, insn_count: 900) }"
    );
    assert_eq!(outer.chunks().len(), 1);
}

#[test]
fn texts_of_symbols_and_frames() {
    let symbol = SymbolInfo { name: "f".to_string(), offset: 0x10, size: 0x1f };
    assert_eq!(symbol.to_string(), "[0x10 - 0x2f] f");
    assert!(symbol.contains(0x10));
    assert!(symbol.contains(0x2e));
    assert!(!symbol.contains(0x2f));
    assert!(!symbol.contains(0xf));
    let frame = Frame::new(range(Metrics::constant(1), Metrics::constant(2)), 0, Arc::new(symbol));
    assert_eq!(
        frame.to_string(),
        "[0x10 - 0x2f] f ((ts: 1, cycles: 1, insn_count: 1) - (ts: 2, cycles: 2, insn_count: 2))"
    );
}

#[test]
fn arithmetic_of_metrics() {
    let a = Metrics::new(12, 20, 30);
    let b = Metrics::new(4, 5, 6);
    assert_eq!(a + b, Metrics::new(16, 25, 36));
    assert_eq!(&a - &b, Metrics::new(8, 15, 24));
    assert_eq!(a / b, Metrics::new(3, 4, 5));
    assert_eq!(a * 2, Metrics::new(24, 40, 60));
    assert_eq!(Metrics::sum(&[a, b, b]), Metrics::new(20, 30, 42));
    assert!(Metrics::new(1, 9, 9) < Metrics::new(2, 0, 0));
    assert!(!(Metrics::new(1, 9, 9) < Metrics::new(1, 10, 10)));
}

#[test]
fn ids_of_defects() {
    assert_eq!(DataCollectionError::ID, 1);
    assert_eq!(TraceInterrupted::ID, 2710682459);
    assert_eq!(LostFrameWhileMerging::ID, 555740177);
}

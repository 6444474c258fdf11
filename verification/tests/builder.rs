use bloomfilter::Bloom;
use pt_fuser::trace::builder::{
    is_plt_stub, BuilderResult, FrameCompletionOptions, IncompleteFrame, TraceBuilder,
};
use pt_fuser::trace::cache::SymbolCache;
use pt_fuser::trace::metrics::{Metrics, MetricsRange};
use pt_fuser::trace::{Chunk, Frame, SymbolInfo, Trace};
use std::sync::Arc;

const METRICS_ONE: Metrics = Metrics { ts: 1, cycles: 1, insn_count: 1 };
const SAMPLE_START: Metrics = Metrics { ts: 100, cycles: 50, insn_count: 200 };
const SAMPLE_END: Metrics = Metrics { ts: 200, cycles: 350, insn_count: 1000 };
const INNER1_START: Metrics = Metrics { ts: 120, cycles: 70, insn_count: 300 };
const INNER1_END: Metrics = Metrics { ts: 150, cycles: 150, insn_count: 500 };
const INNER2_START: Metrics = Metrics { ts: 160, cycles: 200, insn_count: 600 };
const INNER2_END: Metrics = Metrics { ts: 190, cycles: 300, insn_count: 900 };

fn range(start: Metrics, end: Metrics) -> MetricsRange {
    MetricsRange::new(start, &end)
}

fn test_symbol() -> SymbolInfo {
    SymbolInfo { name: "test".to_string(), offset: 0x1000, size: 0x100 }
}

fn symbol(name: &str) -> SymbolInfo {
    SymbolInfo { name: name.to_string(), offset: 0, size: 0 }
}

fn extract_builder(result: BuilderResult) -> TraceBuilder {
    match result {
        BuilderResult::Builder(builder) => builder,
        BuilderResult::Completed(_) => panic!("Expected builder, got completed trace"),
    }
}

fn extract_pause_chunk<'a>(chunk: &Chunk<'a>) -> &'a MetricsRange {
    match chunk {
        Chunk::Pause(pause) => pause,
        _ => panic!("Expected pause chunk"),
    }
}

fn extract_frame_chunk<'a>(chunk: &Chunk<'a>) -> &'a Frame {
    match chunk {
        Chunk::Frame(frame) => frame,
        _ => panic!("Expected frame chunk"),
    }
}

#[test]
fn complete_empty_frame() {
    let incomplete = IncompleteFrame {
        start_metrics: SAMPLE_START,
        child_frames: Vec::new(),
        pauses: Vec::new(),
        symbol_idx: 0,
        symbol: Arc::new(test_symbol()),
    };
    let completed = incomplete.complete(&SAMPLE_END, FrameCompletionOptions::default()).unwrap();
    assert_eq!(completed.chunks().len(), 1);
    assert!(completed.check_invariant());
}

#[test]
fn complete_frame_with_chunks() {
    let inner1 = Frame::new(range(INNER1_START, INNER1_END), 0, Arc::new(test_symbol()));
    let inner2 = Frame::new(range(INNER2_START, INNER2_END), 0, Arc::new(test_symbol()));
    let incomplete = IncompleteFrame {
        start_metrics: SAMPLE_START,
        child_frames: vec![inner1, inner2],
        pauses: Vec::new(),
        symbol_idx: 0,
        symbol: Arc::new(test_symbol()),
    };
    let completed = incomplete.complete(&SAMPLE_END, FrameCompletionOptions::default()).unwrap();
    assert_eq!(completed.chunks().len(), 5);
    assert!(completed.check_invariant());
}

#[test]
fn complete_frame_with_pauses() {
    let pause1 = range(INNER1_START, INNER1_START + METRICS_ONE);
    let inner_frame =
        Frame::new(range(INNER1_END - METRICS_ONE, INNER1_END), 0, Arc::new(test_symbol()));
    let pause2 = range(INNER2_START, INNER2_END);
    let incomplete = IncompleteFrame {
        start_metrics: SAMPLE_START,
        child_frames: vec![inner_frame],
        pauses: vec![pause1, pause2],
        symbol_idx: 0,
        symbol: Arc::new(test_symbol()),
    };
    let completed = incomplete.complete(&SAMPLE_END, FrameCompletionOptions::default()).unwrap();
    let chunks = completed.chunks();
    assert_eq!(chunks.len(), 7);
    assert!(completed.check_invariant());
    let _ = extract_pause_chunk(&chunks[1]);
    let _ = extract_frame_chunk(&chunks[3]);
    let _ = extract_pause_chunk(&chunks[5]);
}

#[test]
fn complete_without_plt_stub() {
    let inner_frame =
        Frame::new(range(INNER1_START, INNER1_END), 0, Arc::new(symbol("my_func")));
    let incomplete = IncompleteFrame {
        start_metrics: SAMPLE_START,
        child_frames: vec![inner_frame],
        pauses: Vec::new(),
        symbol_idx: 1,
        symbol: Arc::new(symbol("my_func@plt")),
    };
    let completed = incomplete
        .complete(&SAMPLE_END, FrameCompletionOptions { remove_plt_stubs: true })
        .unwrap();
    assert_eq!(completed.symbol.name, "my_func");
    assert_eq!(completed.metrics, range(SAMPLE_START, SAMPLE_END));
    assert_eq!(completed.chunks().len(), 1);
}

#[test]
fn build_trace_simple() {
    let builder = TraceBuilder::new(SAMPLE_START, test_symbol());
    match builder.complete_frame(SAMPLE_END, None).unwrap() {
        BuilderResult::Completed(trace) => {
            assert_eq!(trace.root_frame().metrics, range(SAMPLE_START, SAMPLE_END));
            assert_eq!(trace.root_frame().chunks().len(), 1);
            assert!(matches!(trace.root_frame().chunks()[0], Chunk::Straightline(_)));
        }
        BuilderResult::Builder(_) => panic!("Expected trace to be completed"),
    }
}

#[test]
fn build_trace_nested() {
    let mut builder = TraceBuilder::new(SAMPLE_START, test_symbol());
    builder.push_frame(INNER1_START, test_symbol());
    let mut builder = extract_builder(builder.complete_frame(INNER1_END, None).unwrap());
    builder.push_frame(INNER2_START, test_symbol());
    builder.push_frame(INNER2_START, test_symbol());
    let builder = extract_builder(builder.complete_frame(INNER2_END, None).unwrap());
    let builder = extract_builder(builder.complete_frame(SAMPLE_END, None).unwrap());
    match builder.complete_frame(SAMPLE_END, None).unwrap() {
        BuilderResult::Completed(trace) => {
            let root_chunks = trace.root_frame().chunks();
            assert_eq!(root_chunks.len(), 4);
            assert!(matches!(root_chunks[0], Chunk::Straightline(_)));
            assert!(matches!(root_chunks[2], Chunk::Straightline(_)));

            let frame1 = extract_frame_chunk(&root_chunks[1]);
            assert_eq!(frame1.metrics, range(INNER1_START, INNER1_END));
            assert_eq!(frame1.chunks().len(), 1);
            assert!(matches!(frame1.chunks()[0], Chunk::Straightline(_)));

            let frame2 = extract_frame_chunk(&root_chunks[3]);
            assert_eq!(frame2.metrics, range(INNER2_START, SAMPLE_END));
            let frame2_chunks = frame2.chunks();
            assert_eq!(frame2_chunks.len(), 2);
            assert!(matches!(frame2_chunks[1], Chunk::Straightline(_)));

            let inner_frame = extract_frame_chunk(&frame2_chunks[0]);
            assert_eq!(inner_frame.metrics, range(INNER2_START, INNER2_END));
            assert_eq!(inner_frame.chunks().len(), 1);
            assert!(matches!(inner_frame.chunks()[0], Chunk::Straightline(_)));
        }
        BuilderResult::Builder(_) => panic!("Expected trace to be completed"),
    }
}

#[test]
fn build_trace_pauses() {
    let builder = TraceBuilder::new(SAMPLE_START, test_symbol());
    let paused = builder.pause(SAMPLE_START + METRICS_ONE).unwrap();
    let mut resumed = paused.resume(INNER1_START);

    resumed.push_frame(INNER1_START + METRICS_ONE, test_symbol());
    let paused = resumed.pause(INNER1_END).unwrap();

    let resumed = paused.resume(INNER2_START);
    let builder =
        extract_builder(resumed.complete_frame(INNER2_END - METRICS_ONE, None).unwrap());

    match builder.complete_frame(INNER2_END, None).unwrap() {
        BuilderResult::Builder(_) => panic!("Expected completed trace"),
        BuilderResult::Completed(trace) => {
            let root_chunks = trace.root_frame().chunks();
            assert_eq!(root_chunks.len(), 5);
            assert!(matches!(root_chunks[0], Chunk::Straightline(_)));
            assert!(matches!(root_chunks[2], Chunk::Straightline(_)));
            assert!(matches!(root_chunks[4], Chunk::Straightline(_)));

            let pause = extract_pause_chunk(&root_chunks[1]);
            assert_eq!(pause, &range(SAMPLE_START + METRICS_ONE, INNER1_START));

            let frame = extract_frame_chunk(&root_chunks[3]);
            assert_eq!(
                frame.metrics,
                range(INNER1_START + METRICS_ONE, INNER2_END - METRICS_ONE)
            );

            let frame_chunks = frame.chunks();
            assert_eq!(frame_chunks.len(), 3);
            assert!(matches!(frame_chunks[0], Chunk::Straightline(_)));
            assert!(matches!(frame_chunks[2], Chunk::Straightline(_)));

            let nested_pause = extract_pause_chunk(&frame_chunks[1]);
            assert_eq!(nested_pause, &range(INNER1_END, INNER2_START));
        }
    }
}

#[test]
fn build_without_plt_stubs() {
    let mut builder = TraceBuilder::new(SAMPLE_START, test_symbol());
    builder.push_frame(INNER1_START, symbol("my_func@plt"));
    builder.push_frame(INNER1_START + METRICS_ONE, symbol("my_func"));
    let options = || Some(FrameCompletionOptions { remove_plt_stubs: true });
    let builder = extract_builder(builder.complete_frame(INNER1_END, options()).unwrap());
    let builder = extract_builder(builder.complete_frame(INNER1_END, options()).unwrap());
    match builder.complete_frame(SAMPLE_END, None).unwrap() {
        BuilderResult::Completed(trace) => {
            let root_chunks = trace.root_frame().chunks();
            assert_eq!(root_chunks.len(), 3);
            let frame = extract_frame_chunk(&root_chunks[1]);
            assert_eq!(frame.symbol.name, "my_func");
            assert_eq!(frame.metrics, range(INNER1_START, INNER1_END));
            assert_eq!(frame.chunks().len(), 1);
        }
        BuilderResult::Builder(_) => panic!("Expected trace to be completed"),
    }
}

#[test]
fn add_events() {
    let mut builder = TraceBuilder::new(SAMPLE_START, test_symbol());
    builder.new_event(10, "Event 1".to_string(), "Description 1".to_string());
    builder.new_event(20, "Event 2".to_string(), "Description 2".to_string());

    builder.event_occured(10, INNER2_START);
    builder.event_occured(20, INNER1_END);
    builder.event_occured(10, INNER1_START);

    match builder.complete_frame(SAMPLE_END, None).unwrap() {
        BuilderResult::Completed(trace) => {
            assert_eq!(trace.events().len(), 2);
            if trace.events()[0].id == 10 && trace.events()[1].id == 20 {
                assert_eq!(trace.events()[0].occurences().len(), 2);
                assert_eq!(trace.events()[1].occurences().len(), 1);
            } else if trace.events()[0].id == 20 && trace.events()[1].id == 10 {
                assert_eq!(trace.events()[0].occurences().len(), 1);
                assert_eq!(trace.events()[1].occurences().len(), 2);
            } else {
                panic!("Unexpected event IDs");
            }
        }
        BuilderResult::Builder(_) => panic!("Expected trace to be completed"),
    }
}

#[test]
fn frame_symbol_order() {
    let mut builder = TraceBuilder::new(SAMPLE_START, symbol("top level"));
    builder.push_frame(INNER1_START, symbol("2nd level"));
    builder.push_frame(INNER1_START + METRICS_ONE, symbol("3rd level"));
    assert_eq!(builder.get_frame_symbol(0).name, "3rd level");
    assert_eq!(builder.get_frame_symbol(1).name, "2nd level");
    assert_eq!(builder.get_frame_symbol(2).name, "top level");
}

#[test]
fn builder_reuse_symbols() {
    let sym1 = symbol("func1");
    let sym2 = symbol("func2");
    let mut builder = TraceBuilder::new(SAMPLE_START, sym1.clone());
    builder.push_frame(INNER1_START, sym1.clone());
    builder.push_frame(INNER1_START + METRICS_ONE, sym2.clone());
    let builder =
        extract_builder(builder.complete_frame(INNER1_END - METRICS_ONE, None).unwrap());
    let builder = extract_builder(builder.complete_frame(INNER1_END, None).unwrap());
    match builder.complete_frame(SAMPLE_END, None).unwrap() {
        BuilderResult::Completed(trace) => {
            assert_eq!(trace.num_symbols(), 2);
            assert_eq!(trace.root_frame().symbol.as_ref(), &sym1);
            let root_chunks = trace.root_frame().chunks();
            let frame1 = extract_frame_chunk(&root_chunks[1]);
            assert_eq!(frame1.symbol.as_ref(), &sym1);
            let frame1_chunks = frame1.chunks();
            let frame2 = extract_frame_chunk(&frame1_chunks[1]);
            assert_eq!(frame2.symbol.as_ref(), &sym2);
        }
        BuilderResult::Builder(_) => panic!("Expected trace to be completed"),
    }
}

#[test]
fn depth_counts_open_frames() {
    let mut builder = TraceBuilder::new(SAMPLE_START, test_symbol());
    assert_eq!(builder.callstack_depth(), 1);
    builder.push_frame(INNER1_START, test_symbol());
    assert_eq!(builder.callstack_depth(), 2);
    assert_eq!(builder.callers(), 1);
    assert_eq!(builder.last_seen(), INNER1_START);
    assert_eq!(builder.frame_start(), INNER1_START);
}

#[test]
fn stubs_by_name() {
    assert!(is_plt_stub(&symbol("f@plt"), &symbol("f")));
    assert!(is_plt_stub(&symbol("f@plt@plt"), &symbol("f")));
    assert!(!is_plt_stub(&symbol("f"), &symbol("f")));
    assert!(!is_plt_stub(&symbol("f@plt"), &symbol("g")));
    assert!(is_plt_stub(&symbol("@plt"), &symbol("")));
}

#[test]
fn pauses_that_overlap_calls_are_refused() {
    let inner = Frame::new(range(INNER1_START, INNER1_END), 0, Arc::new(test_symbol()));
    let incomplete = IncompleteFrame {
        start_metrics: SAMPLE_START,
        child_frames: vec![inner],
        pauses: vec![range(INNER1_START + METRICS_ONE, INNER2_START)],
        symbol_idx: 0,
        symbol: Arc::new(test_symbol()),
    };
    assert!(incomplete.complete(&SAMPLE_END, FrameCompletionOptions::default()).is_err());
}

#[test]
fn symbols_stand_once_in_a_cache() {
    let mut cache = SymbolCache::new(10);
    for i in 0..50u64 {
        let new = SymbolInfo { name: "f".to_string(), offset: i, size: 1 };
        assert_eq!(cache.get_or_insert(new), i as usize);
    }
    for i in 0..50u64 {
        let known = SymbolInfo { name: "f".to_string(), offset: i, size: 1 };
        assert_eq!(cache.get_or_insert(known), i as usize);
    }
    assert_eq!(cache.size(), 50);
    assert_eq!(cache.get_ref(7).offset, 7);
    assert_eq!(cache.into_symbols().len(), 50);
}

fn fill_and_find(mut cache: SymbolCache) {
    for _ in 0..2 {
        for i in 0..20u64 {
            let one = SymbolInfo { name: "f".to_string(), offset: i, size: 1 };
            assert_eq!(cache.get_or_insert(one), i as usize);
        }
    }
    assert_eq!(cache.size(), 20);
}

#[test]
fn a_cache_does_without_a_filter() {
    fill_and_find(SymbolCache::with_filter(Err("no seed")));
}

#[test]
fn a_cache_takes_the_filter_that_was_made() {
    let mut filter = Bloom::<(String, u64, u64)>::new(12, 10).unwrap();
    assert_eq!(filter.len(), 96);
    filter.set(&("g".to_string(), 1, 2));
    assert_eq!(filter.len(), 96);
    fill_and_find(SymbolCache::with_filter(Ok(filter)));
}

#[test]
fn a_cache_refuses_a_filter_without_bits() {
    // a header with version and number of hashes, for a bitmap of no bytes
    let mut bytes = vec![0u8; 45];
    bytes[0] = 1;
    bytes[9] = 1;
    let filter = Bloom::<(String, u64, u64)>::from_bytes(bytes).unwrap();
    assert_eq!(filter.len(), 0);
    fill_and_find(SymbolCache::with_filter(Ok(filter)));
}

#[test]
fn a_trace_without_calls_is_read_back() {
    let builder = TraceBuilder::new(
        Metrics::constant(0),
        SymbolInfo { name: "f".to_string(), offset: 1, size: 1 },
    );
    let trace = match builder.complete_frame(Metrics::constant(9), None) {
        Ok(BuilderResult::Completed(trace)) => trace,
        _ => panic!("Expected a trace"),
    };
    assert_eq!(trace.num_symbols(), 1);
    let again = Trace::from_def(trace.to_def()).unwrap();
    assert_eq!(again.root_frame(), trace.root_frame());
}

#[test]
fn a_trace_keeps_its_root_apart_from_calls() {
    let mut builder = TraceBuilder::new(Metrics::constant(0), symbol("root"));
    builder.push_frame(Metrics::constant(1), symbol("call"));
    let builder =
        extract_builder(builder.complete_frame(Metrics::constant(2), None).ok().unwrap());
    let trace = match builder.complete_frame(Metrics::constant(3), None) {
        Ok(BuilderResult::Completed(trace)) => trace,
        _ => panic!("Expected a trace"),
    };
    let again = Trace::from_def(trace.to_def()).unwrap();
    assert_eq!(again.root_frame().symbol.name, "root");
    assert_eq!(extract_frame_chunk(&again.root_frame().chunks()[1]).symbol.name, "call");
    assert_eq!(again.root_frame(), trace.root_frame());
}

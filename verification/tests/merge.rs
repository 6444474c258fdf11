use pt_fuser::merge::children::can_number;
use pt_fuser::merge::single::Single;
use pt_fuser::merge::{
    can_merge, find_frequent_children, find_lcs, index_children, merge_children, merge_events,
    merge_traces, zip_events, ChunkIndexed, Id,
};
use pt_fuser::trace::cache::SymbolCache;
use pt_fuser::trace::metrics::{Metrics, MetricsRange};
use pt_fuser::trace::trace_error::LostFrameWhileMerging;
use pt_fuser::trace::{Chunk, Event, Frame, SymbolInfo, Trace};
use std::sync::Arc;

fn range(start: u64, end: u64) -> MetricsRange {
    MetricsRange::new(Metrics::constant(start), &Metrics::constant(end))
}

fn dummy_range() -> MetricsRange {
    range(100, 200)
}

fn symbol(name: &str) -> Arc<SymbolInfo> {
    Arc::new(SymbolInfo { name: name.to_string(), offset: 1, size: 1 })
}

fn dummy_symbol() -> Arc<SymbolInfo> {
    symbol("dummy")
}

fn dummy_frame() -> Frame {
    Frame::new(dummy_range(), 0, dummy_symbol())
}

fn trace_of(root: Frame, events: Vec<Event>) -> Trace {
    Trace::new(vec![dummy_symbol()], root, events)
}

// The symbol "[pause]" stands for a pause.
fn produce_chunks_from_symbols(symbols: &[&str]) -> Frame {
    let mut frame = Frame::new(dummy_range(), 0, dummy_symbol());
    for (i, &name) in symbols.iter().enumerate() {
        let range = range(100 + i as u64, 101 + i as u64);
        if name == "[pause]" {
            frame.add_pause(range).unwrap();
        } else {
            frame.add_child(Frame::new(range, 0, symbol(name))).unwrap();
        }
    }
    frame
}

// The symbol "[pause]" stands for a pause.
fn produce_frames_from_metrics(root: (u64, u64), children: &[(u64, u64, Option<&str>)]) -> Frame {
    let mut frame = Frame::new(range(root.0, root.1), 0, dummy_symbol());
    for &(start, end, name) in children {
        let range = range(start, end);
        if name == Some("[pause]") {
            frame.add_pause(range).unwrap();
        } else {
            let symbol = name.map(symbol).unwrap_or_else(dummy_symbol);
            frame.add_child(Frame::new(range, 0, symbol)).unwrap();
        }
    }
    frame
}

fn extract_ids(items: &[ChunkIndexed]) -> Vec<u32> {
    items.iter().map(|f| f.id()).collect()
}

fn seq(xs: &[u32]) -> Vec<u32> {
    xs.to_vec()
}

fn frequent(n: u32, sequences: &[&[u32]], thresh: Single) -> Vec<Vec<u32>> {
    find_frequent_children(n, sequences, thresh)
        .iter()
        .map(|group| group.iter().map(|item| item.id()).collect())
        .collect()
}

fn seven_tenths() -> Single {
    Single::ratio(7, 10)
}

fn merge_into(new_parent: &mut Frame, frames: &[&Frame], lost: &mut Vec<Metrics>, thresh: Single) {
    let mut symbols = SymbolCache::new(10);
    merge_children(new_parent, frames, &mut symbols, lost, thresh);
}

fn frame_of<'a>(chunk: &Chunk<'a>) -> &'a Frame {
    match chunk {
        Chunk::Frame(frame) => frame,
        _ => panic!("Expected a frame"),
    }
}

fn pause_of<'a>(chunk: &Chunk<'a>) -> &'a MetricsRange {
    match chunk {
        Chunk::Pause(pause) => pause,
        _ => panic!("Expected a pause"),
    }
}

#[test]
fn index_empty() {
    let (n, r) = index_children(&[]);
    assert_eq!(n, 0);
    assert_eq!(r.len(), 0);
}

#[test]
fn index_single() {
    let frame = produce_chunks_from_symbols(&["a", "b", "c"]);
    let (n, r) = index_children(&[&frame]);
    assert_eq!(n, 3);
    assert_eq!(r.len(), 1);
    assert_eq!(extract_ids(&r[0]), vec![1, 2, 3]);
}

#[test]
fn index_3_no_repeat() {
    let frame1 = produce_chunks_from_symbols(&["a", "b", "c", "d"]);
    let frame2 = produce_chunks_from_symbols(&["b", "c", "e", "g", "h", "d"]);
    let frame3 = produce_chunks_from_symbols(&["f", "a", "d", "e"]);
    let (n, r) = index_children(&[&frame1, &frame2, &frame3]);
    assert_eq!(n, 8);
    assert_eq!(r.len(), 3);
    assert_eq!(extract_ids(&r[0]), vec![1, 2, 3, 4]);
    assert_eq!(extract_ids(&r[1]), vec![2, 3, 5, 6, 7, 4]);
    assert_eq!(extract_ids(&r[2]), vec![8, 1, 4, 5]);
}

#[test]
fn index_3_repeating() {
    let frame1 = produce_chunks_from_symbols(&["a", "b", "a", "c", "d", "c"]);
    let frame2 = produce_chunks_from_symbols(&["b", "c", "a", "a", "e", "g", "e", "h"]);
    let frame3 = produce_chunks_from_symbols(&["c", "a", "c", "f", "h", "a", "d", "e"]);
    let (n, r) = index_children(&[&frame1, &frame2, &frame3]);
    assert_eq!(n, 11);
    assert_eq!(r.len(), 3);
    assert_eq!(extract_ids(&r[0]), vec![1, 2, 3, 4, 5, 6]);
    assert_eq!(extract_ids(&r[1]), vec![2, 4, 1, 3, 7, 8, 9, 10]);
    assert_eq!(extract_ids(&r[2]), vec![4, 1, 6, 11, 10, 3, 5, 7]);
}

#[test]
fn index_3_with_pauses() {
    let frame1 = produce_chunks_from_symbols(&["a", "b", "[pause]", "a", "[pause]", "c", "d", "c"]);
    let frame2 = produce_chunks_from_symbols(&["b", "c", "a", "a", "e", "g", "e", "[pause]", "h"]);
    let frame3 = produce_chunks_from_symbols(&[
        "[pause]", "[pause]", "c", "a", "c", "f", "[pause]", "h", "a", "d", "e",
    ]);
    let (n, r) = index_children(&[&frame1, &frame2, &frame3]);
    assert_eq!(n, 14);
    assert_eq!(r.len(), 3);
    assert_eq!(extract_ids(&r[0]), vec![1, 2, 3, 4, 5, 6, 7, 8]);
    assert_eq!(extract_ids(&r[1]), vec![2, 6, 1, 4, 9, 10, 11, 3, 12]);
    assert_eq!(extract_ids(&r[2]), vec![3, 5, 6, 1, 8, 13, 14, 12, 4, 7, 9]);
}

#[test]
fn index_keeps_offsets() {
    let frame = produce_frames_from_metrics((500, 590), &[(520, 540, Some("a")), (550, 558, None)]);
    let (_, r) = index_children(&[&frame]);
    assert_eq!(r[0][0].offset_in_parent, Metrics::constant(20));
    assert_eq!(r[0][1].offset_in_parent, Metrics::constant(50));
    assert_eq!(frame_of(&r[0][0].original).symbol.name, "a");
}

#[test]
fn lcs_single() {
    let sequence = seq(&[1, 2, 3, 4, 5]);
    assert_eq!(find_lcs(5, &[&sequence]), &[1, 2, 3, 4, 5]);
}

#[test]
fn lcs_2_identical() {
    let seq1 = seq(&[1, 2, 3, 4, 5]);
    let seq2 = seq(&[1, 2, 3, 4, 5]);
    assert_eq!(find_lcs(5, &[&seq1, &seq2]), &[1, 2, 3, 4, 5]);
}

#[test]
fn lcs_2_different() {
    let sequence1 = seq(&[1, 2, 3, 4, 5]);
    let sequence2 = seq(&[1, 2, 4, 7, 5, 6]);
    assert_eq!(find_lcs(7, &[&sequence1, &sequence2]), &[1, 2, 4, 5]);
}

#[test]
fn lcs_3_different() {
    let seq1 = seq(&[1, 2, 3, 4, 5, 6, 7]);
    let seq2 = seq(&[2, 1, 3, 4, 9, 12, 5, 7]);
    let seq3 = seq(&[12, 2, 3, 6, 5, 11, 7, 1]);
    let answer = &[2, 3, 5, 7];
    let seqs1 = vec![seq1.as_slice(), &seq2, &seq3];
    let seqs2 = vec![seq3.as_slice(), &seq2, &seq1];
    let seqs3 = vec![seq2.as_slice(), &seq3, &seq1];
    assert_eq!(find_lcs(12, &seqs1), answer);
    assert_eq!(find_lcs(12, &seqs2), answer);
    assert_eq!(find_lcs(12, &seqs3), answer);
}

#[test]
fn lcs_4_different() {
    let seq1 = seq(&[1, 3, 5, 7, 9, 11]);
    let seq2 = seq(&[2, 1, 3, 4, 5, 6, 7, 8, 9, 11, 10]);
    let seq3 = seq(&[8, 5, 1, 6, 3, 7, 9, 11]);
    let seq4 = seq(&[1, 2, 4, 6, 3, 5, 7, 8, 10, 11]);
    let answer = &[1, 3, 7, 11];
    let seqs1 = vec![seq1.as_slice(), &seq2, &seq3, &seq4];
    let seqs2 = vec![seq3.as_slice(), &seq2, &seq1, &seq4];
    let seqs3 = vec![seq4.as_slice(), &seq3, &seq2, &seq1];
    assert_eq!(find_lcs(11, &seqs1), answer);
    assert_eq!(find_lcs(11, &seqs2), answer);
    assert_eq!(find_lcs(11, &seqs3), answer);
}

#[test]
fn lcs_5_identical() {
    let sequence = seq(&[1, 2, 3, 4, 5]);
    let seqs = vec![sequence.as_slice(); 5];
    assert_eq!(find_lcs(5, &seqs), &[1, 2, 3, 4, 5]);
}

#[test]
fn lcs_nothing_in_common() {
    let seq1 = seq(&[1, 2]);
    let seq2 = seq(&[3]);
    assert_eq!(find_lcs(3, &[&seq1, &seq2]), Vec::<u32>::new());
}

#[test]
fn common_simple_none() {
    let seq1 = seq(&[1]);
    let seq2 = seq(&[2]);
    let seq3 = seq(&[]);
    let seq4 = seq(&[1]);
    let seqs1 = vec![seq1.as_slice(), &seq2, &seq3, &seq4];
    let seqs2 = vec![seq2.as_slice(), &seq1, &seq4, &seq3];
    let result1 = frequent(2, &seqs1, seven_tenths());
    let result2 = frequent(2, &seqs2, seven_tenths());
    assert_eq!(result1.len(), 0);
    assert_eq!(result2.len(), 0);
}

#[test]
fn common_simple_one() {
    let seq1 = seq(&[1]);
    let seq2 = seq(&[1]);
    let seq3 = seq(&[]);
    let seq4 = seq(&[1, 1, 1]);
    let result = &[vec![1, 1, 1]];
    let seqs1 = vec![seq1.as_slice(), &seq2, &seq3, &seq4];
    let seqs2 = vec![seq2.as_slice(), &seq1, &seq4, &seq3];
    let result1 = frequent(1, &seqs1, seven_tenths());
    let result2 = frequent(1, &seqs2, seven_tenths());
    assert_eq!(result1, result);
    assert_eq!(result2, result);
}

#[test]
fn common_three1() {
    let seq1 = seq(&[4, 5, 1, 2, 6, 3]);
    let seq2 = seq(&[7, 1, 8, 9, 2, 10, 3]);
    let seq3 = seq(&[6, 1, 10, 5, 3, 11]);
    let seq4 = seq(&[11, 2, 12, 4, 3]);
    let answer = &[vec![1, 1, 1], vec![2, 2, 2], vec![3, 3, 3, 3]];
    let seqs1 = vec![seq1.as_slice(), &seq2, &seq3, &seq4];
    let seqs2 = vec![seq2.as_slice(), &seq1, &seq4, &seq3];
    assert_eq!(frequent(12, &seqs1, seven_tenths()), answer);
    assert_eq!(frequent(12, &seqs2, seven_tenths()), answer);
}

#[test]
fn common_three2() {
    let seq1 = seq(&[1, 2, 3, 4, 5, 6, 7]);
    let seq2 = seq(&[8, 2, 10, 4, 12, 13, 14]);
    let seq3 = seq(&[15, 16, 17, 18, 4, 7, 21]);
    let seq4 = seq(&[22, 23, 24, 2, 4, 7, 28]);
    let answer = &[vec![2, 2, 2], vec![4, 4, 4, 4], vec![7, 7, 7]];
    let seqs1 = vec![seq1.as_slice(), &seq2, &seq3, &seq4];
    let seqs2 = vec![seq2.as_slice(), &seq1, &seq4, &seq3];
    assert_eq!(frequent(28, &seqs1, seven_tenths()), answer);
    assert_eq!(frequent(28, &seqs2, seven_tenths()), answer);
}

#[test]
fn common_slicing_heuristic() {
    let seq1 = seq(&[1, 2, 3, 4, 5, 6]);
    let seq2 = seq(&[1, 8, 9, 4, 11, 7]);
    let seq3 = seq(&[12, 13, 14, 15, 5, 1]);
    let seq4 = seq(&[18, 19, 20, 4, 5, 22]);
    // [1, 4] and [4, 5] are both decent answers, but the third sequence is divided into
    // [12, 13, 14] and [15, 5, 1], so [4, 5] is chosen.
    let answer = &[vec![4, 4, 4], vec![5, 5, 5]];
    let seqs1 = vec![seq1.as_slice(), &seq2, &seq3, &seq4];
    let seqs2 = vec![seq2.as_slice(), &seq1, &seq4, &seq3];
    assert_eq!(frequent(22, &seqs1, seven_tenths()), answer);
    assert_eq!(frequent(22, &seqs2, seven_tenths()), answer);
}

#[test]
fn common_at_threshold() {
    let with = seq(&[1]);
    let without = seq(&[]);
    let mut seqs = vec![with.as_slice(); 7];
    seqs.extend(vec![without.as_slice(); 3]);
    assert_eq!(frequent(1, &seqs, seven_tenths()), vec![vec![1; 7]]);
    seqs.push(&without);
    assert_eq!(frequent(1, &seqs, seven_tenths()).len(), 0);
}

#[test]
fn single_precision_matches_hardware() {
    // A unit of the representation is 2^-90.
    let unit = 2f64.powi(-90);
    let pairs: [(u32, u32); 7] =
        [(7, 10), (3, 5), (1, 3), (2, 7), (16777217, 16777219), (5, 4294967295), (0, 9)];
    for (n, of) in pairs {
        let expected = n as f32 / of as f32;
        let got = Single::ratio(n, of).units as f64 * unit;
        assert_eq!(got, expected as f64);
    }
    for (n, of) in [(1u32, 3u32), (2, 3), (5, 8), (1, 2)] {
        for len in [1u32, 2, 3, 7, 1000, 16777217] {
            let expected = ((n as f32 / of as f32) * len as f32).round();
            assert_eq!(Single::ratio(n, of).of_count(len) as f64, expected as f64);
        }
    }
}

#[test]
fn merge_traces_no_children() {
    let trace1 = trace_of(produce_frames_from_metrics((500, 590), &[]), vec![]);
    let trace2 = trace_of(produce_frames_from_metrics((300, 380), &[]), vec![]);
    let trace3 = trace_of(produce_frames_from_metrics((400, 464), &[]), vec![]);
    let merged = merge_traces(&[&trace1, &trace2, &trace3]);
    assert_eq!(merged.root_frame().metrics.start, Metrics::constant(0));
    assert_eq!(merged.root_frame().metrics.end(), Metrics::constant((90 + 80 + 64) / 3));
}

#[test]
fn merge_traces_common_children() {
    let frame1 = produce_frames_from_metrics((500, 590), &[(520, 540, None), (550, 558, None)]);
    let trace1 = trace_of(frame1, vec![]);
    let frame2 = produce_frames_from_metrics((300, 380), &[(310, 335, None), (340, 352, None)]);
    let trace2 = trace_of(frame2, vec![]);
    let frame3 = produce_frames_from_metrics((400, 464), &[(415, 430, None), (445, 458, None)]);
    let trace3 = trace_of(frame3, vec![]);
    assert!(can_merge(&[&trace1, &trace2, &trace3]));
    let merged = merge_traces(&[&trace1, &trace2, &trace3]);
    assert_eq!(merged.root_frame().metrics.start, Metrics::constant(0));
    assert_eq!(merged.root_frame().metrics.end(), Metrics::constant((90 + 80 + 64) / 3));

    let chunks = merged.root_frame().chunks();
    assert_eq!(chunks.len(), 5);
    let child1 = frame_of(&chunks[1]);
    let child2 = frame_of(&chunks[3]);
    assert_eq!(child1.metrics.start, Metrics::constant(15));
    assert_eq!(child1.metrics.end(), Metrics::constant(15 + 20));
    assert_eq!(child2.metrics.start, Metrics::constant(45));
    assert_eq!(child2.metrics.end(), Metrics::constant(45 + 11));
    assert!(merged.root_frame().check_invariant());
    assert_eq!(merged.num_symbols(), 1);
}

#[test]
fn merge_frame_frequent_children() {
    let frame1 = produce_frames_from_metrics(
        (500, 590),
        &[
            (540, 541, Some("common")),
            (510, 518, Some("a")),
            (560, 570, Some("c")),
        ],
    );
    let frame2 = produce_frames_from_metrics(
        (300, 380),
        &[
            (340, 341, Some("common")),
            (314, 324, Some("a")),
            (354, 364, Some("b")),
        ],
    );
    let frame3 = produce_frames_from_metrics(
        (400, 464),
        &[
            (440, 441, Some("common")),
            (450, 456, Some("b")),
            (400, 410, Some("c")),
        ],
    );
    let mut merged = Frame::new(range(50, 50 + (90 + 80 + 64) / 3), 0, dummy_symbol());
    merge_into(&mut merged, &[&frame1, &frame2, &frame3], &mut Vec::new(), Single::ratio(6, 10));
    let chunks = merged.chunks();
    assert_eq!(chunks.len(), 7);
    let child1 = frame_of(&chunks[1]);
    let child2 = frame_of(&chunks[3]);
    let child3 = frame_of(&chunks[5]);
    assert_eq!(child1.metrics.start, Metrics::constant(50 + 12));
    assert_eq!(child1.metrics.end(), Metrics::constant(50 + 12 + 9));
    assert_eq!(child1.symbol.name, "a");
    assert_eq!(child2.metrics.start, Metrics::constant(50 + 40));
    assert_eq!(child2.metrics.end(), Metrics::constant(50 + 40 + 1));
    assert_eq!(child2.symbol.name, "common");
    assert_eq!(child3.metrics.start, Metrics::constant(50 + 52));
    assert_eq!(child3.metrics.end(), Metrics::constant(50 + 52 + 8));
    assert_eq!(child3.symbol.name, "b");
}

#[test]
fn merge_frame_with_pauses() {
    let frame1 = produce_frames_from_metrics(
        (500, 600),
        &[
            (510, 520, Some("a")),
            (530, 540, Some("[pause]")),
            (550, 560, Some("[pause]")),
            (580, 590, Some("b")),
        ],
    );
    let frame2 = produce_frames_from_metrics(
        (300, 400),
        &[
            (310, 320, Some("b")),
            (330, 340, Some("[pause]")),
            (350, 360, Some("[pause]")),
            (380, 390, Some("c")),
        ],
    );
    let frame3 = produce_frames_from_metrics(
        (100, 300),
        &[
            (130, 150, Some("a")),
            (160, 180, Some("[pause]")),
            (250, 260, Some("c")),
        ],
    );
    let mut merged = Frame::new(range(0, 133), 0, dummy_symbol());
    merge_into(&mut merged, &[&frame1, &frame2, &frame3], &mut Vec::new(), Single::ratio(6, 10));
    // "a" "[pause]" "[pause]" "c", where the two pauses are contiguous
    let chunks = merged.chunks();
    assert_eq!(chunks.len(), 8);
    let a = frame_of(&chunks[1]);
    let pause1 = pause_of(&chunks[3]);
    let pause2 = pause_of(&chunks[4]);
    let c = frame_of(&chunks[6]);
    assert_eq!(a.metrics.start, Metrics::constant(20));
    assert_eq!(a.metrics.end(), Metrics::constant(20 + 15));
    assert_eq!(a.symbol.name, "a");
    assert_eq!(pause1.start, Metrics::constant(40));
    assert_eq!(pause1.end(), Metrics::constant(40 + 13));
    assert_eq!(pause2.start, Metrics::constant(53));
    assert_eq!(pause2.end(), Metrics::constant(53 + 10 - 3));
    assert_eq!(c.metrics.start, Metrics::constant(115));
    assert_eq!(c.metrics.end(), Metrics::constant(115 + 10));
    assert_eq!(c.symbol.name, "c");
}

#[test]
fn merge_children_enters_symbols() {
    let mut inner1 = Frame::new(range(520, 540), 0, symbol("f"));
    inner1.add_child(Frame::new(range(522, 530), 0, symbol("g"))).unwrap();
    let mut outer1 = Frame::new(range(500, 590), 0, dummy_symbol());
    outer1.add_child(inner1).unwrap();
    outer1.add_child(Frame::new(range(550, 560), 0, symbol("g"))).unwrap();
    let outer2 = outer1.clone();

    let mut symbols = SymbolCache::new(10);
    let mut merged = Frame::new(range(0, 90), 0, dummy_symbol());
    let mut lost = Vec::new();
    merge_children(&mut merged, &[&outer1, &outer2], &mut symbols, &mut lost, seven_tenths());
    assert_eq!(symbols.size(), 2);
    assert_eq!(symbols.get_ref(0).name, "f");
    assert_eq!(symbols.get_ref(1).name, "g");
    let chunks = merged.chunks();
    let f = frame_of(&chunks[1]);
    assert_eq!(f.symbol_idx, 0);
    let f_chunks = f.chunks();
    let inner_g = frame_of(&f_chunks[1]);
    assert_eq!(inner_g.symbol_idx, 1);
    assert_eq!(inner_g.metrics, range(22, 30));
    let outer_g = frame_of(&chunks[3]);
    assert_eq!(outer_g.symbol_idx, 1);
    assert!(lost.is_empty());
}

#[test]
fn merge_traces_notes_lost_frames() {
    // On average "b" lies before the end of "a" in time, but behind it in cycles.
    let build = |a: (u64, u64), b: (u64, u64)| {
        let mut frame = Frame::new(range(0, 100), 0, dummy_symbol());
        frame.add_child(Frame::new(range(a.0, a.1), 0, symbol("a"))).unwrap();
        frame.add_child(Frame::new(range(b.0, b.1), 0, symbol("b"))).unwrap();
        trace_of(frame, vec![])
    };
    let trace1 = build((0, 90), (90, 91));
    let trace2 = build((0, 2), (2, 3));
    let trace3 = build((0, 1), (1, 1));
    // "a" lasts 31 and "b" starts at 31
    let merged = merge_traces(&[&trace1, &trace2, &trace3]);
    assert!(merged.events().is_empty());
    assert!(merged.root_frame().check_invariant());

    // Between two calls in common a frequent call overlaps with the second one.
    let build = |x: Option<(u64, u64)>, y: (u64, u64)| {
        let mut frame = Frame::new(range(0, 100), 0, dummy_symbol());
        if let Some(x) = x {
            frame.add_child(Frame::new(range(x.0, x.1), 0, symbol("x"))).unwrap();
        }
        frame.add_child(Frame::new(range(y.0, y.1), 0, symbol("y"))).unwrap();
        trace_of(frame, vec![])
    };
    let traces = [
        build(Some((90, 95)), (95, 96)),
        build(Some((90, 95)), (95, 96)),
        build(Some((90, 95)), (95, 96)),
        build(None, (0, 1)),
    ];
    let refs: Vec<&Trace> = traces.iter().collect();
    let merged = merge_traces(&refs);
    // "x" is merged to 90..95, "y" to 71..72, which is wholly before the end of "x".
    let lost = merged.get_event(LostFrameWhileMerging::ID).unwrap();
    assert_eq!(lost.occurences(), &[Metrics::constant(71)]);
    assert_eq!(lost.name, "Lost Frames");
    assert!(merged.root_frame().check_invariant());
}

#[test]
fn cut_frames_keep_their_calls_inside() {
    let build = |g: (u64, u64), z: Option<(u64, u64)>| {
        let mut frame = Frame::new(range(0, 100), 0, dummy_symbol());
        frame.add_child(Frame::new(range(g.0, g.1), 0, symbol("g"))).unwrap();
        if let Some(z) = z {
            let mut outer = Frame::new(range(z.0, z.1), 0, symbol("z"));
            outer.add_child(Frame::new(range(z.0, z.0 + 10), 0, symbol("w"))).unwrap();
            frame.add_child(outer).unwrap();
        }
        trace_of(frame, vec![])
    };
    let traces = [
        build((10, 20), Some((20, 60))),
        build((10, 20), Some((20, 60))),
        build((10, 20), Some((20, 60))),
        build((90, 100), None),
    ];
    let refs: Vec<&Trace> = traces.iter().collect();
    assert!(can_merge(&refs));
    let merged = merge_traces(&refs);
    // "g" is merged to 30..40, "z" to 20..60, which is cut to 40..60
    let chunks = merged.root_frame().chunks();
    assert_eq!(chunks.len(), 4);
    assert_eq!(frame_of(&chunks[1]).metrics, range(30, 40));
    let z = frame_of(&chunks[2]);
    assert_eq!(z.symbol.name, "z");
    assert_eq!(z.metrics, range(40, 60));
    let inner = z.chunks();
    assert_eq!(frame_of(&inner[0]).symbol.name, "w");
    assert_eq!(frame_of(&inner[0]).metrics, range(40, 50));
    assert!(z.check_invariant());
    assert!(frame_of(&inner[0]).check_invariant());
    assert!(merged.root_frame().check_invariant());
    assert!(merged.events().is_empty());
    let again = Trace::from_def(merged.to_def()).unwrap();
    assert_eq!(again.root_frame(), merged.root_frame());
}

#[test]
fn merge_single_trace_is_itself() {
    let frame = produce_frames_from_metrics((500, 590), &[(520, 540, Some("a"))]);
    let trace = trace_of(frame, vec![Event::new(4, "E".to_string(), "D".to_string())]);
    assert!(can_merge(&[&trace]));
    let merged = merge_traces(&[&trace]);
    assert_eq!(merged.root_frame(), trace.root_frame());
    assert_eq!(merged.events(), trace.events());
    assert!(!can_merge(&[]));
}

#[test]
fn can_merge_needs_nesting() {
    let mut frame = produce_frames_from_metrics((500, 590), &[(520, 540, Some("a"))]);
    frame.metrics = range(530, 590);
    let early = trace_of(frame, vec![]);
    let good = trace_of(produce_frames_from_metrics((500, 590), &[]), vec![]);
    assert!(!can_merge(&[&early, &good]));
    assert!(can_merge(&[&good, &good]));
    let mut event = Event::new(1, "A".to_string(), "D".to_string());
    event.add_occurence(Metrics::constant(100));
    let before_start =
        trace_of(produce_frames_from_metrics((500, 590), &[]), vec![event]);
    assert!(!can_merge(&[&before_start, &good]));
}

#[test]
fn many_calls_can_be_merged() {
    // the calls of one frame are many, those of the other few
    let mut many = Frame::new(range(0, 5000), 0, dummy_symbol());
    for i in 0..5000 {
        many.add_child(Frame::new(range(i, i + 1), 0, symbol("a"))).unwrap();
    }
    let few = produce_frames_from_metrics((0, 5000), &[(0, 1, Some("a"))]);
    assert!(can_number(&[&many, &few], seven_tenths(), 1));
    let (many, few) = (trace_of(many, vec![]), trace_of(few, vec![]));
    assert!(can_merge(&[&many, &few]));
    let merged = merge_traces(&[&many, &few]);
    assert_eq!(merged.root_frame().chunks().len(), 2);
}

#[test]
fn merge_events_simple() {
    let mut event_a1 = Event::new(1, "A".to_string(), "Desc".to_string());
    let mut event_a2 = event_a1.clone();
    event_a1.add_occurence(Metrics::constant(125));
    event_a2.add_occurence(Metrics::constant(150));

    let mut event_b1 = Event::new(2, "B".to_string(), "Desc".to_string());
    let mut event_b2 = event_b1.clone();
    event_b1.add_occurence(Metrics::constant(130));
    event_b2.add_occurence(Metrics::constant(170));

    let mut event_c1 = Event::new(3, "C".to_string(), "Desc".to_string());
    event_c1.add_occurence(Metrics::constant(140));

    let trace1 = trace_of(dummy_frame(), vec![event_a1]);
    let trace2 = trace_of(dummy_frame(), vec![event_a2, event_b1]);
    let trace3 = trace_of(dummy_frame(), vec![event_b2, event_c1]);
    let merged_events = merge_events(&[&trace1, &trace2, &trace3], &dummy_range());
    assert_eq!(merged_events.len(), 3);

    let merged_event_a = merged_events.iter().find(|e| e.id == 1).unwrap();
    let merged_event_b = merged_events.iter().find(|e| e.id == 2).unwrap();
    let merged_event_c = merged_events.iter().find(|e| e.id == 3).unwrap();
    assert_eq!(
        merged_event_a.occurences(),
        &[Metrics::constant(125), Metrics::constant(150)]
    );
    assert_eq!(
        merged_event_b.occurences(),
        &[Metrics::constant(130), Metrics::constant(170)]
    );
    assert_eq!(merged_event_c.occurences(), &[Metrics::constant(140)]);
}

#[test]
fn merge_events_scaling() {
    let mut event_a = Event::new(1, "A".to_string(), "Desc".to_string());
    event_a.add_occurence(Metrics::constant(300));
    event_a.add_occurence(Metrics::constant(325));

    let mut event_b = Event::new(2, "B".to_string(), "Desc".to_string());
    event_b.add_occurence(Metrics::constant(375));
    event_b.add_occurence(Metrics::constant(405));

    let trace1 = trace_of(Frame::new(range(250, 500), 0, dummy_symbol()), vec![event_a]);
    let trace2 = trace_of(Frame::new(range(325, 425), 0, dummy_symbol()), vec![event_b]);
    let merged_events = merge_events(&[&trace1, &trace2], &range(20, 100));

    assert_eq!(merged_events.len(), 2);

    let merged_event_a = merged_events.iter().find(|e| e.id == 1).unwrap();
    let merged_event_b = merged_events.iter().find(|e| e.id == 2).unwrap();
    assert_eq!(
        merged_event_a.occurences(),
        &[Metrics::constant(36), Metrics::constant(44)]
    );
    assert_eq!(
        merged_event_b.occurences(),
        &[Metrics::constant(60), Metrics::constant(84)]
    );
}

#[test]
fn merge_events_zipped_scaled() {
    let mut event_a1 = Event::new(1, "A".to_string(), "Desc".to_string());
    event_a1.add_occurence(Metrics::constant(300));
    event_a1.add_occurence(Metrics::constant(400));
    let mut event_a2 = Event::new(1, "A".to_string(), "Desc".to_string());
    event_a2.add_occurence(Metrics::constant(365));
    event_a2.add_occurence(Metrics::constant(405));

    let trace1 = trace_of(Frame::new(range(250, 500), 0, dummy_symbol()), vec![event_a1]);
    let trace2 = trace_of(Frame::new(range(325, 425), 0, dummy_symbol()), vec![event_a2]);
    let merged_events = merge_events(&[&trace1, &trace2], &range(20, 100));
    assert_eq!(merged_events.len(), 1);

    let merged_event_a = merged_events.iter().find(|e| e.id == 1).unwrap();
    assert_eq!(
        merged_event_a.occurences(),
        &[
            Metrics::constant(36),
            Metrics::constant(52),
            Metrics::constant(68),
            Metrics::constant(84)
        ]
    );
}

#[test]
fn zip_events_takes_the_first_of_equals() {
    let lists = [
        vec![Metrics::new(5, 1, 1), Metrics::new(9, 1, 1)],
        vec![Metrics::new(5, 2, 2), Metrics::new(6, 2, 2)],
    ];
    let event = zip_events(7, "Z", "zipped", &lists);
    assert_eq!(event.id, 7);
    assert_eq!(event.name, "Z");
    assert_eq!(event.description, "zipped");
    assert_eq!(
        event.occurences(),
        &[
            Metrics::new(5, 1, 1),
            Metrics::new(5, 2, 2),
            Metrics::new(6, 2, 2),
            Metrics::new(9, 1, 1)
        ]
    );
}

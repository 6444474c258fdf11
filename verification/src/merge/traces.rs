//! Merging of whole traces.
use crate::merge::children::{
    self, all_mergeable, average, extents, merge_all, merge_children, mergeable, MAX_LEVELS,
};
use crate::merge::events::{
    self, carried, event_scales, events_scale, merge_events, merged_events, scales, trace_models,
};
use crate::merge::index::frame_models;
use crate::merge::single::{self, Single};
use crate::trace::cache::SymbolCache;
use crate::trace::event::{self, first_with_id, in_time_order, Event, EventModel};
use crate::trace::frame::{self, Frame, FrameModel, StoredChunk, StoredModel};
use crate::trace::metrics::{Metrics, MetricsRange};
use crate::trace::record::{self, Trace, TraceModel};
use crate::trace::trace_error::LostFrameWhileMerging;
use vstd::prelude::*;

verus! {

/// The share of frames in which a call must occur to be taken over: seven in ten.
pub open spec fn frequent_frame_thresh() -> Single {
    Single { units: single::share(7, 10) as u128 }
}

pub open spec fn roots(traces: Seq<TraceModel>) -> Seq<FrameModel> {
    Seq::new(traces.len(), |t: int| traces[t].root)
}

pub open spec fn root_ranges(traces: Seq<TraceModel>) -> Seq<MetricsRange> {
    Seq::new(traces.len(), |t: int| traces[t].root.metrics)
}

/// The range of the merged trace: from zero, of the average length.
pub open spec fn merged_root_range(traces: Seq<TraceModel>) -> MetricsRange {
    MetricsRange::between(Metrics::every(0), average(extents(root_ranges(traces))))
}

/// The event that tells of chunks lost while merging.
pub open spec fn lost_frames(lost: Seq<Metrics>) -> Seq<EventModel> {
    if lost.len() == 0 {
        Seq::empty()
    } else {
        seq![
            EventModel {
                id: LostFrameWhileMerging::ID,
                occurences: in_time_order(lost),
                name: LostFrameWhileMerging::NAME@,
                description: LostFrameWhileMerging::DESC@,
            },
        ]
    }
}

/// The trace that stands for all the traces.
pub open spec fn merged_trace(traces: Seq<TraceModel>) -> TraceModel {
    if traces.len() == 1 {
        traces[0]
    } else {
        let range = merged_root_range(traces);
        let symbol = traces[0].root.symbol;
        let inner = merge_all(
            MAX_LEVELS as nat,
            range,
            roots(traces),
            frequent_frame_thresh(),
            seq![symbol],
            Seq::empty(),
        );
        TraceModel {
            symbols: inner.table,
            root: FrameModel {
                symbol_idx: 0,
                symbol,
                metrics: range,
                annotations: None,
                chunks: inner.chunks,
            },
            events: merged_events(traces, range) + lost_frames(inner.lost),
        }
    }
}

/// The traces can be merged: a single one always; several where their frames can be merged and
/// their events carried over.
pub open spec fn traces_mergeable(traces: Seq<TraceModel>) -> bool {
    &&& traces.len() > 0
    &&& traces.len() > 1 ==> {
        &&& all_mergeable(roots(traces), frequent_frame_thresh())
        &&& events_scale(traces, merged_root_range(traces))
    }
}

/// The length of the merged trace, in all counters.
fn average_length(traces: &[&Trace]) -> (result: Metrics)
    requires
        traces.len() > 0,
    ensures
        result == average(extents(root_ranges(trace_models(traces@)))),
        MetricsRange::spans(Metrics::every(0), result),
{
    let ghost models = trace_models(traces@);
    let ghost wanted = extents(root_ranges(models));
    let mut lengths: Vec<Metrics> = Vec::new();
    let mut t: usize = 0;
    while t < traces.len()
        invariant
            t <= traces.len(),
            models == trace_models(traces@),
            wanted == extents(root_ranges(models)),
            lengths@ == wanted.take(t as int),
        decreases traces.len() - t,
    {
        assert(models[t as int] == traces@[t as int]@);
        lengths.push(children::extent_of(&traces[t].root_frame().metrics));
        assert(lengths@ =~= wanted.take(t + 1));
        t += 1;
    }
    assert(lengths@ =~= wanted);
    proof {
        children::average_is_small(wanted);
    }
    children::average_of(&lengths)
}

/// Merges traces into one.
///
/// # Merging algorithm
///
/// Consider the merging of several stack frames. Each is a sequence of calls, such as
/// `a() := [f(), g(), f(), h()]`, or of pauses. It can be taken for a string of unique characters,
/// `a() := "f1 g f2 h"`, each instance of a call being an entity of its own. The first step is to
/// find the longest common subsequence of these strings. For several strings that is NP-hard in
/// general, but not for strings of unique characters.
///
/// In the second step, for each section between the calls so found, the call that is most common
/// in the section across all frames is looked for. If enough of the frames have it, it is taken
/// over, and the sections before and behind it are searched in the same way.
///
/// Each call taken over is merged from those that it stands for, in the same manner.
pub fn merge_traces(traces: &[&Trace]) -> (result: Trace)
    requires
        traces_mergeable(trace_models(traces@)),
    ensures
        result@ == merged_trace(trace_models(traces@)),
        traces.len() > 1 ==> result@.root.deeply_ordered(),
        traces.len() > 1 ==> frame::indexed_by(result@.root, result@.symbols),
{
    let ghost models = trace_models(traces@);
    if traces.len() == 1 {
        assert(models[0] == traces@[0]@);
        return (*traces[0]).clone();
    }
    let mut frames: Vec<&Frame> = Vec::new();
    let mut t: usize = 0;
    while t < traces.len()
        invariant
            t <= traces.len(),
            models == trace_models(traces@),
            frame_models(frames@) == roots(models).take(t as int),
        decreases traces.len() - t,
    {
        assert(models[t as int] == traces@[t as int]@);
        let ghost before = frame_models(frames@);
        frames.push(traces[t].root_frame());
        assert(frame_models(frames@) =~= before.push(models[t as int].root));
        assert(frame_models(frames@) =~= roots(models).take(t + 1));
        t += 1;
    }
    assert(frame_models(frames@) =~= roots(models));
    let new_end = average_length(traces);
    let range = MetricsRange::new(Metrics::constant(0), &new_end);
    let mut symbols = SymbolCache::new(10000);
    let symbol = (*traces[0].root_frame().symbol).clone();
    let ghost root_symbol = symbol@;
    assert(models[0] == traces@[0]@);
    assert(root_symbol == models[0].root.symbol);
    let symbol_idx: usize = symbols.get_or_insert(symbol);
    proof {
        assert(symbols@ =~= seq![root_symbol]);
        assert(symbol_idx == 0);
    }
    let mut new_root = Frame::new(range, symbol_idx, symbols.get_ref(symbol_idx));
    let mut lost: Vec<Metrics> = Vec::new();
    let thresh = Single::ratio(7, 10);
    assert(thresh == frequent_frame_thresh());
    assert(lost@ =~= Seq::empty());
    merge_children(&mut new_root, frames.as_slice(), &mut symbols, &mut lost, thresh);
    let mut merged = merge_events(traces, &range);
    let ghost plain = event::event_models(merged@);
    if lost.len() > 0 {
        merged.push(
            Event {
                id: LostFrameWhileMerging::ID,
                occurences: event::sort_by_time(&lost),
                name: LostFrameWhileMerging::NAME.to_string(),
                description: LostFrameWhileMerging::DESC.to_string(),
            },
        );
    }
    proof {
        assert(event::event_models(merged@) =~= plain + lost_frames(lost@));
        symbols.table_fits();
        merged_trace_is_sound(models);
    }
    Trace::new(symbols.into_symbols(), new_root, merged)
}

/// The merged trace is ordered in depth, so that the chunks of each frame add up to it, and its
/// frames stand in its table of symbols under their indices, so that it is read back as it was
/// written. No name stands twice in annotations.
pub proof fn merged_trace_is_sound(traces: Seq<TraceModel>)
    requires
        traces_mergeable(traces),
        traces.len() > 1,
        merged_trace(traces).symbols.len() <= usize::MAX,
    ensures
        merged_trace(traces).root.deeply_ordered(),
        merged_trace(traces).root.well_annotated(),
        merged_trace(traces).root.adds_up(),
        frame::indexed_by(merged_trace(traces).root, merged_trace(traces).symbols),
        record::read(record::write(merged_trace(traces))) == Ok::<TraceModel, usize>(
            merged_trace(traces),
        ),
{
    let range = merged_root_range(traces);
    let symbol = traces[0].root.symbol;
    let wanted = extents(root_ranges(traces));
    children::average_is_small(wanted);
    children::merge_all_is_sound(
        MAX_LEVELS as nat,
        range,
        roots(traces),
        frequent_frame_thresh(),
        seq![symbol],
        Seq::empty(),
    );
    let root = merged_trace(traces).root;
    frame::ordered_adds_up(root);
    let table = merged_trace(traces).symbols;
    assert(table[0] == seq![symbol][0]);
    assert(frame::chunks_indexed_by(root.chunks, table));
    assert(frame::indexed_by(root, table));
    record::read_after_write(merged_trace(traces));
}

/// The occurences of every event of the merged trace are sorted by time.
pub proof fn merged_trace_events_sorted(traces: Seq<TraceModel>, e: int)
    requires
        traces_mergeable(traces),
        traces.len() > 1,
        0 <= e < merged_trace(traces).events.len(),
    ensures
        event::sorted_by_time(merged_trace(traces).events[e].occurences),
{
    let range = merged_root_range(traces);
    let plain = merged_events(traces, range);
    if e < plain.len() {
        events::merged_events_sorted(traces, events::events_in_turn(traces), range);
        assert(merged_trace(traces).events[e] == plain[e]);
    } else {
        let inner = merge_all(
            MAX_LEVELS as nat,
            range,
            roots(traces),
            frequent_frame_thresh(),
            seq![traces[0].root.symbol],
            Seq::empty(),
        );
        event::in_time_order_sorts(inner.lost);
        assert(merged_trace(traces).events[e] == lost_frames(inner.lost)[e - plain.len()]);
    }
}

/// Whether calls are nested on few enough levels in the frame, and no chunk starts before the frame
/// that it is in.
pub fn is_mergeable(frame: &Frame, levels: u32) -> (result: bool)
    ensures
        result == mergeable(frame@, levels as nat),
    decreases levels,
{
    let ghost stored = frame@.chunks;
    proof {
        frame::frame_view(frame);
    }
    let mut i: usize = 0;
    while i < frame.chunks.len()
        invariant
            i <= frame.chunks.len(),
            stored == frame@.chunks,
            stored == frame::stored_models(frame.chunks@),
            forall|k: int|
                0 <= k < i ==> MetricsRange::spans(
                    frame@.metrics.start,
                    (#[trigger] stored[k]).range().start,
                ),
            forall|k: int|
                0 <= k < i ==> match #[trigger] stored[k] {
                    StoredModel::Frame(child) => levels > 0 && mergeable(
                        child,
                        (levels - 1) as nat,
                    ),
                    StoredModel::Pause(_) => true,
                },
        decreases frame.chunks.len() - i,
    {
        assert(stored[i as int] == frame.chunks@[i as int]@);
        if !MetricsRange::can_span(&frame.metrics.start, &frame.chunks[i].metrics().start) {
            return false;
        }
        if let StoredChunk::Frame(child) = &frame.chunks[i] {
            if levels == 0 || !is_mergeable(child, levels - 1) {
                return false;
            }
        }
        i += 1;
    }
    true
}

fn can_carry(value: u64, start: u64, length: u32, new_start: u64, new_length: u32) -> (result: bool)
    requires
        start <= value,
        length > 0,
    ensures
        result == (0 <= carried(value, start, length, new_start, new_length) <= u64::MAX),
{
    let way: u128 = (value - start) as u128;
    proof {
        assert(new_length * way <= u32::MAX * u64::MAX) by (nonlinear_arith)
            requires
                new_length <= u32::MAX,
                way <= u64::MAX,
        ;
        assert(0 <= (new_length * way) / (length as int) <= new_length * way) by (nonlinear_arith)
            requires
                length > 0,
                new_length >= 0,
                way >= 0,
        ;
    }
    let share: u128 = (new_length as u128 * way) / length as u128;
    share + new_start as u128 <= u64::MAX as u128
}

fn can_scale(sample: &Metrics, from: &MetricsRange, to: &MetricsRange) -> (result: bool)
    ensures
        result == scales(*sample, *from, *to),
{
    from.start.at_most(sample) && from.ts_incr > 0 && from.cycles_incr > 0 && from.insn_incr > 0
        && can_carry(sample.ts, from.start.ts, from.ts_incr, to.start.ts, to.ts_incr) && can_carry(
        sample.cycles,
        from.start.cycles,
        from.cycles_incr,
        to.start.cycles,
        to.cycles_incr,
    ) && can_carry(
        sample.insn_count,
        from.start.insn_count,
        from.insn_incr,
        to.start.insn_count,
        to.insn_incr,
    )
}

fn event_can_scale(event: &Event, from: &MetricsRange, to: &MetricsRange) -> (result: bool)
    ensures
        result == event_scales(event@, *from, *to),
{
    let samples = event.occurences();
    let mut i: usize = 0;
    while i < samples.len()
        invariant
            i <= samples.len(),
            samples@ == event@.occurences,
            forall|k: int| 0 <= k < i ==> scales(#[trigger] samples@[k], *from, *to),
            forall|a: int, b: int|
                0 <= a < b < i ==> #[trigger] samples@[a].ts <= #[trigger] samples@[b].ts,
        decreases samples.len() - i,
    {
        if i > 0 && samples[i].ts < samples[i - 1].ts {
            assert(samples@[i - 1].ts > samples@[i as int].ts);
            return false;
        }
        if !can_scale(&samples[i], from, to) {
            return false;
        }
        proof {
            assert forall|a: int, b: int| 0 <= a < b < i + 1 implies #[trigger] samples@[a].ts
                <= #[trigger] samples@[b].ts by {
                if b == i && a < i - 1 {
                    assert(samples@[a].ts <= samples@[i - 1].ts);
                }
            }
        }
        i += 1;
    }
    true
}

proof fn id_is_there(events: Seq<EventModel>, id: u32) -> (e: int)
    requires
        first_with_id(events, id) is Some,
    ensures
        0 <= e < events.len(),
        events[e].id == id,
    decreases events.len(),
{
    if events[0].id == id {
        0
    } else {
        id_is_there(events.drop_first(), id) + 1
    }
}

/// Whether the events of the trace that are merged can be carried over to the range.
fn trace_events_scale(trace: &Trace, to: &MetricsRange) -> (result: bool)
    ensures
        result == (forall|id: u32|
            match #[trigger] first_with_id(trace@.events, id) {
                Some(event) => event_scales(event, trace@.root.metrics, *to),
                None => true,
            }),
{
    let events = trace.events();
    let ghost models = trace@.events;
    let from = trace.root_frame().metrics;
    let mut e: usize = 0;
    while e < events.len()
        invariant
            e <= events.len(),
            models == event::event_models(events@),
            models == trace@.events,
            from == trace@.root.metrics,
            forall|k: int|
                0 <= k < e ==> match first_with_id(models, (#[trigger] models[k]).id) {
                    Some(event) => event_scales(event, from, *to),
                    None => true,
                },
        decreases events.len() - e,
    {
        assert(models[e as int] == events@[e as int]@);
        let id: u32 = events[e].id;
        if let Some(event) = trace.get_event(id) {
            if !event_can_scale(event, &from, to) {
                assert(first_with_id(trace@.events, id) == Some(event@));
                return false;
            }
        }
        e += 1;
    }
    proof {
        assert forall|id: u32| match #[trigger] first_with_id(trace@.events, id) {
            Some(event) => event_scales(event, trace@.root.metrics, *to),
            None => true,
        } by {
            if first_with_id(models, id) is Some {
                let k = id_is_there(models, id);
                assert(models[k].id == id);
            }
        }
    }
    true
}

/// Whether the traces can be merged. This finds the groups that merging would, to see that the
/// chunks that are numbered together are not too many.
pub fn can_merge(traces: &[&Trace]) -> (result: bool)
    ensures
        result == traces_mergeable(trace_models(traces@)),
{
    let ghost models = trace_models(traces@);
    if traces.len() == 0 {
        return false;
    }
    if traces.len() == 1 {
        return true;
    }
    if traces.len() > u32::MAX as usize {
        return false;
    }
    let new_end = average_length(traces);
    let range = MetricsRange::new(Metrics::constant(0), &new_end);
    let mut frames: Vec<&Frame> = Vec::new();
    let mut t: usize = 0;
    while t < traces.len()
        invariant
            t <= traces.len(),
            1 < traces.len() <= u32::MAX,
            models == trace_models(traces@),
            range == merged_root_range(models),
            frame_models(frames@) == roots(models).take(t as int),
            forall|k: int|
                0 <= k < t ==> mergeable(
                    #[trigger] roots(models)[k],
                    MAX_LEVELS as nat,
                ),
            forall|k: int, id: u32|
                0 <= k < t ==> match #[trigger] first_with_id(models[k].events, id) {
                    Some(event) => event_scales(event, models[k].root.metrics, range),
                    None => true,
                },
        decreases traces.len() - t,
    {
        let trace = traces[t];
        assert(models[t as int] == trace@);
        assert(roots(models)[t as int] == trace@.root);
        if !is_mergeable(trace.root_frame(), MAX_LEVELS) {
            assert(!mergeable(roots(models)[t as int], MAX_LEVELS as nat));
            return false;
        }
        if !trace_events_scale(trace, &range) {
            proof {
                let id = choose|id: u32|
                    !match #[trigger] first_with_id(trace@.events, id) {
                        Some(event) => event_scales(event, trace@.root.metrics, range),
                        None => true,
                    };
                assert(first_with_id(models[t as int].events, id) == first_with_id(
                    trace@.events,
                    id,
                ));
            }
            return false;
        }
        let ghost so_far = frame_models(frames@);
        frames.push(trace.root_frame());
        proof {
            assert(frame_models(frames@) =~= so_far.push(trace@.root));
            assert(frame_models(frames@) =~= roots(models).take(t + 1));
        }
        t += 1;
    }
    proof {
        assert(frame_models(frames@) =~= roots(models));
        assert forall|f: int| 0 <= f < frames.len() implies mergeable(
            (#[trigger] frames@[f])@,
            MAX_LEVELS as nat,
        ) by {
            assert(frame_models(frames@)[f] == roots(models)[f]);
        }
    }
    children::can_number(frames.as_slice(), Single::ratio(7, 10), MAX_LEVELS)
}

} // verus!

//! What branches do to recordings, in terms of what the profiler tells of them.
use crate::trace::builder::{by_turns, with_chunks, BuilderModel, OutcomeModel};
use crate::trace::event::{slot_in_time, with_sample, EventModel};
use crate::trace::frame::{slot, FrameModel, StoredModel};
use crate::trace::laws::{reading, reading_at_end, Counter};
use crate::trace::metrics::{Metrics, MetricsRange};
use crate::trace::symbol::SymbolModel;
use crate::transform::laws::{all_declared, builder_of, events_declared, returned_keeps_events};
use crate::transform::sample::{
    counted, unknown_symbol, Sample, FLAG_ASYNC, FLAG_CALL, FLAG_RETURN, FLAG_TRACE_BEGIN, FLAG_TRACE_END,
};
use crate::transform::state::{
    branched, exported, fresh, well_placed, woken, BranchModel, RecordingModel, StateModel,
};
use crate::transform::turn::{
    called, level_is_innermost, level_of, returned, root_symbol, turn, turned, Fault, Turn,
};
use vstd::prelude::*;

verus! {

/// The branch is a call: the second bit is set.
pub open spec fn is_call(sample: Sample) -> bool {
    (sample.flags / 2) % 2 == 1
}

/// The branch is a return: the third bit is set.
pub open spec fn is_return(sample: Sample) -> bool {
    (sample.flags / 4) % 2 == 1
}

/// The branch was not brought about by an instruction: the sixth bit is set.
pub open spec fn is_async(sample: Sample) -> bool {
    (sample.flags / 32) % 2 == 1
}

/// Tracing begins with the branch: the ninth bit is set.
pub open spec fn is_begin(sample: Sample) -> bool {
    (sample.flags / 256) % 2 == 1
}

/// Tracing ends with the branch: the tenth bit is set.
pub open spec fn is_end(sample: Sample) -> bool {
    (sample.flags / 512) % 2 == 1
}

/// Each flag is a bit of its own, whatever the others are.
pub proof fn flags_are_bits(sample: Sample)
    ensures
        sample.flagged(FLAG_CALL) <==> is_call(sample),
        sample.flagged(FLAG_RETURN) <==> is_return(sample),
        sample.flagged(FLAG_ASYNC) <==> is_async(sample),
        sample.flagged(FLAG_TRACE_BEGIN) <==> is_begin(sample),
        sample.flagged(FLAG_TRACE_END) <==> is_end(sample),
{
    let flags = sample.flags;
    assert((flags & 0x2 != 0) == ((flags / 2) % 2 == 1)) by (bit_vector);
    assert((flags & 0x4 != 0) == ((flags / 4) % 2 == 1)) by (bit_vector);
    assert((flags & 0x20 != 0) == ((flags / 32) % 2 == 1)) by (bit_vector);
    assert((flags & 0x100 != 0) == ((flags / 256) % 2 == 1)) by (bit_vector);
    assert((flags & 0x200 != 0) == ((flags / 512) % 2 == 1)) by (bit_vector);
}

/// An instruction takes over the time of its sample, adds the cycles, and counts as one. It cannot
/// be counted if and only if a counter would pass its limit.
pub proof fn instructions_are_counted(metrics: Metrics, sample: Sample)
    ensures
        counted(metrics, sample) is None <==> metrics.insn_count + 1 > u64::MAX || metrics.cycles
            + sample.cyc_cnt > u64::MAX,
        counted(metrics, sample) matches Some(after) ==> {
            &&& after.ts == sample.time
            &&& after.cycles - metrics.cycles == sample.cyc_cnt
            &&& after.insn_count - metrics.insn_count == 1
        },
{
}

/// A branch counts as an instruction if tracing begins with it, and else leaves the counters alone.
pub proof fn beginnings_are_counted(
    state: StateModel,
    sample: Sample,
    target: SymbolModel,
    wanted: bool,
)
    ensures
        branched(state, sample, target, wanted) matches Ok(branch) ==> {
            let now = branch.state.metrics;
            &&& is_begin(sample) ==> now.ts == sample.time && now.cycles - state.metrics.cycles
                == sample.cyc_cnt && now.insn_count - state.metrics.insn_count == 1
            &&& !is_begin(sample) ==> now == state.metrics
        },
{
    flags_are_bits(sample);
}

/// The same samples, and one more.
pub open spec fn one_more(before: Seq<Metrics>, after: Seq<Metrics>, sample: Metrics) -> bool {
    after.len() == before.len() + 1 && after.to_multiset() == before.to_multiset().insert(sample)
}

proof fn slot_is_inside(samples: Seq<Metrics>, ts: u64)
    ensures
        0 <= slot_in_time(samples, ts) <= samples.len(),
    decreases samples.len(),
{
    if samples.len() > 0 {
        slot_is_inside(samples.drop_last(), ts);
    }
}

proof fn with_sample_is_one_more(samples: Seq<Metrics>, sample: Metrics)
    ensures
        one_more(samples, with_sample(samples, sample), sample),
{
    slot_is_inside(samples, sample.ts);
    let at = slot_in_time(samples, sample.ts);
    let after = with_sample(samples, sample);
    after.to_multiset_ensures();
    assert(after[at] == sample);
    assert(after.remove(at) =~= samples);
    assert(after.to_multiset().remove(sample).insert(sample) =~= after.to_multiset());
}

proof fn turned_keeps_events(
    builder: BuilderModel,
    metrics: Metrics,
    sample: Sample,
    target: SymbolModel,
)
    ensures
        match turned(builder, metrics, sample, target) {
            Ok(OutcomeModel::Going(after)) => after.events == builder.events,
            Ok(OutcomeModel::Done(trace)) => trace.events == builder.events,
            Err(_) => true,
        },
{
    returned_keeps_events(builder, metrics, builder.stack.len() + 1);
    returned_keeps_events(builder, metrics, 2);
    if let Ok(OutcomeModel::Going(outer)) = returned(builder, metrics, 2) {
        returned_keeps_events(outer, metrics, outer.stack.len() + 1);
    }
    if let Turn::Return(levels) = turn(builder, sample, target) {
        returned_keeps_events(builder, metrics, levels as nat);
    }
}

/// The events after a branch, from those before it. An interrupt is noted if and only if the
/// recording goes on and tracing ends asynchronously; an error if and only if tracing begins though
/// the recording was not paused. All else stays as it is.
pub open spec fn defects_noted(
    before: Seq<EventModel>,
    after: Seq<EventModel>,
    sample: Sample,
    metrics: Metrics,
    paused: bool,
    goes_on: bool,
) -> bool {
    &&& before.len() == 2 && after.len() == 2
    &&& forall|e: int|
        0 <= e < 2 ==> (#[trigger] after[e]).id == before[e].id && after[e].name == before[e].name
            && after[e].description == before[e].description
    &&& if !paused && is_begin(sample) {
        one_more(before[0].occurences, after[0].occurences, metrics)
    } else {
        after[0].occurences == before[0].occurences
    }
    &&& if goes_on && is_end(sample) && is_async(sample) {
        one_more(before[1].occurences, after[1].occurences, metrics)
    } else {
        after[1].occurences == before[1].occurences
    }
}

/// A branch of a thread that is recorded notes errors and interrupts as they come up, at the metrics
/// of the branch: in the recording where that goes on, in the exported trace where it is done.
pub proof fn branches_note_defects(
    state: StateModel,
    sample: Sample,
    target: SymbolModel,
    wanted: bool,
)
    requires
        all_declared(state),
        state.recordings.contains_key(sample.tid),
    ensures
        branched(state, sample, target, wanted) matches Ok(branch) ==> {
            let recording = state.recordings[sample.tid];
            let goes_on = branch.state.recordings.contains_key(sample.tid);
            let after = if goes_on {
                builder_of(branch.state.recordings[sample.tid]).events
            } else {
                branch.export->0.trace.events
            };
            &&& goes_on <==> branch.export is None
            &&& defects_noted(
                builder_of(recording).events,
                after,
                sample,
                branch.state.metrics,
                recording is Paused,
                goes_on,
            )
        },
{
    flags_are_bits(sample);
    if let Ok(branch) = branched(state, sample, target, wanted) {
        let tid = sample.tid;
        let metrics = branch.state.metrics;
        let recording = state.recordings[tid];
        let before = builder_of(recording).events;
        assert(events_declared(before));
        let builder = woken(recording, metrics, sample)->Ok_0;
        turned_keeps_events(builder, metrics, sample, target);
        with_sample_is_one_more(before[0].occurences, metrics);
        with_sample_is_one_more(before[1].occurences, metrics);
    }
}

/// A recording begins with no errors and no interrupts, in one frame of the target, which starts at
/// the metrics of the branch and has neither calls nor pauses.
pub proof fn recordings_begin_empty(
    state: StateModel,
    sample: Sample,
    target: SymbolModel,
    wanted: bool,
)
    requires
        !state.recordings.contains_key(sample.tid),
    ensures
        branched(state, sample, target, wanted) matches Ok(branch) ==> {
            &&& branch.export is None
            &&& branch.state.recordings.contains_key(sample.tid) <==> wanted && target.offset != 0
                && state.limit != Some(0u32)
            &&& branch.state.recordings.contains_key(sample.tid) ==> {
                let recording = branch.state.recordings[sample.tid];
                let builder = builder_of(recording);
                &&& recording is InProgress
                &&& builder.last == branch.state.metrics
                &&& builder.stack.len() == 0
                &&& builder.current.start == branch.state.metrics
                &&& builder.current.symbol == target
                &&& builder.current.children.len() == 0
                &&& builder.current.pauses.len() == 0
                &&& builder.table == seq![target]
                &&& builder.current.symbol_idx == 0
                &&& builder.events.len() == 2
                &&& builder.events[0].id == 1 && builder.events[0].occurences.len() == 0
                &&& builder.events[1].id == 2710682459 && builder.events[1].occurences.len() == 0
            }
        },
{
}

/// A recording that goes on is paused after a branch if and only if tracing ends with it, and the
/// pause starts at the metrics of the branch.
pub proof fn endings_pause(state: StateModel, sample: Sample, target: SymbolModel, wanted: bool)
    requires
        state.recordings.contains_key(sample.tid),
    ensures
        branched(state, sample, target, wanted) matches Ok(branch)
            ==> branch.state.recordings.contains_key(sample.tid) ==> {
            let recording = branch.state.recordings[sample.tid];
            &&& recording is Paused <==> is_end(sample)
            &&& recording matches RecordingModel::Paused(paused) ==> paused.start
                == branch.state.metrics
        },
{
    flags_are_bits(sample);
}

/// A paused recording goes on with one more pause in its innermost frame, from where it was paused
/// to the branch; all else is as it was. It cannot go on if and only if a counter went back, or the
/// pause is longer than a range can be.
pub proof fn pauses_end_at_next_branch(recording: RecordingModel, metrics: Metrics, sample: Sample)
    requires
        recording is Paused,
    ensures
        ({
            let from = recording->Paused_0.start;
            let before = recording->Paused_0.inner;
            match woken(recording, metrics, sample) {
                Ok(after) => {
                    let pauses = after.current.pauses;
                    &&& pauses.len() == before.current.pauses.len() + 1
                    &&& pauses.drop_last() == before.current.pauses
                    &&& forall|c: Counter|
                        #[trigger] reading(pauses.last().start, c) == reading(from, c)
                            && reading_at_end(pauses.last(), c) == reading(metrics, c)
                    &&& after.last == metrics
                    &&& after.stack == before.stack
                    &&& after.events == before.events
                    &&& after.table == before.table
                    &&& after.current.children == before.current.children
                    &&& after.current.start == before.current.start
                    &&& after.current.symbol == before.current.symbol
                    &&& after.current.symbol_idx == before.current.symbol_idx
                },
                Err(Fault::NotMonotonic) => exists|c: Counter|
                    reading(metrics, c) < #[trigger] reading(before.last, c),
                Err(Fault::TooLong) => exists|c: Counter|
                    reading(metrics, c) < #[trigger] reading(from, c) || reading(metrics, c)
                        - reading(from, c) > u32::MAX,
                Err(_) => false,
            }
        }),
{
    let from = recording->Paused_0.start;
    let before = recording->Paused_0.inner;
    match woken(recording, metrics, sample) {
        Ok(after) => {
            assert(after.current.pauses.drop_last() =~= before.current.pauses);
        },
        Err(Fault::NotMonotonic) => {
            if metrics.ts < before.last.ts {
                assert(reading(metrics, Counter::Time) < reading(before.last, Counter::Time));
            } else if metrics.cycles < before.last.cycles {
                assert(reading(metrics, Counter::Cycles) < reading(before.last, Counter::Cycles));
            } else {
                assert(reading(metrics, Counter::Instructions) < reading(
                    before.last,
                    Counter::Instructions,
                ));
            }
        },
        Err(Fault::TooLong) => {
            if metrics.ts < from.ts || metrics.ts - from.ts > u32::MAX {
                assert(reading(from, Counter::Time) == from.ts);
            } else if metrics.cycles < from.cycles || metrics.cycles - from.cycles > u32::MAX {
                assert(reading(from, Counter::Cycles) == from.cycles);
            } else {
                assert(reading(from, Counter::Instructions) == from.insn_count);
            }
        },
        Err(_) => {},
    }
}

/// The address lies in the symbol.
pub open spec fn lies_in(addr: u64, symbol: SymbolModel) -> bool {
    symbol.offset <= addr && addr - symbol.offset < symbol.size
}

/// The symbol of the frame so many levels up the callstack; zero is the innermost.
pub open spec fn symbol_up(builder: BuilderModel, level: int) -> SymbolModel {
    if level == 0 {
        builder.current.symbol
    } else {
        builder.stack[builder.stack.len() - level].symbol
    }
}

/// The frames of the callstack from the given level outwards are as they were, but that the
/// innermost of them has one more call, which ends at the given metrics.
pub open spec fn went_up(before: BuilderModel, after: BuilderModel, level: int, end: Metrics) -> bool {
    let to = before.stack[before.stack.len() - level];
    let calls = after.current.children;
    &&& 1 <= level <= before.stack.len()
    &&& after.stack == before.stack.take(before.stack.len() - level)
    &&& after.last == end
    &&& after.current.start == to.start
    &&& after.current.symbol == to.symbol
    &&& after.current.pauses == to.pauses
    &&& calls.len() == to.children.len() + 1
    &&& calls.drop_last() == to.children
    &&& calls.last().symbol == symbol_up(before, level - 1)
    &&& calls.last().metrics.start == if level == 1 {
        before.current.start
    } else {
        before.stack[before.stack.len() - level + 1].start
    }
    &&& forall|c: Counter| #[trigger] reading_at_end(calls.last().metrics, c) == reading(end, c)
}

proof fn with_chunks_keeps_frame(
    frame: FrameModel,
    chunks: Seq<StoredModel>,
)
    ensures
        with_chunks(frame, chunks) matches Ok(after) ==> after.metrics
            == frame.metrics && after.symbol == frame.symbol,
    decreases chunks.len(),
{
    if chunks.len() > 0 {
        if let Some(k) = slot(
            frame.metrics,
            frame.chunks,
            chunks[0].range(),
        ) {
            with_chunks_keeps_frame(frame.with_chunk(k, chunks[0]), chunks.drop_first());
        }
    }
}

proof fn popped_goes_up(builder: BuilderModel, end: Metrics)
    requires
        MetricsRange::spans(builder.current.start, end),
    ensures
        builder.popped(end, false) matches Ok(OutcomeModel::Going(after)) ==> went_up(
            builder,
            after,
            1,
            end,
        ),
        builder.popped(end, false) matches Ok(outcome) ==> (outcome is Going
            <==> builder.stack.len() > 0),
{
    if let Ok(OutcomeModel::Going(after)) = builder.popped(end, false) {
        let frame = after.current.children.last();
        let bare = FrameModel {
            symbol_idx: builder.current.symbol_idx,
            symbol: builder.current.symbol,
            metrics: MetricsRange::between(builder.current.start, end),
            annotations: None,
            chunks: Seq::empty(),
        };
        with_chunks_keeps_frame(
            bare,
            by_turns(builder.current.children, builder.current.pauses),
        );
        assert(after.current.children.drop_last() =~= builder.stack.last().children);
        assert(after.stack =~= builder.stack.take(builder.stack.len() - 1));
        assert forall|c: Counter| #[trigger] reading_at_end(frame.metrics, c) == reading(end, c) by {}
    }
}

proof fn returned_goes_up(builder: BuilderModel, end: Metrics, levels: nat)
    requires
        levels > 0,
    ensures
        returned(builder, end, levels) matches Ok(OutcomeModel::Going(after)) ==> went_up(
            builder,
            after,
            levels as int,
            end,
        ),
        returned(builder, end, levels) matches Ok(outcome) ==> (outcome is Going <==> levels
            <= builder.stack.len()),
    decreases levels,
{
    if builder.last.le_all(end) && MetricsRange::spans(builder.current.start, end) {
        popped_goes_up(builder, end);
        if let Ok(OutcomeModel::Going(outer)) = builder.popped(end, false) {
            if levels == 1 {
                assert(returned(outer, end, 0) == Ok::<OutcomeModel, Fault>(
                    OutcomeModel::Going(outer),
                ));
                assert(returned(builder, end, levels) == returned(outer, end, 0));
            } else {
                returned_goes_up(outer, end, (levels - 1) as nat);
                if let Ok(OutcomeModel::Going(after)) = returned(outer, end, (levels - 1) as nat) {
                    assert(after.stack =~= builder.stack.take(builder.stack.len() - levels));
                    assert(outer.stack[outer.stack.len() - (levels - 1)] == builder.stack[
                        builder.stack.len() - levels
                    ]);
                    if levels > 2 {
                        assert(symbol_up(outer, levels - 2) == symbol_up(builder, levels - 1));
                    }
                }
            }
        }
    }
}

/// A branch inside of the innermost frame changes nothing; nor does one from unknown code to unknown
/// code.
pub proof fn branch_inside_stays(
    builder: BuilderModel,
    metrics: Metrics,
    sample: Sample,
    target: SymbolModel,
)
    requires
        builder.current.symbol.offset != 0 && lies_in(sample.addr, builder.current.symbol)
            || builder.current.symbol.offset == 0 && target.offset == 0,
    ensures
        turned(builder, metrics, sample, target) == Ok::<OutcomeModel, Fault>(
            OutcomeModel::Going(builder),
        ),
{
}

/// A call that leaves the innermost frame adds one of the target to the callstack, which starts with
/// the branch and is empty; and so does any branch to where no frame of the callstack is, but for a
/// return from the outermost frame. The outermost function is not called again.
pub proof fn calls_go_down(
    builder: BuilderModel,
    metrics: Metrics,
    sample: Sample,
    target: SymbolModel,
)
    requires
        builder.current.symbol.offset != 0,
        !lies_in(sample.addr, builder.current.symbol),
        target != symbol_up(builder, builder.stack.len() as int),
        is_call(sample) || (forall|i: int|
            1 <= i <= builder.stack.len() ==> !lies_in(
                sample.addr,
                #[trigger] symbol_up(builder, i),
            )) && !(is_return(sample) && builder.stack.len() == 0),
    ensures
        match turned(builder, metrics, sample, target) {
            Ok(OutcomeModel::Going(after)) => {
                &&& after.stack == builder.stack.push(builder.current)
                &&& after.current.symbol == target
                &&& after.current.start == metrics
                &&& after.current.children.len() == 0
                &&& after.current.pauses.len() == 0
                &&& after.last == metrics
                &&& after.events == builder.events
            },
            Err(Fault::NotMonotonic) => exists|c: Counter|
                reading(metrics, c) < #[trigger] reading(builder.last, c),
            _ => false,
        },
{
    flags_are_bits(sample);
    level_is_innermost(builder, sample.addr);
    if let Some(level) = level_of(builder, sample.addr) {
        assert(builder.frame_symbol(level) == symbol_up(builder, level));
    }
    assert(root_symbol(builder) == symbol_up(builder, builder.stack.len() as int));
    if metrics.ts < builder.last.ts {
        assert(reading(metrics, Counter::Time) < reading(builder.last, Counter::Time));
    } else if metrics.cycles < builder.last.cycles {
        assert(reading(metrics, Counter::Cycles) < reading(builder.last, Counter::Cycles));
    } else if metrics.insn_count < builder.last.insn_count {
        assert(reading(metrics, Counter::Instructions) < reading(
            builder.last,
            Counter::Instructions,
        ));
    }
}

/// A branch, but for a call, that leaves the innermost frame for one higher up the callstack returns
/// there: to the nearest frame in which the address lies. The frames below are done.
pub proof fn returns_go_up(
    builder: BuilderModel,
    metrics: Metrics,
    sample: Sample,
    target: SymbolModel,
    level: int,
)
    requires
        builder.current.symbol.offset != 0 && !lies_in(sample.addr, builder.current.symbol)
            && !is_call(sample) || builder.current.symbol.offset == 0 && target.offset != 0,
        1 <= level <= builder.stack.len(),
        lies_in(sample.addr, symbol_up(builder, level)),
        forall|i: int|
            1 <= i < level ==> !lies_in(sample.addr, #[trigger] symbol_up(builder, i)),
    ensures
        match turned(builder, metrics, sample, target) {
            Ok(OutcomeModel::Going(after)) => went_up(builder, after, level, metrics)
                && after.events == builder.events,
            Ok(OutcomeModel::Done(_)) => false,
            Err(_) => true,
        },
{
    flags_are_bits(sample);
    level_is_innermost(builder, sample.addr);
    assert(builder.frame_symbol(level) == symbol_up(builder, level));
    let found = level_of(builder, sample.addr);
    assert(found is Some) by {
        if found is None {
            assert(!builder.frame_symbol(level).contains(sample.addr));
        }
    }
    let k = found->0;
    if k < level {
        assert(builder.frame_symbol(k) == symbol_up(builder, k));
    } else if level < k {
        assert(!builder.frame_symbol(level).contains(sample.addr));
    }
    returned_goes_up(builder, metrics, level as nat);
    returned_keeps_events(builder, metrics, level as nat);
}

/// A branch out of unknown code to a known function that is nowhere on the callstack ends the
/// unknown frame and the one that it was called from, and calls the function from the next; where
/// there is no next, the recording is done.
pub proof fn unknown_code_is_left_with_its_caller(
    builder: BuilderModel,
    metrics: Metrics,
    sample: Sample,
    target: SymbolModel,
)
    requires
        builder.current.symbol.offset == 0,
        target.offset != 0,
        forall|i: int|
            1 <= i <= builder.stack.len() ==> !lies_in(
                sample.addr,
                #[trigger] symbol_up(builder, i),
            ),
        builder.stack.len() >= 2 ==> target != symbol_up(builder, builder.stack.len() as int),
    ensures
        match turned(builder, metrics, sample, target) {
            Ok(OutcomeModel::Going(after)) => {
                &&& builder.stack.len() >= 2
                &&& after.stack.len() == builder.stack.len() - 1
                &&& after.stack.drop_last() == builder.stack.take(builder.stack.len() - 2)
                &&& after.stack.last().symbol == builder.stack[builder.stack.len() - 2].symbol
                &&& after.stack.last().children.len() == builder.stack[builder.stack.len()
                    - 2].children.len() + 1
                &&& after.current.symbol == target
                &&& after.current.start == metrics
                &&& after.current.children.len() == 0
                &&& after.current.pauses.len() == 0
            },
            Ok(OutcomeModel::Done(trace)) => builder.stack.len() < 2 && trace.root.symbol
                == symbol_up(builder, builder.stack.len() as int),
            Err(_) => true,
        },
{
    level_is_innermost(builder, sample.addr);
    if let Some(level) = level_of(builder, sample.addr) {
        assert(builder.frame_symbol(level) == symbol_up(builder, level));
    }
    returned_goes_up(builder, metrics, 2);
    returned_ends_root(builder, metrics, 2);
    if let Ok(OutcomeModel::Going(outer)) = returned(builder, metrics, 2) {
        assert(root_symbol(outer) == symbol_up(builder, builder.stack.len() as int)) by {
            if outer.stack.len() > 0 {
                assert(outer.stack[0] == builder.stack[0]);
            }
        }
        if let Ok(OutcomeModel::Going(after)) = called(outer, metrics, target) {
            assert(after.stack.drop_last() =~= outer.stack);
        }
    }
}

proof fn returned_ends_root(builder: BuilderModel, end: Metrics, levels: nat)
    ensures
        returned(builder, end, levels) matches Ok(OutcomeModel::Done(trace)) ==> trace.root.symbol
            == symbol_up(builder, builder.stack.len() as int),
    decreases levels,
{
    if levels > 0 && builder.last.le_all(end) && MetricsRange::spans(builder.current.start, end) {
        let bare = FrameModel {
            symbol_idx: builder.current.symbol_idx,
            symbol: builder.current.symbol,
            metrics: MetricsRange::between(builder.current.start, end),
            annotations: None,
            chunks: Seq::empty(),
        };
        with_chunks_keeps_frame(
            bare,
            by_turns(builder.current.children, builder.current.pauses),
        );
        if let Ok(OutcomeModel::Going(outer)) = builder.popped(end, false) {
            returned_ends_root(outer, end, (levels - 1) as nat);
            if builder.stack.len() > 1 {
                assert(outer.stack[0] == builder.stack[0]);
            }
        }
    }
}

/// After a branch into a known function, the address lies in the function of the innermost frame,
/// if the recording goes on.
pub proof fn address_lies_in_innermost(
    builder: BuilderModel,
    metrics: Metrics,
    sample: Sample,
    target: SymbolModel,
)
    requires
        target.offset != 0,
        lies_in(sample.addr, target),
    ensures
        turned(builder, metrics, sample, target) matches Ok(OutcomeModel::Going(after)) ==> lies_in(
            sample.addr,
            after.current.symbol,
        ),
{
    level_is_innermost(builder, sample.addr);
    returned_goes_up(builder, metrics, builder.stack.len() + 1);
    returned_goes_up(builder, metrics, 2);
    if let Some(level) = level_of(builder, sample.addr) {
        returned_goes_up(builder, metrics, level as nat);
    }
    if let Ok(OutcomeModel::Going(outer)) = returned(builder, metrics, 2) {
        returned_goes_up(outer, metrics, outer.stack.len() + 1);
    }
    returned_goes_up(builder, metrics, 1);
}

/// An instruction is out of place if and only if the innermost frame of its thread is known and the
/// instruction lies elsewhere, while the recording is not paused.
pub proof fn instructions_out_of_place(state: StateModel, sample: Sample)
    ensures
        !well_placed(state, sample) <==> state.recordings.contains_key(sample.tid) && {
            let recording = state.recordings[sample.tid];
            let symbol = builder_of(recording).current.symbol;
            recording is InProgress && symbol.offset != 0 && !lies_in(sample.ip, symbol)
        },
{
}

/// A return that leaves the outermost frame, where that is the only one, ends the recording: the
/// trace is a call of that function, up to the branch.
pub proof fn return_from_outermost_ends_recording(
    builder: BuilderModel,
    metrics: Metrics,
    sample: Sample,
    target: SymbolModel,
)
    requires
        builder.stack.len() == 0,
        builder.current.symbol.offset != 0,
        !lies_in(sample.addr, builder.current.symbol),
        is_return(sample),
        !is_call(sample),
    ensures
        match turned(builder, metrics, sample, target) {
            Ok(OutcomeModel::Done(trace)) => {
                &&& trace.root.symbol == builder.current.symbol
                &&& trace.root.metrics.start == builder.current.start
                &&& forall|c: Counter|
                    #[trigger] reading_at_end(trace.root.metrics, c) == reading(metrics, c)
                &&& trace.events == builder.events
                &&& trace.symbols == builder.table
            },
            Ok(OutcomeModel::Going(_)) => false,
            Err(_) => true,
        },
{
    flags_are_bits(sample);
    level_is_innermost(builder, sample.addr);
    returned_goes_up(builder, metrics, 1);
    returned_ends_root(builder, metrics, 1);
    let bare = FrameModel {
        symbol_idx: builder.current.symbol_idx,
        symbol: builder.current.symbol,
        metrics: MetricsRange::between(builder.current.start, metrics),
        annotations: None,
        chunks: Seq::empty(),
    };
    with_chunks_keeps_frame(bare, by_turns(builder.current.children, builder.current.pauses));
    if let Ok(OutcomeModel::Done(trace)) = turned(builder, metrics, sample, target) {
        assert forall|c: Counter| #[trigger] reading_at_end(trace.root.metrics, c) == reading(
            metrics,
            c,
        ) by {}
    }
}

/// The address lies in no frame up the callstack but possibly the innermost.
pub open spec fn lies_nowhere_up(addr: u64, builder: BuilderModel) -> bool {
    forall|i: int|
        1 <= i <= builder.stack.len() ==> !lies_in(addr, #[trigger] symbol_up(builder, i))
}

/// A branch tells of a recording that goes on unannounced if and only if it was paused and tracing
/// does not begin with the branch. It tells that the outermost function is called if and only if it
/// is the target of a branch that is no return: one that leaves a known frame, by a call or to where
/// no frame of the callstack is; or one out of unknown code, if the outermost frame would be left
/// over.
pub proof fn branches_tell_what_they_find(
    state: StateModel,
    sample: Sample,
    target: SymbolModel,
    wanted: bool,
)
    ensures
        branched(state, sample, target, wanted) matches Ok(branch) ==> {
            let recorded = state.recordings.contains_key(sample.tid);
            let recording = state.recordings[sample.tid];
            let builder = builder_of(recording);
            let inner = builder.current.symbol;
            let outermost = symbol_up(builder, builder.stack.len() as int);
            &&& branch.unannounced <==> recorded && recording is Paused && !is_begin(sample)
            &&& branch.root_called <==> {
                &&& recorded
                &&& target == outermost
                &&& if inner.offset == 0 {
                    target.offset != 0 && lies_nowhere_up(sample.addr, builder)
                        && builder.stack.len() >= 2
                } else {
                    !lies_in(sample.addr, inner) && (is_call(sample) || lies_nowhere_up(
                        sample.addr,
                        builder,
                    ) && !(is_return(sample) && builder.stack.len() == 0))
                }
            }
            &&& recorded ==> branch.more && !branch.begun
        },
{
    flags_are_bits(sample);
    if let Ok(branch) = branched(state, sample, target, wanted) {
        if state.recordings.contains_key(sample.tid) {
            let recording = state.recordings[sample.tid];
            let before = builder_of(recording);
            let builder = woken(recording, branch.state.metrics, sample)->Ok_0;
            assert(builder.stack == before.stack);
            assert(builder.current.symbol == before.current.symbol);
            level_is_innermost(builder, sample.addr);
            assert(forall|i: int|
                0 <= i <= builder.stack.len() ==> builder.frame_symbol(i) == #[trigger] symbol_up(
                    before,
                    i,
                ));
            assert(lies_nowhere_up(sample.addr, before) <==> level_of(builder, sample.addr)
                is None) by {
                if let Some(level) = level_of(builder, sample.addr) {
                    assert(builder.frame_symbol(level) == symbol_up(before, level));
                } else {
                    assert forall|i: int| 1 <= i <= before.stack.len() implies !lies_in(
                        sample.addr,
                        #[trigger] symbol_up(before, i),
                    ) by {
                        assert(!builder.frame_symbol(i).contains(sample.addr));
                    }
                }
            }
            assert(root_symbol(builder) == symbol_up(before, before.stack.len() as int));
        }
    }
}

/// The symbol for what isn't known is at zero and no address lies in it.
pub proof fn unknown_code_is_nowhere(addr: u64)
    ensures
        unknown_symbol().offset == 0,
        !unknown_symbol().contains(addr),
{
}

/// Where an open frame started; zero is the innermost, higher levels go outwards.
pub open spec fn start_up(builder: BuilderModel, level: int) -> Metrics {
    if level == 0 {
        builder.current.start
    } else {
        builder.stack[builder.stack.len() - level].start
    }
}

/// The counter goes back from one sample to the other, or grows by more than a range can hold.
pub open spec fn out_of_reach(from: Metrics, to: Metrics, c: Counter) -> bool {
    reading(to, c) < reading(from, c) || reading(to, c) - reading(from, c) > u32::MAX
}

/// Some counter of an open frame is out of reach.
pub open spec fn some_frame_too_long(builder: BuilderModel, end: Metrics) -> bool {
    exists|level: int, c: Counter|
        0 <= level <= builder.stack.len() && #[trigger] out_of_reach(
            start_up(builder, level),
            end,
            c,
        )
}

/// Some counter has gone back since the builder last saw it.
pub open spec fn some_counter_back(builder: BuilderModel, end: Metrics) -> bool {
    exists|c: Counter| reading(end, c) < #[trigger] reading(builder.last, c)
}

proof fn back_in_a_counter(builder: BuilderModel, end: Metrics)
    ensures
        !builder.last.le_all(end) ==> some_counter_back(builder, end),
{
    if end.ts < builder.last.ts {
        assert(reading(end, Counter::Time) < reading(builder.last, Counter::Time));
    } else if end.cycles < builder.last.cycles {
        assert(reading(end, Counter::Cycles) < reading(builder.last, Counter::Cycles));
    } else if end.insn_count < builder.last.insn_count {
        assert(reading(end, Counter::Instructions) < reading(builder.last, Counter::Instructions));
    }
}

proof fn too_long_in_a_counter(builder: BuilderModel, end: Metrics)
    ensures
        !MetricsRange::spans(builder.current.start, end) ==> some_frame_too_long(builder, end),
{
    let start = builder.current.start;
    assert(start == start_up(builder, 0));
    if !MetricsRange::spans(start, end) {
        let c = if end.ts < start.ts || end.ts - start.ts > u32::MAX {
            Counter::Time
        } else if end.cycles < start.cycles || end.cycles - start.cycles > u32::MAX {
            Counter::Cycles
        } else {
            Counter::Instructions
        };
        assert(out_of_reach(start_up(builder, 0), end, c));
    }
}

proof fn too_long_further_in(outer: BuilderModel, builder: BuilderModel, end: Metrics, levels: int)
    requires
        some_frame_too_long(outer, end),
        went_up(builder, outer, levels, end),
    ensures
        some_frame_too_long(builder, end),
{
    let (level, c) = choose|level: int, c: Counter|
        0 <= level <= outer.stack.len() && #[trigger] out_of_reach(start_up(outer, level), end, c);
    assert(start_up(outer, level) == start_up(builder, level + levels));
    assert(out_of_reach(start_up(builder, level + levels), end, c));
}

proof fn returns_fail(builder: BuilderModel, end: Metrics, levels: nat)
    ensures
        match returned(builder, end, levels) {
            Ok(_) | Err(Fault::Unplaced(_)) => true,
            Err(Fault::NotMonotonic) => some_counter_back(builder, end),
            Err(Fault::TooLong) => some_frame_too_long(builder, end),
            Err(Fault::Overflow) => false,
        },
    decreases levels,
{
    back_in_a_counter(builder, end);
    too_long_in_a_counter(builder, end);
    if levels > 0 && builder.last.le_all(end) && MetricsRange::spans(builder.current.start, end) {
        if let Ok(OutcomeModel::Going(outer)) = builder.popped(end, false) {
            returns_fail(outer, end, (levels - 1) as nat);
            popped_goes_up(builder, end);
            if some_counter_back(outer, end) {
                let c = choose|c: Counter| reading(end, c) < #[trigger] reading(outer.last, c);
                assert(outer.last == end);
            }
            if some_frame_too_long(outer, end) {
                too_long_further_in(outer, builder, end, 1);
            }
        }
    }
}

/// A branch in a recording goes wrong only for a reason: that a counter has gone back, that an open
/// frame would be longer than a range can be, or that a call or pause finds no place.
pub proof fn branches_fail_for_a_reason(
    builder: BuilderModel,
    metrics: Metrics,
    sample: Sample,
    target: SymbolModel,
)
    ensures
        match turned(builder, metrics, sample, target) {
            Ok(_) | Err(Fault::Unplaced(_)) => true,
            Err(Fault::NotMonotonic) => some_counter_back(builder, metrics),
            Err(Fault::TooLong) => some_frame_too_long(builder, metrics),
            Err(Fault::Overflow) => false,
        },
{
    back_in_a_counter(builder, metrics);
    match turn(builder, sample, target) {
        Turn::Stay => {},
        Turn::Call => {
            returns_fail(builder, metrics, builder.stack.len() + 1);
        },
        Turn::Return(levels) => {
            returns_fail(builder, metrics, levels as nat);
        },
        Turn::ReturnAndCall => {
            returns_fail(builder, metrics, 2);
            returned_goes_up(builder, metrics, 2);
            if let Ok(OutcomeModel::Going(outer)) = returned(builder, metrics, 2) {
                returns_fail(outer, metrics, outer.stack.len() + 1);
                back_in_a_counter(outer, metrics);
                if some_counter_back(outer, metrics) {
                    let c = choose|c: Counter|
                        reading(metrics, c) < #[trigger] reading(outer.last, c);
                    assert(outer.last == metrics);
                }
                if some_frame_too_long(outer, metrics) {
                    too_long_further_in(outer, builder, metrics, 2);
                }
            }
        },
    }
}

/// In a thread that is not recorded, a branch goes wrong if and only if tracing begins with it and a
/// counter passes its limit. No more samples are wanted if and only if a recording would begin and
/// the limit is used up.
pub proof fn branches_outside_of_recordings(
    state: StateModel,
    sample: Sample,
    target: SymbolModel,
    wanted: bool,
)
    requires
        !state.recordings.contains_key(sample.tid),
    ensures
        match branched(state, sample, target, wanted) {
            Ok(branch) => {
                &&& branch.more <==> !(wanted && target.offset != 0 && state.limit == Some(0u32))
                &&& branch.state.counts == state.counts
                &&& branch.state.pattern == state.pattern
            },
            Err(fault) => fault is Overflow,
        },
        branched(state, sample, target, wanted) is Err <==> is_begin(sample) && (
        state.metrics.insn_count + 1 > u64::MAX || state.metrics.cycles + sample.cyc_cnt
            > u64::MAX),
{
    flags_are_bits(sample);
}

/// A trace that is done is exported and its thread no longer recorded, unless the numbers of traces
/// are used up; while it is not done, it is recorded on and nothing is exported.
pub proof fn done_traces_are_exported(
    state: StateModel,
    sample: Sample,
    target: SymbolModel,
    wanted: bool,
)
    requires
        state.recordings.contains_key(sample.tid),
        !is_begin(sample),
    ensures
        match woken(state.recordings[sample.tid], state.metrics, sample) {
            Ok(builder) => match (
                turned(builder, state.metrics, sample, target),
                branched(state, sample, target, wanted),
            ) {
                (Ok(OutcomeModel::Done(trace)), Ok(branch)) => {
                    &&& branch.export matches Some(export) && export.trace == trace
                    &&& !branch.state.recordings.contains_key(sample.tid)
                    &&& branch.state.limit == state.limit
                },
                (Ok(OutcomeModel::Done(_)), Err(fault)) => fault is Overflow && exported(
                    state.counts,
                    sample.tid,
                ) == u32::MAX,
                (Ok(OutcomeModel::Going(_)), Ok(branch)) => branch.export is None
                    && branch.state.recordings.contains_key(sample.tid),
                (Err(told), Err(fault)) => told == fault,
                _ => false,
            },
            Err(told) => branched(state, sample, target, wanted) == Err::<BranchModel, Fault>(told),
        },
{
    flags_are_bits(sample);
}

/// The first trace of a thread has the number zero.
pub proof fn numbers_start_at_zero(counts: Map<i32, u32>, tid: i32, n: u32)
    ensures
        !counts.contains_key(tid) ==> exported(counts, tid) == 0,
        exported(counts.insert(tid, n), tid) == n,
{
}

/// The events of a recording are told by their names: the first is for errors, the second for
/// interrupts.
pub proof fn events_have_their_names(metrics: Metrics, symbol: SymbolModel)
    ensures
        fresh(metrics, symbol).events[0].name == "Trace Errors"@,
        fresh(metrics, symbol).events[1].name == "Async Interrupts"@,
        fresh(metrics, symbol).events[0].description
            == "Trace decoder hit an error. Callstacks may be corrupted."@,
        fresh(metrics, symbol).events[1].description
            == "Trace was paused while the CPU serviced an asynchronous interrupt."@,
{
}

} // verus!

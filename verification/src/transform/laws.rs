//! What holds of all recordings.
use crate::pattern::regex_matches;
use crate::text::{self, decimal, signed_decimal};
use crate::trace::builder::{self, BuilderModel, OutcomeModel};
use crate::trace::chronology::{self, in_step};
use crate::trace::event::EventModel;
use crate::trace::metrics::{Metrics, MetricsRange};
use crate::trace::symbol::SymbolModel;
use crate::trace::trace_error::{DataCollectionError, TraceInterrupted};
use crate::transform::sample::{counted, Sample, FLAG_TRACE_BEGIN};
use crate::transform::state::{
    branched, exported, file_name, fresh, settled, woken, RecordingModel, StateModel,
};
use crate::transform::turn::{
    called, level_is_innermost, returned, root_called, root_symbol, turn, turned, Turn,
};
use vstd::prelude::*;

verus! {

/// The builder of a recording.
pub open spec fn builder_of(recording: RecordingModel) -> BuilderModel {
    match recording {
        RecordingModel::InProgress(builder) => builder,
        RecordingModel::Paused(paused) => paused.inner,
    }
}

/// No frame but the innermost is unknown.
pub open spec fn known_below(builder: BuilderModel) -> bool {
    forall|i: int| 0 <= i < builder.stack.len() ==> (#[trigger] builder.stack[i]).symbol.offset != 0
}

/// In no recording is a frame unknown but for the innermost.
pub open spec fn all_known_below(state: StateModel) -> bool {
    forall|tid: i32|
        state.recordings.contains_key(tid) ==> known_below(
            builder_of(#[trigger] state.recordings[tid]),
        )
}

proof fn returned_known_below(builder: BuilderModel, end: Metrics, levels: nat)
    requires
        known_below(builder),
    ensures
        returned(builder, end, levels) matches Ok(OutcomeModel::Going(after)) ==> known_below(after)
            && (levels > 0 ==> after.current.symbol.offset != 0),
    decreases levels,
{
    if levels > 0 && builder.last.le_all(end) && MetricsRange::spans(builder.current.start, end) {
        if let Ok(OutcomeModel::Going(outer)) = builder.popped(end, false) {
            assert(outer.current.symbol == builder.stack[builder.stack.len() - 1].symbol);
            assert(known_below(outer)) by {
                assert forall|i: int| 0 <= i < outer.stack.len() implies (
                #[trigger] outer.stack[i]).symbol.offset != 0 by {
                    assert(outer.stack[i] == builder.stack[i]);
                }
            }
            returned_known_below(outer, end, (levels - 1) as nat);
        }
    }
}

proof fn called_known_below(builder: BuilderModel, metrics: Metrics, target: SymbolModel)
    requires
        known_below(builder),
        builder.current.symbol.offset != 0,
    ensures
        called(builder, metrics, target) matches Ok(OutcomeModel::Going(after)) ==> known_below(
            after,
        ),
{
    returned_known_below(builder, metrics, builder.stack.len() + 1);
    let after = builder.pushed(metrics, target);
    assert(known_below(after)) by {
        assert forall|i: int| 0 <= i < after.stack.len() implies (
        #[trigger] after.stack[i]).symbol.offset != 0 by {
            if i < builder.stack.len() {
                assert(after.stack[i] == builder.stack[i]);
            }
        }
    }
}

/// At most there is a single unknown frame, and it is the innermost: a branch keeps to that.
pub proof fn branch_keeps_known_below(
    state: StateModel,
    sample: Sample,
    target: SymbolModel,
    wanted: bool,
)
    requires
        all_known_below(state),
    ensures
        branched(state, sample, target, wanted) matches Ok(branch) ==> all_known_below(
            branch.state,
        ),
{
    if let Ok(branch) = branched(state, sample, target, wanted) {
        let tid = sample.tid;
        let metrics = branch.state.metrics;
        if state.recordings.contains_key(tid) {
            let recording = state.recordings[tid];
            let builder = woken(recording, metrics, sample)->Ok_0;
            assert(builder.stack == builder_of(recording).stack);
            assert(known_below(builder));
            match turn(builder, sample, target) {
                Turn::Stay => {},
                Turn::Call => {
                    called_known_below(builder, metrics, target);
                },
                Turn::Return(levels) => {
                    returned_known_below(builder, metrics, levels as nat);
                },
                Turn::ReturnAndCall => {
                    returned_known_below(builder, metrics, 2);
                    if let Ok(OutcomeModel::Going(outer)) = returned(builder, metrics, 2) {
                        called_known_below(outer, metrics, target);
                    }
                },
            }
            if let Ok(OutcomeModel::Going(after)) = turned(builder, metrics, sample, target) {
                let kept = builder_of(settled(after, metrics, sample));
                assert(kept.stack == after.stack);
                assert(known_below(kept));
            }
        }
        assert forall|other: i32| branch.state.recordings.contains_key(other) implies known_below(
            builder_of(#[trigger] branch.state.recordings[other]),
        ) by {
            if other != tid {
                assert(branch.state.recordings[other] == state.recordings[other]);
            }
        }
    }
}

/// A branch leaves the recordings and the counts of all other threads as they are.
pub proof fn branch_keeps_other_threads(
    state: StateModel,
    sample: Sample,
    target: SymbolModel,
    wanted: bool,
    other: i32,
)
    requires
        other != sample.tid,
    ensures
        branched(state, sample, target, wanted) matches Ok(branch) ==> {
            &&& branch.state.recordings.contains_key(other) == state.recordings.contains_key(other)
            &&& state.recordings.contains_key(other) ==> branch.state.recordings[other]
                == state.recordings[other]
            &&& branch.state.counts.contains_key(other) == state.counts.contains_key(other)
            &&& state.counts.contains_key(other) ==> branch.state.counts[other]
                == state.counts[other]
        },
{
}

/// Each recording that begins takes one from the limit, nothing else does, and none begins once
/// the limit is used up.
pub proof fn limit_counts_recordings(
    state: StateModel,
    sample: Sample,
    target: SymbolModel,
    wanted: bool,
)
    ensures
        branched(state, sample, target, wanted) matches Ok(branch) ==> {
            let begins = !state.recordings.contains_key(sample.tid)
                && branch.state.recordings.contains_key(sample.tid);
            &&& branch.state.limit == match state.limit {
                Some(limit) => Some(
                    if begins {
                        (limit - 1) as u32
                    } else {
                        limit
                    },
                ),
                None => None::<u32>,
            }
            &&& begins == branch.begun
            &&& begins ==> state.limit != Some(0u32) && target.offset != 0 && wanted
            &&& !branch.more ==> state.limit == Some(0u32) && !begins
        },
{
}

/// The events of a recording have been declared: errors, then interrupts.
pub open spec fn events_declared(events: Seq<EventModel>) -> bool {
    events.len() == 2 && events[0].id == DataCollectionError::ID && events[1].id
        == TraceInterrupted::ID
}

/// In all recordings the events have been declared.
pub open spec fn all_declared(state: StateModel) -> bool {
    forall|tid: i32|
        state.recordings.contains_key(tid) ==> events_declared(
            builder_of(#[trigger] state.recordings[tid]).events,
        )
}

pub proof fn returned_keeps_events(builder: BuilderModel, end: Metrics, levels: nat)
    ensures
        match returned(builder, end, levels) {
            Ok(OutcomeModel::Going(after)) => after.events == builder.events,
            Ok(OutcomeModel::Done(trace)) => trace.events == builder.events,
            Err(_) => true,
        },
    decreases levels,
{
    if levels > 0 && builder.last.le_all(end) && MetricsRange::spans(builder.current.start, end) {
        if let Ok(OutcomeModel::Going(outer)) = builder.popped(end, false) {
            returned_keeps_events(outer, end, (levels - 1) as nat);
        }
    }
}

/// Every trace that is exported has both events, whether or not they occured.
pub proof fn exports_have_events(
    state: StateModel,
    sample: Sample,
    target: SymbolModel,
    wanted: bool,
)
    requires
        all_declared(state),
    ensures
        branched(state, sample, target, wanted) matches Ok(branch) ==> {
            &&& all_declared(branch.state)
            &&& branch.export matches Some(export) ==> events_declared(export.trace.events)
        },
{
    if let Ok(branch) = branched(state, sample, target, wanted) {
        let tid = sample.tid;
        let metrics = branch.state.metrics;
        if state.recordings.contains_key(tid) {
            let recording = state.recordings[tid];
            let builder = woken(recording, metrics, sample)->Ok_0;
            assert(events_declared(builder_of(recording).events));
            assert(events_declared(builder.events));
            returned_keeps_events(builder, metrics, builder.stack.len() + 1);
            returned_keeps_events(builder, metrics, 2);
            if let Ok(OutcomeModel::Going(outer)) = returned(builder, metrics, 2) {
                returned_keeps_events(outer, metrics, outer.stack.len() + 1);
            }
            if let Turn::Return(levels) = turn(builder, sample, target) {
                returned_keeps_events(builder, metrics, levels as nat);
            }
            if let Ok(OutcomeModel::Going(after)) = turned(builder, metrics, sample, target) {
                assert(after.events == builder.events);
                assert(events_declared(builder_of(settled(after, metrics, sample)).events));
            }
        }
        assert forall|other: i32| branch.state.recordings.contains_key(other) implies events_declared(
            builder_of(#[trigger] branch.state.recordings[other]).events,
        ) by {
            if other != tid {
                assert(branch.state.recordings[other] == state.recordings[other]);
            }
        }
    }
}

/// The recording has kept to the order of time, up to the given metrics.
pub open spec fn recording_in_step(recording: RecordingModel, upto: Metrics) -> bool {
    match recording {
        RecordingModel::InProgress(builder) => in_step(builder) && builder.last.le_all(upto),
        RecordingModel::Paused(paused) => in_step(paused.inner) && paused.inner.last.le_all(
            paused.start,
        ) && paused.start.le_all(upto),
    }
}

/// All recordings have kept to the order of time.
pub open spec fn all_in_step(state: StateModel) -> bool {
    forall|tid: i32|
        state.recordings.contains_key(tid) ==> recording_in_step(
            #[trigger] state.recordings[tid],
            state.metrics,
        )
}

proof fn in_step_events(builder: BuilderModel, events: Seq<EventModel>)
    requires
        in_step(builder),
    ensures
        in_step(BuilderModel { events, ..builder }),
{
    let after = BuilderModel { events, ..builder };
    assert forall|i: int| 0 <= i < after.stack.len() implies chronology::chronological(
        #[trigger] after.stack[i],
        chronology::next_start(after, i),
    ) by {
        assert(after.stack[i] == builder.stack[i]);
        assert(chronology::next_start(after, i) == chronology::next_start(builder, i));
    }
}

proof fn returned_in_step(builder: BuilderModel, end: Metrics, levels: nat)
    requires
        in_step(builder),
        builder.last.le_all(end),
    ensures
        match returned(builder, end, levels) {
            Ok(OutcomeModel::Going(after)) => in_step(after) && after.last.le_all(end),
            Ok(OutcomeModel::Done(trace)) => trace.root.deeply_ordered(),
            Err(fault) => fault is TooLong,
        },
    decreases levels,
{
    if levels > 0 && MetricsRange::spans(builder.current.start, end) {
        chronology::return_keeps_step(builder, end, false);
        if let Ok(OutcomeModel::Going(outer)) = builder.popped(end, false) {
            returned_in_step(outer, end, (levels - 1) as nat);
        }
    }
}

proof fn called_in_step(builder: BuilderModel, metrics: Metrics, target: SymbolModel)
    requires
        in_step(builder),
        builder.last.le_all(metrics),
    ensures
        match called(builder, metrics, target) {
            Ok(OutcomeModel::Going(after)) => in_step(after) && after.last.le_all(metrics),
            Ok(OutcomeModel::Done(trace)) => trace.root.deeply_ordered(),
            Err(fault) => fault is TooLong,
        },
{
    returned_in_step(builder, metrics, builder.stack.len() + 1);
    chronology::call_keeps_step(builder, metrics, target);
}

proof fn turned_in_step(builder: BuilderModel, metrics: Metrics, sample: Sample, target: SymbolModel)
    requires
        in_step(builder),
        builder.last.le_all(metrics),
    ensures
        match turned(builder, metrics, sample, target) {
            Ok(OutcomeModel::Going(after)) => in_step(after) && after.last.le_all(metrics),
            Ok(OutcomeModel::Done(trace)) => trace.root.deeply_ordered(),
            Err(fault) => fault is TooLong,
        },
{
    match turn(builder, sample, target) {
        Turn::Stay => {},
        Turn::Call => {
            called_in_step(builder, metrics, target);
        },
        Turn::Return(levels) => {
            returned_in_step(builder, metrics, levels as nat);
        },
        Turn::ReturnAndCall => {
            returned_in_step(builder, metrics, 2);
            if let Ok(OutcomeModel::Going(outer)) = returned(builder, metrics, 2) {
                called_in_step(outer, metrics, target);
            }
        },
    }
}

/// A function that is recorded: its symbol is known, and its name matches the pattern.
pub open spec fn recordable(pattern: Seq<char>, symbol: SymbolModel) -> bool {
    symbol.offset != 0 && regex_matches(pattern, symbol.name)
}

/// The outermost function of every recording is one that is recorded.
pub open spec fn all_wanted(state: StateModel) -> bool {
    forall|tid: i32|
        state.recordings.contains_key(tid) ==> recordable(
            state.pattern,
            root_symbol(builder_of(#[trigger] state.recordings[tid])),
        )
}

proof fn returned_keeps_root(builder: BuilderModel, end: Metrics, levels: nat)
    ensures
        match returned(builder, end, levels) {
            Ok(OutcomeModel::Going(after)) => {
                &&& levels <= builder.stack.len()
                &&& after.stack.len() == builder.stack.len() - levels
                &&& root_symbol(after) == root_symbol(builder)
            },
            Ok(OutcomeModel::Done(trace)) => {
                &&& levels > builder.stack.len()
                &&& trace.root.symbol == root_symbol(builder)
            },
            Err(_) => true,
        },
    decreases levels,
{
    if levels > 0 && builder.last.le_all(end) && MetricsRange::spans(builder.current.start, end) {
        builder::completed_keeps_symbol(builder.current, end);
        if let Ok(OutcomeModel::Going(outer)) = builder.popped(end, false) {
            assert(root_symbol(outer) == root_symbol(builder));
            returned_keeps_root(outer, end, (levels - 1) as nat);
        }
    }
}

proof fn turned_keeps_root(
    builder: BuilderModel,
    metrics: Metrics,
    sample: Sample,
    target: SymbolModel,
)
    ensures
        match turned(builder, metrics, sample, target) {
            Ok(OutcomeModel::Going(after)) => {
                &&& root_symbol(after) == root_symbol(builder)
                &&& !root_called(builder, sample, target)
            },
            Ok(OutcomeModel::Done(trace)) => trace.root.symbol == root_symbol(builder),
            Err(_) => true,
        },
{
    returned_keeps_root(builder, metrics, builder.stack.len() + 1);
    match turn(builder, sample, target) {
        Turn::Stay => {},
        Turn::Call => {
            assert(root_symbol(builder.pushed(metrics, target)) == root_symbol(builder));
        },
        Turn::Return(levels) => {
            returned_keeps_root(builder, metrics, levels as nat);
        },
        Turn::ReturnAndCall => {
            returned_keeps_root(builder, metrics, 2);
            if let Ok(OutcomeModel::Going(outer)) = returned(builder, metrics, 2) {
                returned_keeps_root(outer, metrics, outer.stack.len() + 1);
                assert(root_symbol(outer.pushed(metrics, target)) == root_symbol(outer));
            }
        },
    }
}

/// Only functions whose names match the pattern are recorded, each with all that it calls: the
/// outermost function of every recording matches, and so does that of every trace that is exported.
pub proof fn recordings_match_pattern(state: StateModel, sample: Sample, target: SymbolModel)
    requires
        all_wanted(state),
    ensures
        branched(state, sample, target, regex_matches(state.pattern, target.name)) matches Ok(
            branch,
        ) ==> {
            &&& branch.state.pattern == state.pattern
            &&& all_wanted(branch.state)
            &&& branch.export matches Some(export) ==> recordable(
                state.pattern,
                export.trace.root.symbol,
            )
        },
{
    if let Ok(branch) = branched(
        state,
        sample,
        target,
        regex_matches(state.pattern, target.name),
    ) {
        let tid = sample.tid;
        let metrics = branch.state.metrics;
        if state.recordings.contains_key(tid) {
            let recording = state.recordings[tid];
            let builder = woken(recording, metrics, sample)->Ok_0;
            assert(root_symbol(builder) == root_symbol(builder_of(recording)));
            turned_keeps_root(builder, metrics, sample, target);
            if let Ok(OutcomeModel::Going(after)) = turned(builder, metrics, sample, target) {
                let kept = builder_of(settled(after, metrics, sample));
                assert(root_symbol(kept) == root_symbol(after));
            }
        }
        assert forall|other: i32| branch.state.recordings.contains_key(other) implies recordable(
            branch.state.pattern,
            root_symbol(builder_of(#[trigger] branch.state.recordings[other])),
        ) by {
            if other != tid {
                assert(branch.state.recordings[other] == state.recordings[other]);
            }
        }
    }
}

/// A call of the outermost function ends the recording.
pub proof fn root_call_ends_recording(
    state: StateModel,
    sample: Sample,
    target: SymbolModel,
    wanted: bool,
)
    ensures
        branched(state, sample, target, wanted) matches Ok(branch) ==> branch.root_called ==> {
            &&& branch.export is Some
            &&& !branch.state.recordings.contains_key(sample.tid)
        },
{
    if let Ok(branch) = branched(state, sample, target, wanted) {
        if state.recordings.contains_key(sample.tid) {
            let metrics = branch.state.metrics;
            let builder = woken(state.recordings[sample.tid], metrics, sample)->Ok_0;
            turned_keeps_root(builder, metrics, sample, target);
        }
    }
}

/// A branch never returns from more frames than there are.
pub proof fn returns_end_with_recording(builder: BuilderModel, sample: Sample, target: SymbolModel)
    requires
        root_symbol(builder).offset != 0,
    ensures
        match turn(builder, sample, target) {
            Turn::Return(levels) => 1 <= levels <= builder.stack.len() + 1,
            Turn::ReturnAndCall => 2 <= builder.stack.len() + 1,
            Turn::Stay | Turn::Call => true,
        },
{
    level_is_innermost(builder, sample.addr);
}

/// Where nothing is recorded yet, all of that holds.
pub proof fn nothing_recorded_yet(state: StateModel)
    requires
        state.recordings == Map::<i32, RecordingModel>::empty(),
    ensures
        all_known_below(state),
        all_declared(state),
        all_in_step(state),
        all_wanted(state),
{
}

/// An instruction leaves all recordings in step, if time does not go back.
pub proof fn instruction_keeps_step(state: StateModel, sample: Sample)
    requires
        all_in_step(state),
        state.metrics.ts <= sample.time,
    ensures
        counted(state.metrics, sample) matches Some(metrics) ==> all_in_step(
            StateModel { metrics, ..state },
        ),
{
    if let Some(metrics) = counted(state.metrics, sample) {
        let after = StateModel { metrics, ..state };
        assert forall|tid: i32| after.recordings.contains_key(tid) implies recording_in_step(
            #[trigger] after.recordings[tid],
            metrics,
        ) by {
            assert(recording_in_step(state.recordings[tid], state.metrics));
        }
    }
}

/// If time does not go back, a branch leaves all recordings in step. No call or pause then fails to
/// find a place in its frame: all that can go wrong is that a counter or a range passes its limit.
/// The trace that is exported is ordered throughout.
pub proof fn branch_keeps_step(
    state: StateModel,
    sample: Sample,
    target: SymbolModel,
    wanted: bool,
)
    requires
        all_in_step(state),
        state.metrics.ts <= sample.time,
    ensures
        match branched(state, sample, target, wanted) {
            Ok(branch) => {
                &&& all_in_step(branch.state)
                &&& branch.export matches Some(export) ==> export.trace.root.deeply_ordered()
            },
            Err(fault) => fault is Overflow || fault is TooLong,
        },
{
    let begins = sample.flagged(FLAG_TRACE_BEGIN);
    if begins {
        instruction_keeps_step(state, sample);
    }
    let counted_now = if begins {
        counted(state.metrics, sample)
    } else {
        Some(state.metrics)
    };
    if let Some(metrics) = counted_now {
        let start = StateModel { metrics, ..state };
        assert(all_in_step(start)) by {
            if !begins {
                assert(start == state);
            }
        }
        let tid = sample.tid;
        if start.recordings.contains_key(tid) {
            let recording = start.recordings[tid];
            assert(recording_in_step(recording, metrics));
            match recording {
                RecordingModel::InProgress(builder) => {
                    if begins {
                        in_step_events(builder, woken(recording, metrics, sample)->Ok_0.events);
                    }
                },
                RecordingModel::Paused(paused) => {
                    if MetricsRange::spans(paused.start, metrics) {
                        chronology::pause_keeps_step(paused.inner, paused.start, metrics);
                    }
                },
            }
            if let Ok(builder) = woken(recording, metrics, sample) {
                turned_in_step(builder, metrics, sample, target);
                if let Ok(OutcomeModel::Going(after)) = turned(builder, metrics, sample, target) {
                    let kept = settled(after, metrics, sample);
                    in_step_events(after, builder_of(kept).events);
                    assert(recording_in_step(kept, metrics));
                }
            }
        } else if target.offset != 0 && wanted && start.limit != Some(0u32) {
            chronology::begins_in_step(fresh(metrics, target), target);
        }
        if let Ok(branch) = branched(state, sample, target, wanted) {
            assert(branch.state.metrics == metrics);
            assert forall|other: i32|
                branch.state.recordings.contains_key(other) implies recording_in_step(
                #[trigger] branch.state.recordings[other],
                metrics,
            ) by {
                if other != tid {
                    assert(branch.state.recordings[other] == start.recordings[other]);
                }
            }
        }
    }
}

/// The traces of a thread are numbered one after the other, and so are the files they go to.
pub proof fn exports_are_numbered(
    state: StateModel,
    sample: Sample,
    target: SymbolModel,
    wanted: bool,
)
    ensures
        branched(state, sample, target, wanted) matches Ok(branch) ==> {
            let n = exported(state.counts, sample.tid);
            match branch.export {
                Some(export) => {
                    &&& export.file_name == file_name(sample.tid, n)
                    &&& exported(branch.state.counts, sample.tid) == n + 1
                },
                None => branch.state.counts == state.counts,
            }
        },
{
}

/// Traces of different threads, and different traces of a thread, go to different files.
pub proof fn file_names_differ(tid: i32, n: u32, other_tid: i32, other_n: u32)
    requires
        file_name(tid, n) == file_name(other_tid, other_n),
    ensures
        tid == other_tid,
        n == other_n,
{
    reveal_strlit("trace-");
    reveal_strlit("-");
    reveal_strlit(".flex.gz");
    let a = signed_decimal(tid as int);
    let b = signed_decimal(other_tid as int);
    let c = decimal(n as nat);
    let d = decimal(other_n as nat);
    let name = file_name(tid, n);
    text::decimal_digits(n as nat);
    text::decimal_digits(other_n as nat);
    let stem = name.subrange(6, name.len() - 8);
    assert(stem =~= a + "-"@ + c);
    assert(stem =~= b + "-"@ + d);
    // the last hyphen of the stem stands before the number
    if a.len() < b.len() {
        assert(stem[b.len() as int] == '-');
        assert(stem[b.len() as int] == c[b.len() - a.len() - 1]);
    } else if b.len() < a.len() {
        assert(stem[a.len() as int] == '-');
        assert(stem[a.len() as int] == d[a.len() - b.len() - 1]);
    }
    assert(a =~= stem.take(a.len() as int));
    assert(b =~= stem.take(b.len() as int));
    assert(c =~= stem.skip(a.len() as int + 1));
    assert(d =~= stem.skip(b.len() as int + 1));
    text::decimal_tells_apart(n as nat, other_n as nat);
    text::signed_decimal_tells_apart(tid as int, other_tid as int);
}

} // verus!

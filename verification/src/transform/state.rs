//! Recordings of all threads.
use crate::pattern::{self, regex_fault, regex_matches, regex_source};
use crate::text::{self, number, signed_decimal, decimal, NumberFault};
use crate::trace::builder::{
    begun, with_occurence, BuilderModel, BuilderResult, OutcomeModel, PausedModel,
    PausedTraceBuilder, TraceBuilder,
};
use crate::trace::event::EventModel;
use crate::trace::frame::indexed_by;
use crate::trace::metrics::{Metrics, MetricsRange};
use crate::trace::record::{Trace, TraceModel};
use crate::trace::symbol::{SymbolInfo, SymbolModel};
use crate::trace::trace_error::{DataCollectionError, TraceInterrupted};
use crate::transform::sample::{
    self, count_instruction, counted, unknown_symbol, Sample, FLAG_ASYNC, FLAG_TRACE_BEGIN,
    FLAG_TRACE_END,
};
use crate::transform::turn::{self, root_called, turned, Fault};
use regex::Regex;
use std::collections::HashMap;
use vstd::prelude::*;

verus! {

/// The recording of a thread.
enum BuilderState {
    InProgress(TraceBuilder),
    Paused(PausedTraceBuilder),
}

pub enum RecordingModel {
    InProgress(BuilderModel),
    Paused(PausedModel),
}

impl BuilderState {
    spec fn model(self) -> RecordingModel {
        match self {
            BuilderState::InProgress(builder) => RecordingModel::InProgress(builder@),
            BuilderState::Paused(paused) => RecordingModel::Paused(paused@),
        }
    }

    spec fn wf(self) -> bool {
        match self {
            BuilderState::InProgress(builder) => builder.wf(),
            BuilderState::Paused(paused) => paused.wf(),
        }
    }
}

#[verifier::ext_equal]
pub struct StateModel {
    /// The functions that are recorded: those whose names match.
    pub pattern: Seq<char>,
    /// How many more traces may be recorded.
    pub limit: Option<u32>,
    /// How many traces have been exported for each thread.
    pub counts: Map<i32, u32>,
    pub recordings: Map<i32, RecordingModel>,
    pub metrics: Metrics,
}

/// A trace that is done, with the name of the file that it goes to.
pub struct Export {
    pub file_name: String,
    pub trace: Trace,
}

#[verifier::ext_equal]
pub struct ExportModel {
    pub file_name: Seq<char>,
    pub trace: TraceModel,
}

impl Export {
    pub open spec fn view(&self) -> ExportModel {
        ExportModel { file_name: self.file_name@, trace: self.trace@ }
    }
}

/// The name of the file for a trace: `trace-<tid>-<n>.flex.gz`.
pub open spec fn file_name(tid: i32, n: u32) -> Seq<char> {
    "trace-"@ + signed_decimal(tid as int) + "-"@ + decimal(n as nat) + ".flex.gz"@
}

/// How many traces have been exported for a thread.
pub open spec fn exported(counts: Map<i32, u32>, tid: i32) -> u32 {
    if counts.contains_key(tid) {
        counts[tid]
    } else {
        0
    }
}

/// A recording that has just begun, with its events declared.
pub open spec fn fresh(metrics: Metrics, symbol: SymbolModel) -> BuilderModel {
    BuilderModel {
        last: metrics,
        table: seq![symbol],
        current: begun(metrics, 0, symbol),
        stack: Seq::empty(),
        events: seq![
            EventModel {
                id: DataCollectionError::ID,
                occurences: Seq::empty(),
                name: DataCollectionError::NAME@,
                description: DataCollectionError::DESC@,
            },
            EventModel {
                id: TraceInterrupted::ID,
                occurences: Seq::empty(),
                name: TraceInterrupted::NAME@,
                description: TraceInterrupted::DESC@,
            },
        ],
    }
}

/// The recording of a thread as a branch finds it.
///
/// A pause is over. If tracing begins though it did not end, that is an error in the trace.
pub open spec fn woken(recording: RecordingModel, metrics: Metrics, sample: Sample) -> Result<
    BuilderModel,
    Fault,
> {
    match recording {
        RecordingModel::InProgress(builder) => if sample.flagged(FLAG_TRACE_BEGIN) {
            Ok(
                BuilderModel {
                    events: with_occurence(builder.events, DataCollectionError::ID, metrics),
                    ..builder
                },
            )
        } else {
            Ok(builder)
        },
        RecordingModel::Paused(paused) => if !paused.inner.last.le_all(metrics) {
            Err(Fault::NotMonotonic)
        } else if !MetricsRange::spans(paused.start, metrics) {
            Err(Fault::TooLong)
        } else {
            Ok(paused.inner.resumed(paused.start, metrics))
        },
    }
}

/// The recording of a thread as a branch leaves it: where tracing ends, it pauses.
pub open spec fn settled(builder: BuilderModel, metrics: Metrics, sample: Sample) -> RecordingModel {
    if sample.flagged(FLAG_TRACE_END) {
        RecordingModel::Paused(
            PausedModel {
                inner: if sample.flagged(FLAG_ASYNC) {
                    BuilderModel {
                        events: with_occurence(builder.events, TraceInterrupted::ID, metrics),
                        ..builder
                    }
                } else {
                    builder
                },
                start: metrics,
            },
        )
    } else {
        RecordingModel::InProgress(builder)
    }
}

/// What comes of a branch: the state after it, and what is said of it.
#[verifier::ext_equal]
pub struct BranchModel {
    pub state: StateModel,
    /// A trace that is done.
    pub export: Option<ExportModel>,
    /// Whether more samples are wanted.
    pub more: bool,
    /// A recording begins.
    pub begun: bool,
    /// The recording was paused, and goes on though tracing does not begin here.
    pub unannounced: bool,
    /// The outermost function is called, by which the recording is done.
    pub root_called: bool,
}

/// The recording is paused, and tracing does not begin with the sample.
pub open spec fn unannounced(recording: RecordingModel, sample: Sample) -> bool {
    recording is Paused && !sample.flagged(FLAG_TRACE_BEGIN)
}

/// A branch in a thread that is being recorded.
pub open spec fn branch_on(
    state: StateModel,
    recording: RecordingModel,
    sample: Sample,
    target: SymbolModel,
) -> Result<BranchModel, Fault> {
    let tid = sample.tid;
    let n = exported(state.counts, tid);
    match woken(recording, state.metrics, sample) {
        Ok(builder) => match turned(builder, state.metrics, sample, target) {
            Ok(OutcomeModel::Going(after)) => Ok(
                BranchModel {
                    state: StateModel {
                        recordings: state.recordings.insert(
                            tid,
                            settled(after, state.metrics, sample),
                        ),
                        ..state
                    },
                    export: None,
                    more: true,
                    begun: false,
                    unannounced: unannounced(recording, sample),
                    root_called: root_called(builder, sample, target),
                },
            ),
            Ok(OutcomeModel::Done(trace)) => if n == u32::MAX {
                Err(Fault::Overflow)
            } else {
                Ok(
                    BranchModel {
                        state: StateModel {
                            recordings: state.recordings.remove(tid),
                            counts: state.counts.insert(tid, (n + 1) as u32),
                            ..state
                        },
                        export: Some(ExportModel { file_name: file_name(tid, n), trace }),
                        more: true,
                        begun: false,
                        unannounced: unannounced(recording, sample),
                        root_called: root_called(builder, sample, target),
                    },
                )
            },
            Err(fault) => Err(fault),
        },
        Err(fault) => Err(fault),
    }
}

/// A branch in a thread that is not being recorded: a recording begins if the target is wanted.
/// Once the limit is reached, no more samples are wanted.
pub open spec fn branch_off(state: StateModel, sample: Sample, target: SymbolModel, wanted: bool) -> BranchModel {
    let matched = target.offset != 0 && wanted;
    let begun = matched && state.limit != Some(0u32);
    BranchModel {
        state: if begun {
            StateModel {
                limit: match state.limit {
                    Some(limit) => Some((limit - 1) as u32),
                    None => None,
                },
                recordings: state.recordings.insert(
                    sample.tid,
                    RecordingModel::InProgress(fresh(state.metrics, target)),
                ),
                ..state
            }
        } else {
            state
        },
        export: None,
        more: begun || !matched,
        begun,
        unannounced: false,
        root_called: false,
    }
}

/// What comes of a branch. The target is wanted if its name matches.
///
/// Where tracing begins, no instruction comes before the branch, so that it counts as one.
pub open spec fn branched(state: StateModel, sample: Sample, target: SymbolModel, wanted: bool) -> Result<
    BranchModel,
    Fault,
> {
    let metrics = if sample.flagged(FLAG_TRACE_BEGIN) {
        counted(state.metrics, sample)
    } else {
        Some(state.metrics)
    };
    match metrics {
        None => Err(Fault::Overflow),
        Some(metrics) => {
            let state = StateModel { metrics, ..state };
            if state.recordings.contains_key(sample.tid) {
                branch_on(state, state.recordings[sample.tid], sample, target)
            } else {
                Ok(branch_off(state, sample, target, wanted))
            }
        },
    }
}

/// Recordings of all threads, and what they need.
pub struct State {
    sym_regex: Regex,
    output_dir: String,
    traces_limit: Option<u32>,
    trace_nums: HashMap<i32, u32>,
    builders: HashMap<i32, BuilderState>,
    cur_metrics: Metrics,
}

/// What is wrong with arguments.
pub enum ArgumentFault {
    /// There are neither two nor three.
    Count,
    /// The third is no number.
    Limit(NumberFault),
    /// The first is no regular expression; the text says why.
    Regex(String),
}

/// What comes of a branch.
pub struct Branch {
    /// A trace that is done.
    pub export: Option<Export>,
    /// Whether more samples are wanted.
    pub more: bool,
    /// Whether a recording begins.
    pub begun: bool,
    /// Whether a paused recording goes on though tracing does not begin here.
    pub unannounced: bool,
    /// Whether the outermost function is called: its end has likely been missed.
    pub root_called: bool,
}

/// What comes of an event.
pub struct Reply {
    /// The code for the profiler.
    pub code: i32,
    /// Whether an instruction lies where it should.
    pub placed: bool,
    /// What comes of a branch.
    pub branch: Option<Branch>,
}

impl State {
    pub closed spec fn view(&self) -> StateModel {
        StateModel {
            pattern: regex_source(self.sym_regex),
            limit: self.traces_limit,
            counts: self.trace_nums@,
            recordings: self.builders@.map_values(|builder: BuilderState| builder.model()),
            metrics: self.cur_metrics,
        }
    }

    pub closed spec fn spec_output_dir(&self) -> Seq<char> {
        self.output_dir@
    }

    pub closed spec fn wf(&self) -> bool {
        forall|tid: i32|
            self.builders@.contains_key(tid) ==> (#[trigger] self.builders@[tid]).wf()
    }

    pub fn new(sym_regex: Regex, output_dir: String, traces_limit: Option<u32>) -> (result: Self)
        ensures
            result.wf(),
            result.spec_output_dir() == output_dir@,
            result@ == (StateModel {
                pattern: regex_source(sym_regex),
                limit: traces_limit,
                counts: Map::empty(),
                recordings: Map::empty(),
                metrics: Metrics::every(0),
            }),
    {
        let result = State {
            sym_regex,
            output_dir,
            traces_limit,
            trace_nums: HashMap::new(),
            builders: HashMap::new(),
            cur_metrics: Metrics::constant(0),
        };
        assert(result@.recordings =~= Map::empty());
        result
    }

    /// The directory that traces go to.
    pub fn output_dir(&self) -> (result: &String)
        ensures
            result@ == self.spec_output_dir(),
    {
        &self.output_dir
    }

    /// The symbol of the current frame of a thread that is being recorded, and is not paused.
    pub fn current_symbol(&self, tid: i32) -> (result: Option<&SymbolInfo>)
        ensures
            match result {
                Some(symbol) => current_symbol(self@, tid) == Some(symbol@),
                None => current_symbol(self@, tid) is None,
            },
    {
        broadcast use vstd::std_specs::hash::group_hash_axioms;

        match self.builders.get(&tid) {
            Some(BuilderState::InProgress(builder)) => Some(builder.get_frame_symbol(0)),
            _ => None,
        }
    }

    /// Each branch instruction is processed first as an instruction, then as a branch. So it is
    /// counted for the parent, and the cycles are up to date at the branch.
    ///
    /// The result is whether the instruction lies where it should: not outside of the current
    /// frame of its thread, if that is known.
    pub fn process_insn_event(&mut self, sample: &Sample) -> (result: Result<bool, Fault>)
        requires
            old(self).wf(),
        ensures
            final(self).wf(),
            final(self).spec_output_dir() == old(self).spec_output_dir(),
            match (result, counted(old(self)@.metrics, *sample)) {
                (Ok(placed), Some(metrics)) => {
                    &&& final(self)@ == (StateModel { metrics, ..old(self)@ })
                    &&& placed == well_placed(old(self)@, *sample)
                },
                (Err(fault), None) => fault is Overflow && final(self)@ == old(self)@,
                _ => false,
            },
    {
        match count_instruction(&self.cur_metrics, sample) {
            Some(metrics) => {
                self.cur_metrics = metrics;
            },
            None => {
                return Err(Fault::Overflow);
            },
        }
        let placed = match self.current_symbol(sample.tid) {
            Some(symbol) => symbol.offset == 0 || symbol.contains(sample.ip),
            None => true,
        };
        Ok(placed)
    }

    /// Numbers a trace that is done among those of its thread.
    fn export_trace(&mut self, tid: i32, trace: Trace) -> (result: Result<Export, Fault>)
        ensures
            final(self).wf() == old(self).wf(),
            final(self).spec_output_dir() == old(self).spec_output_dir(),
            ({
                let n = exported(old(self)@.counts, tid);
                match result {
                    Ok(export) => {
                        &&& n < u32::MAX
                        &&& export@ == (ExportModel {
                            file_name: file_name(tid, n),
                            trace: trace@,
                        })
                        &&& final(self)@ == (StateModel {
                            counts: old(self)@.counts.insert(tid, (n + 1) as u32),
                            ..old(self)@
                        })
                    },
                    Err(fault) => n == u32::MAX && fault is Overflow,
                }
            }),
    {
        broadcast use vstd::std_specs::hash::group_hash_axioms;

        let trace_num: u32 = match self.trace_nums.get(&tid) {
            Some(n) => *n,
            None => 0,
        };
        if trace_num == u32::MAX {
            return Err(Fault::Overflow);
        }
        let mut name = "trace-".to_string();
        text::push_signed_decimal(&mut name, tid);
        name.append("-");
        text::push_decimal(&mut name, trace_num as u64);
        name.append(".flex.gz");
        assert(name@ =~= file_name(tid, trace_num));
        self.trace_nums.insert(tid, trace_num + 1);
        Ok(Export { file_name: name, trace })
    }

    /// Processes a branch to a target, which is wanted or not: recordings begin only with targets
    /// that are.
    pub fn process_branch(&mut self, sample: &Sample, target_symbol: SymbolInfo, wanted: bool) -> (result:
        Result<Branch, Fault>)
        requires
            old(self).wf(),
        ensures
            final(self).wf(),
            final(self).spec_output_dir() == old(self).spec_output_dir(),
            match (result, branched(old(self)@, *sample, target_symbol@, wanted)) {
                (Ok(branch), Ok(model)) => {
                    &&& final(self)@ == model.state
                    &&& branch.says(model)
                },
                (Err(fault), Err(model)) => fault == model,
                _ => false,
            },
    {
        broadcast use vstd::std_specs::hash::group_hash_axioms;

        let ghost before = self@;
        if sample.has(FLAG_TRACE_BEGIN) {
            // tracing begins anew on an error or when the process was unscheduled
            match count_instruction(&self.cur_metrics, sample) {
                Some(metrics) => {
                    self.cur_metrics = metrics;
                },
                None => {
                    return Err(Fault::Overflow);
                },
            }
        }
        let metrics = self.cur_metrics;
        let tid: i32 = sample.tid;
        let ghost start = self@;
        match self.builders.remove(&tid) {
            Some(builder_state) => {
                let ghost recording = start.recordings[tid];
                assert(recording == builder_state.model());
                assert(self@.recordings =~= start.recordings.remove(tid));
                let unannounced = match &builder_state {
                    BuilderState::InProgress(_) => false,
                    BuilderState::Paused(_) => !sample.has(FLAG_TRACE_BEGIN),
                };
                let builder = match wake(builder_state, metrics, sample) {
                    Ok(builder) => builder,
                    Err(fault) => {
                        return Err(fault);
                    },
                };
                let root_called = turn::calls_root(&builder, sample, &target_symbol);
                match turn::process_turn(builder, metrics, sample, target_symbol) {
                    Ok(BuilderResult::Builder(after)) => {
                        let next = settle(after, metrics, sample);
                        let ghost model = next.model();
                        self.builders.insert(tid, next);
                        assert(self@.recordings =~= start.recordings.insert(tid, model));
                        Ok(
                            Branch {
                                export: None,
                                more: true,
                                begun: false,
                                unannounced,
                                root_called,
                            },
                        )
                    },
                    Ok(BuilderResult::Completed(trace)) => match self.export_trace(tid, trace) {
                        Ok(export) => Ok(
                            Branch {
                                export: Some(export),
                                more: true,
                                begun: false,
                                unannounced,
                                root_called,
                            },
                        ),
                        Err(fault) => Err(fault),
                    },
                    Err(fault) => Err(fault),
                }
            },
            None => {
                assert(self@ =~= start);
                let mut branch = Branch {
                    export: None,
                    more: true,
                    begun: false,
                    unannounced: false,
                    root_called: false,
                };
                if target_symbol.offset != 0 && wanted {
                    if let Some(limit) = self.traces_limit {
                        if limit == 0 {
                            branch.more = false;
                            return Ok(branch);
                        }
                        self.traces_limit = Some(limit - 1);
                    }
                    let ghost symbol = target_symbol@;
                    let mut new_builder = TraceBuilder::new(metrics, target_symbol);
                    new_builder.new_event(
                        DataCollectionError::ID,
                        DataCollectionError::NAME.to_string(),
                        DataCollectionError::DESC.to_string(),
                    );
                    new_builder.new_event(
                        TraceInterrupted::ID,
                        TraceInterrupted::NAME.to_string(),
                        TraceInterrupted::DESC.to_string(),
                    );
                    assert(new_builder@ =~= fresh(metrics, symbol));
                    self.builders.insert(tid, BuilderState::InProgress(new_builder));
                    assert(self@.recordings =~= start.recordings.insert(
                        tid,
                        RecordingModel::InProgress(fresh(metrics, symbol)),
                    ));
                    branch.begun = true;
                }
                Ok(branch)
            },
        }
    }

    /// Processes a branch. The target has no symbol where none is known.
    pub fn process_branch_event(&mut self, sample: &Sample, target: Option<SymbolInfo>) -> (result:
        Result<Branch, Fault>)
        requires
            old(self).wf(),
        ensures
            final(self).wf(),
            final(self).spec_output_dir() == old(self).spec_output_dir(),
            ({
                let symbol = target_model(target);
                let wanted = regex_matches(old(self)@.pattern, symbol.name);
                match (result, branched(old(self)@, *sample, symbol, wanted)) {
                    (Ok(branch), Ok(model)) => {
                        &&& final(self)@ == model.state
                        &&& branch.says(model)
                    },
                    (Err(fault), Err(model)) => fault == model,
                    _ => false,
                }
            }),
    {
        broadcast use vstd::std_specs::hash::group_hash_axioms;

        let target_symbol = match target {
            Some(symbol) => symbol,
            None => sample::fallback_symbol(),
        };
        let wanted = target_symbol.offset != 0 && !self.builders.contains_key(&sample.tid)
            && pattern::is_match(&self.sym_regex, target_symbol.name.as_str());
        self.process_branch(sample, target_symbol, wanted)
    }

    /// Processes an event by its letter: instructions are `i`, branches are `b`. For branches, the
    /// target has no symbol where none is known.
    ///
    /// All samples are kept, until the last one that is wanted.
    pub fn process_event(&mut self, letter: char, sample: &Sample, target: Option<SymbolInfo>) -> (result:
        Result<Reply, Fault>)
        requires
            old(self).wf(),
        ensures
            final(self).wf(),
            final(self).spec_output_dir() == old(self).spec_output_dir(),
            ({
                let symbol = target_model(target);
                let wanted = regex_matches(old(self)@.pattern, symbol.name);
                if letter == 'i' {
                    match (result, counted(old(self)@.metrics, *sample)) {
                        (Ok(reply), Some(metrics)) => {
                            &&& reply.code == 1
                            &&& reply.placed == well_placed(old(self)@, *sample)
                            &&& reply.branch is None
                            &&& final(self)@ == (StateModel { metrics, ..old(self)@ })
                        },
                        (Err(fault), None) => fault is Overflow && final(self)@ == old(self)@,
                        _ => false,
                    }
                } else if letter == 'b' {
                    match (result, branched(old(self)@, *sample, symbol, wanted)) {
                        (Ok(reply), Ok(model)) => {
                            &&& final(self)@ == model.state
                            &&& reply.code == if model.more {
                                1i32
                            } else {
                                CANCELED
                            }
                            &&& reply.placed
                            &&& reply.branch matches Some(branch) && branch.says(model)
                        },
                        (Err(fault), Err(model)) => fault == model,
                        _ => false,
                    }
                } else {
                    result matches Ok(reply) && reply.code == 1 && reply.placed && reply.branch
                        is None && final(self)@ == old(self)@
                }
            }),
    {
        let mut reply = Reply { code: 1, placed: true, branch: None };
        if letter == 'i' {
            match self.process_insn_event(sample) {
                Ok(placed) => {
                    reply.placed = placed;
                },
                Err(fault) => {
                    return Err(fault);
                },
            }
        } else if letter == 'b' {
            match self.process_branch_event(sample, target) {
                Ok(branch) => {
                    if !branch.more {
                        reply.code = CANCELED;
                    }
                    reply.branch = Some(branch);
                },
                Err(fault) => {
                    return Err(fault);
                },
            }
        }
        Ok(reply)
    }

    /// The state to begin with, from two or three arguments: the pattern of the functions to
    /// record, the directory that traces go to, and how many traces to record at most.
    pub fn from_arguments(args: Vec<String>) -> (result: Result<State, ArgumentFault>)
        ensures
            match result {
                Ok(state) => {
                    &&& 2 <= args.len() <= 3
                    &&& state.wf()
                    &&& state.spec_output_dir() == args@[1]@
                    &&& regex_fault(args@[0]@) is None
                    &&& args.len() == 3 ==> number(args@[2]@, u32::MAX as nat) is Ok
                    &&& state@ == (StateModel {
                        pattern: args@[0]@,
                        limit: if args.len() == 3 {
                            Some(number(args@[2]@, u32::MAX as nat)->Ok_0 as u32)
                        } else {
                            None
                        },
                        counts: Map::empty(),
                        recordings: Map::empty(),
                        metrics: Metrics::every(0),
                    })
                },
                Err(ArgumentFault::Count) => args.len() != 2 && args.len() != 3,
                Err(ArgumentFault::Limit(fault)) => args.len() == 3 && number(
                    args@[2]@,
                    u32::MAX as nat,
                ) == Err::<nat, NumberFault>(fault),
                Err(ArgumentFault::Regex(text)) => {
                    &&& 2 <= args.len() <= 3
                    &&& args.len() == 3 ==> number(args@[2]@, u32::MAX as nat) is Ok
                    &&& regex_fault(args@[0]@) == Some(text@)
                },
            },
    {
        let mut args = args;
        if args.len() != 2 && args.len() != 3 {
            return Err(ArgumentFault::Count);
        }
        let max_traces: Option<u32> = if args.len() == 3 {
            let digits = text::characters(args[2].as_str());
            match text::parse_number(digits.as_slice(), u32::MAX as u64) {
                Ok(n) => Some(n as u32),
                Err(fault) => {
                    return Err(ArgumentFault::Limit(fault));
                },
            }
        } else {
            None
        };
        match pattern::compile(args[0].as_str()) {
            Ok(regex) => {
                let output_dir = args.remove(1);
                Ok(State::new(regex, output_dir, max_traces))
            },
            Err(text) => Err(ArgumentFault::Regex(text)),
        }
    }
}

/// The code by which the profiler is told that processing is done.
pub const CANCELED: i32 = -125;

/// The symbol of a target, or the one for unknown symbols.
pub open spec fn target_model(target: Option<SymbolInfo>) -> SymbolModel {
    match target {
        Some(symbol) => symbol@,
        None => unknown_symbol(),
    }
}

pub open spec fn export_model(export: Option<Export>) -> Option<ExportModel> {
    match export {
        Some(export) => Some(export@),
        None => None,
    }
}

impl Branch {
    /// The branch says what the model does, and a trace that is done holds all its symbols.
    pub open spec fn says(self, model: BranchModel) -> bool {
        &&& export_model(self.export) == model.export
        &&& self.more == model.more
        &&& self.begun == model.begun
        &&& self.unannounced == model.unannounced
        &&& self.root_called == model.root_called
        &&& self.export matches Some(export) ==> indexed_by(
            export.trace@.root,
            export.trace@.symbols,
        )
    }
}

/// The recording of a thread as a branch finds it.
fn wake(state: BuilderState, metrics: Metrics, sample: &Sample) -> (result: Result<
    TraceBuilder,
    Fault,
>)
    requires
        state.wf(),
    ensures
        match (result, woken(state.model(), metrics, *sample)) {
            (Ok(builder), Ok(model)) => builder.wf() && builder@ == model,
            (Err(fault), Err(model)) => fault == model,
            _ => false,
        },
{
    match state {
        BuilderState::InProgress(builder) => {
            let mut builder = builder;
            if sample.has(FLAG_TRACE_BEGIN) {
                // a beginning without a previous end indicates an error in the trace
                builder.event_occured(DataCollectionError::ID, metrics);
            }
            Ok(builder)
        },
        BuilderState::Paused(paused) => {
            if !paused.last_seen().at_most(&metrics) {
                return Err(Fault::NotMonotonic);
            }
            if !MetricsRange::can_span(&paused.started(), &metrics) {
                return Err(Fault::TooLong);
            }
            Ok(paused.resume(metrics))
        },
    }
}

/// The recording of a thread as a branch leaves it.
fn settle(builder: TraceBuilder, metrics: Metrics, sample: &Sample) -> (result: BuilderState)
    requires
        builder.wf(),
    ensures
        result.wf(),
        result.model() == settled(builder@, metrics, *sample),
{
    if sample.has(FLAG_TRACE_END) {
        let mut builder = builder;
        if sample.has(FLAG_ASYNC) {
            builder.event_occured(TraceInterrupted::ID, metrics);
        }
        match builder.pause(metrics) {
            Ok(paused) => BuilderState::Paused(paused),
            Err(_) => vstd::pervasive::unreached(),
        }
    } else {
        BuilderState::InProgress(builder)
    }
}

/// The symbol of the current frame of a thread that is being recorded, and is not paused.
pub open spec fn current_symbol(state: StateModel, tid: i32) -> Option<SymbolModel> {
    if state.recordings.contains_key(tid) {
        match state.recordings[tid] {
            RecordingModel::InProgress(builder) => Some(builder.current.symbol),
            RecordingModel::Paused(_) => None,
        }
    } else {
        None
    }
}

/// The instruction does not lie outside of the current frame of its thread, if that is known.
pub open spec fn well_placed(state: StateModel, sample: Sample) -> bool {
    match current_symbol(state, sample.tid) {
        Some(symbol) => symbol.offset == 0 || symbol.contains(sample.ip),
        None => true,
    }
}

} // verus!

use pt_fuser::trace::builder::{BuilderResult, TraceBuilder};
use pt_fuser::trace::metrics::Metrics;
use pt_fuser::trace::trace_error::{DataCollectionError, TraceInterrupted};
use pt_fuser::trace::{Chunk, Frame, SymbolInfo, Trace};
use pt_fuser::transform::sample::{
    fallback_symbol, loaded_symbol, FLAG_ASYNC, FLAG_CALL, FLAG_RETURN, FLAG_TRACE_BEGIN,
    FLAG_TRACE_END,
};
use pt_fuser::transform::state::{ArgumentFault, CANCELED};
use pt_fuser::transform::turn::{contained_in_callstack, process_call_event, process_return_event};
use pt_fuser::transform::{Export, Fault, Sample, State};
use regex::Regex;

const TID: i32 = 42;

fn symbol(name: &str, offset: u64) -> SymbolInfo {
    SymbolInfo { name: name.to_string(), offset, size: 0x100 }
}

fn main_symbol() -> SymbolInfo {
    symbol("main", 0x1000)
}

fn helper() -> SymbolInfo {
    symbol("helper", 0x2000)
}

fn other() -> SymbolInfo {
    symbol("other", 0x3000)
}

fn sample(time: u64, addr: u64, flags: u32) -> Sample {
    Sample { tid: TID, time, ip: 0, addr, cyc_cnt: 3, flags }
}

fn state_for(pattern: &str, limit: Option<u32>) -> State {
    State::new(Regex::new(pattern).unwrap(), "out".to_string(), limit)
}

// An instruction, then a branch to the target at the same time.
fn branch(state: &mut State, time: u64, target: Option<SymbolInfo>, flags: u32) -> Option<Export> {
    let addr = match &target {
        Some(symbol) => symbol.offset + 1,
        None => 0x9999,
    };
    state.process_insn_event(&sample(time, 0, 0)).unwrap();
    let branch = state.process_branch_event(&sample(time, addr, flags), target).unwrap();
    assert!(branch.more);
    branch.export
}

fn children(frame: &Frame) -> Vec<(String, u64, u64)> {
    frame
        .chunks()
        .iter()
        .filter_map(|chunk| match chunk {
            Chunk::Frame(child) => Some((
                child.symbol.name.clone(),
                child.metrics.start.ts,
                child.metrics.end().ts,
            )),
            _ => None,
        })
        .collect()
}

fn occurences(trace: &Trace, id: u32) -> usize {
    trace.get_event(id).unwrap().occurences().len()
}

#[test]
fn a_call_and_its_return() {
    let mut state = state_for("^main$", None);
    assert!(branch(&mut state, 10, Some(main_symbol()), FLAG_CALL).is_none());
    assert!(branch(&mut state, 20, Some(helper()), FLAG_CALL).is_none());
    assert!(branch(&mut state, 30, Some(main_symbol()), FLAG_RETURN).is_none());
    let export = branch(&mut state, 40, Some(other()), FLAG_RETURN).unwrap();
    assert_eq!(export.file_name, "trace-42-0.flex.gz");
    let root = export.trace.root_frame();
    assert_eq!(root.symbol.name, "main");
    assert_eq!((root.metrics.start.ts, root.metrics.end().ts), (10, 40));
    assert_eq!(root.metrics.total_insn(), 3);
    assert_eq!(root.metrics.total_cycles(), 9);
    assert_eq!(children(root), vec![("helper".to_string(), 20, 30)]);
    assert!(root.check_invariant());
    assert_eq!(occurences(&export.trace, DataCollectionError::ID), 0);
    assert_eq!(occurences(&export.trace, TraceInterrupted::ID), 0);
}

#[test]
fn only_what_matches_is_recorded() {
    let mut state = state_for("^main$", None);
    assert!(branch(&mut state, 10, Some(helper()), FLAG_CALL).is_none());
    assert!(branch(&mut state, 20, Some(other()), FLAG_RETURN).is_none());
    assert!(branch(&mut state, 30, None, FLAG_CALL).is_none());
}

#[test]
fn traces_are_numbered_by_thread() {
    let mut state = state_for("main", None);
    for n in 0..3u64 {
        assert!(branch(&mut state, 10 + 20 * n, Some(main_symbol()), FLAG_CALL).is_none());
        let export = branch(&mut state, 20 + 20 * n, Some(other()), FLAG_RETURN).unwrap();
        assert_eq!(export.file_name, format!("trace-42-{}.flex.gz", n));
    }
    let mut begin = sample(100, 0x1001, FLAG_CALL);
    begin.tid = -7;
    let mut end = sample(110, 0x3001, FLAG_RETURN);
    end.tid = -7;
    assert!(state.process_branch_event(&begin, Some(main_symbol())).unwrap().export.is_none());
    let export = state.process_branch_event(&end, Some(other())).unwrap().export.unwrap();
    assert_eq!(export.file_name, "trace--7-0.flex.gz");
}

#[test]
fn the_limit_ends_the_recording() {
    let mut state = state_for("main", Some(1));
    assert!(branch(&mut state, 10, Some(main_symbol()), FLAG_CALL).is_none());
    assert!(branch(&mut state, 20, Some(other()), FLAG_RETURN).is_some());
    let last = state
        .process_branch_event(&sample(30, 0x1001, FLAG_CALL), Some(main_symbol()))
        .unwrap();
    assert!(!last.more);
    assert!(last.export.is_none());
    let reply =
        state.process_event('b', &sample(30, 0x1001, FLAG_CALL), Some(main_symbol())).unwrap();
    assert_eq!(reply.code, CANCELED);
    assert_eq!(reply.code, -125);
    let branch = reply.branch.unwrap();
    assert!(branch.export.is_none());
    assert!(!branch.begun);
}

#[test]
fn jumps_inside_a_frame_change_nothing() {
    let mut state = state_for("main", None);
    assert!(branch(&mut state, 10, Some(main_symbol()), FLAG_CALL).is_none());
    assert!(branch(&mut state, 20, Some(main_symbol()), 0).is_none());
    let export = branch(&mut state, 30, Some(other()), FLAG_RETURN).unwrap();
    assert!(children(export.trace.root_frame()).is_empty());
}

#[test]
fn jumps_out_of_a_frame_are_calls() {
    let mut state = state_for("main", None);
    assert!(branch(&mut state, 10, Some(main_symbol()), FLAG_CALL).is_none());
    assert!(branch(&mut state, 20, Some(helper()), 0).is_none());
    assert!(branch(&mut state, 30, Some(other()), 0).is_none());
    // exceptions return over several levels
    assert!(branch(&mut state, 40, Some(main_symbol()), 0).is_none());
    let export = branch(&mut state, 50, Some(helper()), FLAG_RETURN).unwrap();
    let root = export.trace.root_frame();
    assert_eq!(children(root), vec![("helper".to_string(), 20, 40)]);
    let inner = match root.chunks()[1] {
        Chunk::Frame(frame) => frame,
        _ => panic!("Expected a frame"),
    };
    assert_eq!(children(inner), vec![("other".to_string(), 30, 40)]);
}

#[test]
fn unknown_code_that_returns() {
    let mut state = state_for("main", None);
    assert!(branch(&mut state, 10, Some(main_symbol()), FLAG_CALL).is_none());
    assert!(branch(&mut state, 20, Some(helper()), FLAG_CALL).is_none());
    assert!(branch(&mut state, 30, None, FLAG_CALL).is_none());
    assert!(branch(&mut state, 35, None, FLAG_CALL).is_none());
    assert!(branch(&mut state, 40, Some(helper()), FLAG_RETURN).is_none());
    assert!(branch(&mut state, 50, Some(main_symbol()), FLAG_RETURN).is_none());
    let export = branch(&mut state, 60, Some(other()), FLAG_RETURN).unwrap();
    let root = export.trace.root_frame();
    assert_eq!(children(root), vec![("helper".to_string(), 20, 50)]);
    let inner = match root.chunks()[1] {
        Chunk::Frame(frame) => frame,
        _ => panic!("Expected a frame"),
    };
    assert_eq!(children(inner), vec![("[unknown]".to_string(), 30, 40)]);
}

#[test]
fn unknown_code_that_calls() {
    let mut state = state_for("main", None);
    assert!(branch(&mut state, 10, Some(main_symbol()), FLAG_CALL).is_none());
    assert!(branch(&mut state, 20, Some(helper()), FLAG_CALL).is_none());
    assert!(branch(&mut state, 30, None, FLAG_CALL).is_none());
    // the unknown frame and its parent end, and the function is called by the root
    assert!(branch(&mut state, 40, Some(other()), FLAG_CALL).is_none());
    assert!(branch(&mut state, 50, Some(main_symbol()), FLAG_RETURN).is_none());
    let export = branch(&mut state, 60, Some(helper()), FLAG_RETURN).unwrap();
    assert_eq!(
        children(export.trace.root_frame()),
        vec![("helper".to_string(), 20, 40), ("other".to_string(), 40, 50)]
    );
}

#[test]
fn a_call_of_the_root_ends_the_trace() {
    let mut state = state_for("main", None);
    assert!(branch(&mut state, 10, Some(main_symbol()), FLAG_CALL).is_none());
    assert!(branch(&mut state, 20, Some(helper()), FLAG_CALL).is_none());
    let export = branch(&mut state, 30, Some(main_symbol()), FLAG_CALL).unwrap();
    assert_eq!(export.trace.root_frame().metrics.end().ts, 30);
    assert_eq!(children(export.trace.root_frame()), vec![("helper".to_string(), 20, 30)]);
}

#[test]
fn interrupts_pause_the_recording() {
    let mut state = state_for("main", None);
    assert!(branch(&mut state, 10, Some(main_symbol()), FLAG_CALL).is_none());
    assert!(branch(&mut state, 20, Some(main_symbol()), FLAG_TRACE_END | FLAG_ASYNC).is_none());
    // a beginning counts as an instruction
    let resumed = state
        .process_branch_event(&sample(50, 0x1001, FLAG_TRACE_BEGIN), Some(main_symbol()))
        .unwrap();
    assert!(resumed.export.is_none());
    let export = branch(&mut state, 60, Some(other()), FLAG_RETURN).unwrap();
    assert_eq!(occurences(&export.trace, TraceInterrupted::ID), 1);
    assert_eq!(occurences(&export.trace, DataCollectionError::ID), 0);
    let root = export.trace.root_frame();
    assert_eq!(root.metrics.total_insn(), 3);
    let pauses: Vec<(u64, u64)> = root
        .chunks()
        .iter()
        .filter_map(|chunk| match chunk {
            Chunk::Pause(pause) => Some((pause.start.ts, pause.end().ts)),
            _ => None,
        })
        .collect();
    assert_eq!(pauses, vec![(20, 50)]);
    assert!(root.check_invariant());
}

#[test]
fn a_beginning_without_an_end_is_an_error() {
    let mut state = state_for("main", None);
    assert!(branch(&mut state, 10, Some(main_symbol()), FLAG_CALL).is_none());
    let begin = sample(20, 0x1001, FLAG_TRACE_BEGIN);
    assert!(state.process_branch_event(&begin, Some(main_symbol())).unwrap().export.is_none());
    let export = branch(&mut state, 30, Some(other()), FLAG_RETURN).unwrap();
    assert_eq!(occurences(&export.trace, DataCollectionError::ID), 1);
    let error = export.trace.get_event(DataCollectionError::ID).unwrap();
    assert_eq!(error.occurences()[0].ts, 20);
}

#[test]
fn time_must_not_go_back() {
    let mut state = state_for("main", None);
    assert!(branch(&mut state, 10, Some(main_symbol()), FLAG_CALL).is_none());
    state.process_insn_event(&sample(5, 0, 0)).unwrap();
    let fault = state.process_branch_event(&sample(5, 0x2001, FLAG_CALL), Some(helper()));
    assert!(matches!(fault, Err(Fault::NotMonotonic)));
}

#[test]
fn frames_must_not_be_too_long() {
    let mut state = state_for("main", None);
    assert!(branch(&mut state, 10, Some(main_symbol()), FLAG_CALL).is_none());
    let late = 10 + u32::MAX as u64 + 1;
    state.process_insn_event(&sample(late, 0, 0)).unwrap();
    let fault = state.process_branch_event(&sample(late, 0x3001, FLAG_RETURN), Some(other()));
    assert!(matches!(fault, Err(Fault::TooLong)));
}

#[test]
fn counters_must_not_overflow() {
    let mut state = state_for("main", None);
    let mut first = sample(1, 0, 0);
    first.cyc_cnt = u64::MAX;
    state.process_insn_event(&first).unwrap();
    let second = state.process_insn_event(&sample(2, 0, 0));
    assert!(matches!(second, Err(Fault::Overflow)));
}

#[test]
fn pauses_before_calls_find_no_place() {
    let mut state = state_for("main", None);
    assert!(branch(&mut state, 10, Some(main_symbol()), FLAG_CALL).is_none());
    assert!(branch(&mut state, 20, Some(helper()), FLAG_CALL).is_none());
    assert!(branch(&mut state, 30, Some(main_symbol()), FLAG_RETURN).is_none());
    // time goes back at the end of tracing, into the call
    assert!(branch(&mut state, 25, Some(main_symbol()), FLAG_TRACE_END).is_none());
    let begin = sample(40, 0x1001, FLAG_TRACE_BEGIN);
    assert!(state.process_branch_event(&begin, Some(main_symbol())).unwrap().export.is_none());
    state.process_insn_event(&sample(50, 0, 0)).unwrap();
    let fault = state.process_branch_event(&sample(50, 0x3001, FLAG_RETURN), Some(other()));
    assert!(matches!(fault, Err(Fault::Unplaced(_))));
}

#[test]
fn misplaced_instructions_are_told() {
    let mut state = state_for("main", None);
    assert!(branch(&mut state, 10, Some(main_symbol()), FLAG_CALL).is_none());
    let mut inside = sample(11, 0, 0);
    inside.ip = 0x1010;
    assert!(matches!(state.process_insn_event(&inside), Ok(true)));
    let mut outside = sample(12, 0, 0);
    outside.ip = 0x5000;
    assert!(matches!(state.process_insn_event(&outside), Ok(false)));
    outside.tid = TID + 1;
    assert!(matches!(state.process_insn_event(&outside), Ok(true)));
}

#[test]
fn events_by_letter() {
    let mut state = state_for("main", None);
    let kept = state.process_event('i', &sample(10, 0, 0), None).unwrap();
    assert_eq!(kept.code, 1);
    assert!(kept.placed);
    assert!(kept.branch.is_none());
    let begun = state
        .process_event('b', &sample(10, 0x1001, FLAG_CALL), Some(main_symbol()))
        .unwrap();
    assert_eq!(begun.code, 1);
    assert!(begun.branch.unwrap().begun);
    // the instruction at zero lies outside of main
    let misplaced = state.process_event('i', &sample(15, 0, 0), None).unwrap();
    assert_eq!(misplaced.code, 1);
    assert!(!misplaced.placed);
    let ignored = state.process_event('x', &sample(20, 0x3001, FLAG_RETURN), Some(other())).unwrap();
    assert_eq!(ignored.code, 1);
    assert!(ignored.branch.is_none());
    let done = state.process_event('b', &sample(20, 0x3001, FLAG_RETURN), Some(other())).unwrap();
    assert!(done.placed);
    let branch = done.branch.unwrap();
    assert!(!branch.begun && !branch.unannounced && !branch.root_called);
    assert_eq!(branch.export.unwrap().file_name, "trace-42-0.flex.gz");
}

#[test]
fn the_current_symbol_of_a_thread() {
    let mut state = state_for("main", None);
    assert!(state.current_symbol(TID).is_none());
    assert!(branch(&mut state, 10, Some(main_symbol()), FLAG_CALL).is_none());
    assert!(branch(&mut state, 20, Some(helper()), FLAG_CALL).is_none());
    assert_eq!(state.current_symbol(TID), Some(&helper()));
    assert!(state.current_symbol(TID + 1).is_none());
    assert!(branch(&mut state, 30, Some(helper()), FLAG_TRACE_END).is_none());
    assert!(state.current_symbol(TID).is_none());
}

#[test]
fn tracing_that_goes_on_unannounced_is_told() {
    let mut state = state_for("main", None);
    assert!(branch(&mut state, 10, Some(main_symbol()), FLAG_CALL).is_none());
    assert!(branch(&mut state, 20, Some(main_symbol()), FLAG_TRACE_END).is_none());
    let unannounced = state
        .process_branch_event(&sample(20, 0x1001, 0), Some(main_symbol()))
        .unwrap();
    assert!(unannounced.unannounced);
    assert!(branch(&mut state, 30, Some(main_symbol()), FLAG_TRACE_END).is_none());
    let announced = state
        .process_branch_event(&sample(40, 0x1001, FLAG_TRACE_BEGIN), Some(main_symbol()))
        .unwrap();
    assert!(!announced.unannounced);
}

#[test]
fn a_call_of_the_root_is_told() {
    let mut state = state_for("^main$", None);
    assert!(branch(&mut state, 10, Some(main_symbol()), FLAG_CALL).is_none());
    assert!(branch(&mut state, 20, Some(helper()), FLAG_CALL).is_none());
    let called = state
        .process_branch_event(&sample(20, 0x1001, FLAG_CALL), Some(main_symbol()))
        .unwrap();
    assert!(called.root_called);
    assert!(called.export.is_some());

    // out of unknown code two levels below the root
    assert!(branch(&mut state, 30, Some(main_symbol()), FLAG_CALL).is_none());
    assert!(branch(&mut state, 40, Some(helper()), FLAG_CALL).is_none());
    assert!(branch(&mut state, 50, Some(other()), FLAG_CALL).is_none());
    assert!(branch(&mut state, 60, None, FLAG_CALL).is_none());
    let called = state
        .process_branch_event(&sample(60, 0x9999, 0), Some(main_symbol()))
        .unwrap();
    assert!(called.root_called);
    assert!(called.export.is_some());
}

#[test]
fn a_recording_is_read_back() {
    let mut state = state_for("^main$", None);
    assert!(branch(&mut state, 10, Some(main_symbol()), FLAG_CALL).is_none());
    assert!(branch(&mut state, 20, Some(helper()), FLAG_CALL).is_none());
    assert!(branch(&mut state, 30, Some(main_symbol()), FLAG_RETURN).is_none());
    let trace = branch(&mut state, 40, Some(other()), FLAG_RETURN).unwrap().trace;
    assert_eq!(trace.num_symbols(), 2);
    let again = Trace::from_def(trace.to_def()).unwrap();
    assert_eq!(again.root_frame(), trace.root_frame());
    assert_eq!(again.root_frame().symbol.name, "main");
    assert_eq!(children(again.root_frame()), vec![("helper".to_string(), 20, 30)]);
    assert_eq!(again.events().len(), 2);
}

fn arguments(args: &[&str]) -> Result<State, ArgumentFault> {
    State::from_arguments(args.iter().map(|arg| arg.to_string()).collect())
}

#[test]
fn arguments_are_read() {
    let state = arguments(&["main", "dir"]).ok().unwrap();
    assert_eq!(state.output_dir(), "dir");
    let mut limited = arguments(&["main", "dir", "0"]).ok().unwrap();
    let last = limited
        .process_branch_event(&sample(1, 0x1001, FLAG_CALL), Some(main_symbol()))
        .unwrap();
    assert!(!last.more);
    assert!(matches!(arguments(&["main"]), Err(ArgumentFault::Count)));
    assert!(matches!(arguments(&["a", "b", "1", "d"]), Err(ArgumentFault::Count)));
    assert!(matches!(arguments(&["(", "dir", "x"]), Err(ArgumentFault::Limit(_))));
    match arguments(&["(", "dir", "1"]) {
        Err(ArgumentFault::Regex(text)) => {
            assert_eq!(text, Regex::new("(").unwrap_err().to_string());
        }
        _ => panic!("Expected a faulty pattern"),
    }
}

#[test]
fn symbols_as_they_are_loaded() {
    let loaded = loaded_symbol(Some("f".to_string()), 0x10, 0x30, 0x5008, 8);
    assert_eq!(loaded, SymbolInfo { name: "f".to_string(), offset: 0x5000, size: 0x20 });
    assert_eq!(loaded_symbol(None, 0, 1, 1, 0).name, "Non UTF-8 symbol");
    assert_eq!(fallback_symbol().name, "[unknown]");
    assert_eq!(fallback_symbol().offset, 0);
}

fn nested_builder() -> TraceBuilder {
    let mut builder = TraceBuilder::new(Metrics::constant(1), main_symbol());
    builder.push_frame(Metrics::constant(2), helper());
    builder.push_frame(Metrics::constant(3), other());
    builder
}

#[test]
fn levels_up_the_callstack() {
    let builder = nested_builder();
    assert_eq!(contained_in_callstack(&builder, 0x1050), Some(2));
    assert_eq!(contained_in_callstack(&builder, 0x2050), Some(1));
    // the current frame does not count
    assert_eq!(contained_in_callstack(&builder, 0x3050), None);
}

#[test]
fn returns_end_with_the_trace() {
    let two = process_return_event(nested_builder(), Metrics::constant(9), 2).ok().unwrap();
    match two {
        BuilderResult::Builder(builder) => assert_eq!(builder.get_frame_symbol(0).name, "main"),
        BuilderResult::Completed(_) => panic!("Expected a builder"),
    }
    let five = process_return_event(nested_builder(), Metrics::constant(9), 5).ok().unwrap();
    assert!(matches!(five, BuilderResult::Completed(_)));
    let called = process_call_event(nested_builder(), Metrics::constant(9), main_symbol());
    assert!(matches!(called, Ok(BuilderResult::Completed(_))));
}

//! What a branch does to the callstack of a recording.
use crate::trace::builder::{BuilderModel, BuilderResult, OutcomeModel, TraceBuilder};
use crate::trace::error::Error;
use crate::trace::frame::indexed_by;
use crate::trace::metrics::{Metrics, MetricsRange};
use crate::trace::symbol::{SymbolInfo, SymbolModel};
use crate::transform::sample::{Sample, FLAG_CALL, FLAG_RETURN};
use vstd::prelude::*;

verus! {

/// Why a recording cannot go on.
#[derive(Debug, Clone, Copy)]
pub enum Fault {
    /// A counter passes its limit.
    Overflow,
    /// A metric is less than it was before.
    NotMonotonic,
    /// A frame or pause is longer than a range can be.
    TooLong,
    /// A call or pause finds no place in its frame.
    Unplaced(Error),
}

/// How many frames up the callstack the address is contained in, from the given level on.
pub open spec fn level_from(builder: BuilderModel, addr: u64, from: int) -> Option<int>
    decreases builder.stack.len() + 1 - from,
{
    if from > builder.stack.len() {
        None
    } else if builder.frame_symbol(from).contains(addr) {
        Some(from)
    } else {
        level_from(builder, addr, from + 1)
    }
}

/// How many frames up the callstack the address is contained in; none where it is in no frame but
/// possibly the current one.
pub open spec fn level_of(builder: BuilderModel, addr: u64) -> Option<int> {
    level_from(builder, addr, 1)
}

/// What a branch is taken for.
pub enum Turn {
    Stay,
    Call,
    Return(int),
    /// The unknown frame and its parent are done, and another function is called.
    ReturnAndCall,
}

/// What a branch is taken for.
///
/// When a branch hits an unknown symbol, it goes onto the callstack. The next branch to a known
/// symbol takes it off: if that symbol is higher up the callstack, by a return to there. Else a
/// function that executes unknown code has called a known symbol; or an error happened inside the
/// unknown symbol, and by now that and its parent are done.
///
/// A branch that leaves a known frame is a call if it is a call instruction. If the target is
/// higher up the callstack, it is a return to there, whatever the instruction. A return instruction
/// ends a recording with one frame. All else are indirect calls.
pub open spec fn turn(builder: BuilderModel, sample: Sample, target: SymbolModel) -> Turn {
    let current = builder.current.symbol;
    let level = level_of(builder, sample.addr);
    if current.offset == 0 {
        if target.offset == 0 {
            Turn::Stay
        } else {
            match level {
                Some(levels) => Turn::Return(levels),
                None => Turn::ReturnAndCall,
            }
        }
    } else if current.contains(sample.addr) {
        Turn::Stay
    } else if sample.flagged(FLAG_CALL) {
        Turn::Call
    } else {
        match level {
            Some(levels) => Turn::Return(levels),
            None => if sample.flagged(FLAG_RETURN) && builder.stack.len() == 0 {
                Turn::Return(1)
            } else {
                Turn::Call
            },
        }
    }
}

/// The recording after a number of returns. It may be done before the last of them.
pub open spec fn returned(builder: BuilderModel, end: Metrics, levels: nat) -> Result<
    OutcomeModel,
    Fault,
>
    decreases levels,
{
    if levels == 0 {
        Ok(OutcomeModel::Going(builder))
    } else if !builder.last.le_all(end) {
        Err(Fault::NotMonotonic)
    } else if !MetricsRange::spans(builder.current.start, end) {
        Err(Fault::TooLong)
    } else {
        match builder.popped(end, false) {
            Ok(OutcomeModel::Going(outer)) => returned(outer, end, (levels - 1) as nat),
            Ok(OutcomeModel::Done(trace)) => Ok(OutcomeModel::Done(trace)),
            Err(error) => Err(Fault::Unplaced(error)),
        }
    }
}

/// The recording after a call.
///
/// If the target is the outermost function, the recording is done: its end has been missed.
pub open spec fn called(builder: BuilderModel, metrics: Metrics, target: SymbolModel) -> Result<
    OutcomeModel,
    Fault,
> {
    if target == root_symbol(builder) {
        returned(builder, metrics, builder.stack.len() + 1)
    } else if !builder.last.le_all(metrics) {
        Err(Fault::NotMonotonic)
    } else {
        Ok(OutcomeModel::Going(builder.pushed(metrics, target)))
    }
}

/// The outermost function of a recording.
pub open spec fn root_symbol(builder: BuilderModel) -> SymbolModel {
    builder.frame_symbol(builder.stack.len() as int)
}

/// The branch is taken for a call of the outermost function.
pub open spec fn root_called(builder: BuilderModel, sample: Sample, target: SymbolModel) -> bool {
    target == root_symbol(builder) && match turn(builder, sample, target) {
        Turn::Call => true,
        Turn::ReturnAndCall => builder.stack.len() >= 2,
        _ => false,
    }
}

/// The recording after a branch.
pub open spec fn turned(
    builder: BuilderModel,
    metrics: Metrics,
    sample: Sample,
    target: SymbolModel,
) -> Result<OutcomeModel, Fault> {
    match turn(builder, sample, target) {
        Turn::Stay => Ok(OutcomeModel::Going(builder)),
        Turn::Call => called(builder, metrics, target),
        Turn::Return(levels) => returned(builder, metrics, levels as nat),
        Turn::ReturnAndCall => match returned(builder, metrics, 2) {
            Ok(OutcomeModel::Going(outer)) => called(outer, metrics, target),
            other => other,
        },
    }
}

/// Returns in two parts are returns in one.
proof fn returned_in_parts(builder: BuilderModel, end: Metrics, a: nat, b: nat)
    ensures
        returned(builder, end, a + b) == (match returned(builder, end, a) {
            Ok(OutcomeModel::Going(outer)) => returned(outer, end, b),
            other => other,
        }),
    decreases a,
{
    if a > 0 && builder.last.le_all(end) && MetricsRange::spans(builder.current.start, end) {
        if let Ok(OutcomeModel::Going(outer)) = builder.popped(end, false) {
            assert((a + b - 1) as nat == (a - 1) as nat + b);
            returned_in_parts(outer, end, (a - 1) as nat, b);
        }
    }
}

/// The level of an address is that of the innermost frame, but for the current one, that contains
/// it.
pub proof fn level_is_innermost(builder: BuilderModel, addr: u64)
    ensures
        match level_of(builder, addr) {
            Some(level) => {
                &&& 1 <= level <= builder.stack.len()
                &&& builder.frame_symbol(level).contains(addr)
                &&& forall|i: int|
                    1 <= i < level ==> !(#[trigger] builder.frame_symbol(i)).contains(addr)
            },
            None => forall|i: int|
                1 <= i <= builder.stack.len() ==> !(#[trigger] builder.frame_symbol(i)).contains(
                    addr,
                ),
        },
{
    innermost_from(builder, addr, 1);
}

proof fn innermost_from(builder: BuilderModel, addr: u64, from: int)
    ensures
        match level_from(builder, addr, from) {
            Some(level) => {
                &&& from <= level <= builder.stack.len()
                &&& builder.frame_symbol(level).contains(addr)
                &&& forall|i: int|
                    from <= i < level ==> !(#[trigger] builder.frame_symbol(i)).contains(addr)
            },
            None => forall|i: int|
                from <= i <= builder.stack.len() ==> !(#[trigger] builder.frame_symbol(
                    i,
                )).contains(addr),
        },
    decreases builder.stack.len() + 1 - from,
{
    if from <= builder.stack.len() && !builder.frame_symbol(from).contains(addr) {
        innermost_from(builder, addr, from + 1);
    }
}

/// How many frames up the callstack the address is contained in, or none if it's not contained in
/// any frame.
pub fn contained_in_callstack(builder: &TraceBuilder, addr: u64) -> (result: Option<usize>)
    ensures
        match (result, level_of(builder@, addr)) {
            (Some(level), Some(model)) => level == model && 1 <= level <= builder@.stack.len(),
            (None, None) => true,
            _ => false,
        },
{
    let callers: usize = builder.callers();
    let mut i: usize = 0;
    while i < callers
        invariant
            i <= callers,
            callers == builder@.stack.len(),
            level_of(builder@, addr) == level_from(builder@, addr, i + 1),
        decreases callers - i,
    {
        if builder.get_frame_symbol(i + 1).contains(addr) {
            return Some(i + 1);
        }
        i += 1;
    }
    None
}

/// Ends the given number of frames. The recording may be done before the last of them.
pub fn process_return_event(builder: TraceBuilder, metrics: Metrics, levels: usize) -> (result:
    Result<BuilderResult, Fault>)
    requires
        builder.wf(),
    ensures
        match (result, returned(builder@, metrics, levels as nat)) {
            (Ok(outcome), Ok(model)) => outcome.model() == model,
            (Err(fault), Err(model)) => fault == model,
            _ => false,
        },
        result matches Ok(BuilderResult::Builder(after)) ==> after.wf(),
        result matches Ok(BuilderResult::Completed(trace)) ==> indexed_by(
            trace@.root,
            trace@.symbols,
        ),
{
    let ghost first = builder@;
    let mut now = builder;
    let mut left: usize = levels;
    while left > 0
        invariant
            first == builder@,
            now.wf(),
            returned(first, metrics, levels as nat) == returned(now@, metrics, left as nat),
        decreases left,
    {
        if !now.last_seen().at_most(&metrics) {
            return Err(Fault::NotMonotonic);
        }
        if !MetricsRange::can_span(&now.frame_start(), &metrics) {
            return Err(Fault::TooLong);
        }
        now = match now.complete_frame(metrics, None) {
            Ok(BuilderResult::Builder(outer)) => outer,
            Ok(BuilderResult::Completed(trace)) => {
                return Ok(BuilderResult::Completed(trace));
            },
            Err(error) => {
                return Err(Fault::Unplaced(error));
            },
        };
        left -= 1;
    }
    Ok(BuilderResult::Builder(now))
}

/// A call of the target.
pub fn process_call_event(builder: TraceBuilder, metrics: Metrics, call_target: SymbolInfo) -> (result:
    Result<BuilderResult, Fault>)
    requires
        builder.wf(),
    ensures
        match (result, called(builder@, metrics, call_target@)) {
            (Ok(outcome), Ok(model)) => outcome.model() == model,
            (Err(fault), Err(model)) => fault == model,
            _ => false,
        },
        result matches Ok(BuilderResult::Builder(after)) ==> after.wf(),
        result matches Ok(BuilderResult::Completed(trace)) ==> indexed_by(
            trace@.root,
            trace@.symbols,
        ),
{
    let ghost first = builder@;
    let callers: usize = builder.callers();
    if call_target == *builder.get_frame_symbol(callers) {
        proof {
            returned_in_parts(first, metrics, callers as nat, 1);
        }
        match process_return_event(builder, metrics, callers) {
            Ok(BuilderResult::Builder(outer)) => process_return_event(outer, metrics, 1),
            other => other,
        }
    } else {
        let mut builder = builder;
        if !builder.last_seen().at_most(&metrics) {
            return Err(Fault::NotMonotonic);
        }
        builder.push_frame(metrics, call_target);
        Ok(BuilderResult::Builder(builder))
    }
}

/// Whether the branch is taken for a call of the outermost function.
pub fn calls_root(builder: &TraceBuilder, sample: &Sample, target_symbol: &SymbolInfo) -> (result: bool)
    ensures
        result == root_called(builder@, *sample, target_symbol@),
{
    let callers: usize = builder.callers();
    let current_symbol = builder.get_frame_symbol(0);
    if *target_symbol != *builder.get_frame_symbol(callers) {
        false
    } else if current_symbol.offset == 0 {
        target_symbol.offset != 0 && callers >= 2 && contained_in_callstack(
            builder,
            sample.addr,
        ).is_none()
    } else if current_symbol.contains(sample.addr) {
        false
    } else {
        sample.has(FLAG_CALL) || (contained_in_callstack(builder, sample.addr).is_none() && !(
        sample.has(FLAG_RETURN) && callers == 0))
    }
}

/// Does to the callstack what the branch is taken for.
pub fn process_turn(
    builder: TraceBuilder,
    metrics: Metrics,
    sample: &Sample,
    target_symbol: SymbolInfo,
) -> (result: Result<BuilderResult, Fault>)
    requires
        builder.wf(),
    ensures
        match (result, turned(builder@, metrics, *sample, target_symbol@)) {
            (Ok(outcome), Ok(model)) => outcome.model() == model,
            (Err(fault), Err(model)) => fault == model,
            _ => false,
        },
        result matches Ok(BuilderResult::Builder(after)) ==> after.wf(),
        result matches Ok(BuilderResult::Completed(trace)) ==> indexed_by(
            trace@.root,
            trace@.symbols,
        ),
{
    let current_symbol = builder.get_frame_symbol(0);
    if current_symbol.offset == 0 {
        if target_symbol.offset == 0 {
            return Ok(BuilderResult::Builder(builder));
        }
        match contained_in_callstack(&builder, sample.addr) {
            Some(levels) => process_return_event(builder, metrics, levels),
            None => match process_return_event(builder, metrics, 2) {
                Ok(BuilderResult::Builder(outer)) => process_call_event(
                    outer,
                    metrics,
                    target_symbol,
                ),
                other => other,
            },
        }
    } else if current_symbol.contains(sample.addr) {
        Ok(BuilderResult::Builder(builder))
    } else if sample.has(FLAG_CALL) {
        process_call_event(builder, metrics, target_symbol)
    } else {
        match contained_in_callstack(&builder, sample.addr) {
            Some(levels) => process_return_event(builder, metrics, levels),
            None => if sample.has(FLAG_RETURN) && builder.callers() == 0 {
                process_return_event(builder, metrics, 1)
            } else {
                process_call_event(builder, metrics, target_symbol)
            },
        }
    }
}

} // verus!

//! Building of traces, from calls, returns and pauses as they come.
use crate::text;
use crate::trace::cache::{self, symbol_place, with_symbol, SymbolCache};
use crate::trace::error::Error;
use crate::trace::event::{self, sorted_by_time, with_sample, Event, EventModel};
use crate::trace::frame::{self, indexed_by, slot, Frame, FrameModel, StoredModel};
use crate::trace::metrics::{Metrics, MetricsRange};
use crate::trace::record::{self, Trace, TraceModel};
use crate::trace::symbol::{SymbolInfo, SymbolModel};
use std::sync::Arc;
use vstd::prelude::*;

verus! {

/// How a frame is completed.
pub struct FrameCompletionOptions {
    /// Sometimes calling a function first goes to the Procedure Linkage Table (PLT) stub, which
    /// immediately jumps to the target function. The frame of the stub can be removed from the
    /// trace.
    pub remove_plt_stubs: bool,
}

impl Default for FrameCompletionOptions {
    fn default() -> (result: Self)
        ensures
            !result.remove_plt_stubs,
    {
        FrameCompletionOptions { remove_plt_stubs: false }
    }
}

/// The name ends as those of stubs do.
pub open spec fn ends_as_stub(name: Seq<char>) -> bool {
    "@plt"@.len() <= name.len() && name.skip(name.len() - "@plt"@.len()) == "@plt"@
}

/// The name without the endings of stubs.
pub open spec fn without_stub_endings(name: Seq<char>) -> Seq<char>
    decreases name.len(),
{
    if ends_as_stub(name) && "@plt"@.len() > 0 {
        without_stub_endings(name.take(name.len() - "@plt"@.len()))
    } else {
        name
    }
}

/// The parent is the stub of the child.
pub open spec fn plt_stub(parent: Seq<char>, child: Seq<char>) -> bool {
    ends_as_stub(parent) && child == without_stub_endings(parent)
}

/// A frame whose end has not come yet.
pub struct IncompleteFrame {
    pub start_metrics: Metrics,
    pub child_frames: Vec<Frame>,
    pub pauses: Vec<MetricsRange>,
    pub symbol_idx: usize,
    pub symbol: Arc<SymbolInfo>,
}

#[verifier::ext_equal]
pub struct IncompleteModel {
    pub start: Metrics,
    pub children: Seq<FrameModel>,
    pub pauses: Seq<MetricsRange>,
    pub symbol_idx: usize,
    pub symbol: SymbolModel,
}

/// The models of a list of frames.
pub open spec fn child_models(frames: Seq<Frame>) -> Seq<FrameModel> {
    Seq::new(frames.len(), |i: int| frames[i]@)
}

impl View for IncompleteFrame {
    type V = IncompleteModel;

    open spec fn view(&self) -> IncompleteModel {
        IncompleteModel {
            start: self.start_metrics,
            children: child_models(self.child_frames@),
            pauses: self.pauses@,
            symbol_idx: self.symbol_idx,
            symbol: self.symbol@,
        }
    }
}

impl IncompleteModel {
    /// The ranges of calls and pauses end where samples can be held.
    pub open spec fn tidy(self) -> bool {
        &&& forall|i: int| 0 <= i < self.children.len() ==> (#[trigger] self.children[i]).metrics.fits()
        &&& forall|i: int| 0 <= i < self.pauses.len() ==> (#[trigger] self.pauses[i]).fits()
    }
}

/// Calls and pauses by turns: a call goes first if it starts before the next pause.
pub open spec fn by_turns(children: Seq<FrameModel>, pauses: Seq<MetricsRange>) -> Seq<StoredModel>
    decreases children.len() + pauses.len(),
{
    if children.len() > 0 && (pauses.len() == 0 || children[0].metrics.start.ts
        < pauses[0].start.ts) {
        seq![StoredModel::Frame(children[0])] + by_turns(children.drop_first(), pauses)
    } else if pauses.len() > 0 {
        seq![StoredModel::Pause(pauses[0])] + by_turns(children, pauses.drop_first())
    } else {
        Seq::empty()
    }
}

/// The frame with the chunks stored one after the other, each in the last gap that takes it; or
/// the error for the first that finds none.
pub open spec fn with_chunks(frame: FrameModel, chunks: Seq<StoredModel>) -> Result<FrameModel, Error>
    decreases chunks.len(),
{
    if chunks.len() == 0 {
        Ok(frame)
    } else {
        match slot(frame.metrics, frame.chunks, chunks[0].range()) {
            Some(k) => with_chunks(frame.with_chunk(k, chunks[0]), chunks.drop_first()),
            None => Err(Error::InvalidRange(chunks[0].range())),
        }
    }
}

/// The incomplete frame is that of a stub which does nothing but call its target.
pub open spec fn removable_stub(incomplete: IncompleteModel) -> bool {
    &&& incomplete.children.len() == 1
    &&& incomplete.pauses.len() == 0
    &&& plt_stub(incomplete.symbol.name, incomplete.children[0].symbol.name)
}

/// What an incomplete frame becomes when it ends.
pub open spec fn completed(
    incomplete: IncompleteModel,
    end: Metrics,
    remove_plt_stubs: bool,
) -> Result<FrameModel, Error> {
    let range = MetricsRange::between(incomplete.start, end);
    if remove_plt_stubs && removable_stub(incomplete) {
        Ok(FrameModel { metrics: range, ..incomplete.children[0] })
    } else {
        with_chunks(
            FrameModel {
                symbol_idx: incomplete.symbol_idx,
                symbol: incomplete.symbol,
                metrics: range,
                annotations: None,
                chunks: Seq::empty(),
            },
            by_turns(incomplete.children, incomplete.pauses),
        )
    }
}

/// Whether the characters from the given place on are `@plt`.
fn stub_ending_at(chars: &Vec<char>, from: usize) -> (result: bool)
    requires
        from + 4 <= chars.len(),
    ensures
        result == (chars@.subrange(from as int, from + 4) == "@plt"@),
{
    proof {
        reveal_strlit("@plt");
    }
    let ghost part = chars@.subrange(from as int, from + 4);
    let result = chars[from] == '@' && chars[from + 1] == 'p' && chars[from + 2] == 'l'
        && chars[from + 3] == 't';
    proof {
        assert(part[0] == chars@[from as int]);
        assert(part[1] == chars@[from + 1]);
        assert(part[2] == chars@[from + 2]);
        assert(part[3] == chars@[from + 3]);
        if result {
            assert(part =~= "@plt"@);
        }
    }
    result
}

/// Whether the parent is the PLT stub of the child.
pub fn is_plt_stub(parent_symbol: &SymbolInfo, child_symbol: &SymbolInfo) -> (result: bool)
    ensures
        result == plt_stub(parent_symbol@.name, child_symbol@.name),
{
    proof {
        reveal_strlit("@plt");
    }
    let chars = text::characters(parent_symbol.name.as_str());
    let ghost name = chars@;
    let mut len: usize = chars.len();
    assert(name.take(len as int) =~= name);
    while len >= 4 && stub_ending_at(&chars, len - 4)
        invariant
            len <= chars.len(),
            name == chars@,
            "@plt"@.len() == 4,
            without_stub_endings(name) == without_stub_endings(name.take(len as int)),
            len < chars.len() ==> ends_as_stub(name),
        decreases len,
    {
        proof {
            let here = name.take(len as int);
            assert(here.skip(len - 4) =~= name.subrange(len - 4, len as int));
            assert(here.take(len - 4) =~= name.take(len - 4));
        }
        len -= 4;
    }
    proof {
        let here = name.take(len as int);
        if len >= 4 {
            assert(here.skip(len - 4) =~= name.subrange(len - 4, len as int));
        }
        assert(!ends_as_stub(here));
        assert(without_stub_endings(name) == here);
    }
    if len == chars.len() {
        assert(name.take(len as int) =~= name);
        return false;
    }
    let stem = text::from_characters(vstd::slice::slice_subrange(chars.as_slice(), 0, len));
    assert(stem@ =~= name.take(len as int));
    child_symbol.name == stem
}

impl IncompleteFrame {
    /// Completes the frame, which ends at the given metrics.
    ///
    /// Fails with the range of a call or pause that finds no place in the frame.
    pub fn complete(self, end_metrics: &Metrics, options: FrameCompletionOptions) -> (result: Result<
        Frame,
        Error,
    >)
        requires
            self@.tidy(),
            MetricsRange::spans(self@.start, *end_metrics),
        ensures
            match (result, completed(self@, *end_metrics, options.remove_plt_stubs)) {
                (Ok(frame), Ok(model)) => frame@ == model && frame@.metrics
                    == MetricsRange::between(self@.start, *end_metrics),
                (Err(error), Err(model)) => error == model,
                _ => false,
            },
    {
        let ghost model = self@;
        let IncompleteFrame { start_metrics, child_frames, pauses, symbol_idx, symbol } = self;
        let mut child_frames = child_frames;
        let mut pauses = pauses;
        let range = MetricsRange::new(start_metrics, end_metrics);
        if options.remove_plt_stubs && child_frames.len() == 1 && pauses.len() == 0 && is_plt_stub(
            &symbol,
            &child_frames[0].symbol,
        ) {
            assert(model.children[0] == child_frames@[0]@);
            let mut child = child_frames.remove(0);
            let ghost whole = child;
            child.metrics = range;
            proof {
                frame::frame_view(&whole);
                frame::frame_view(&child);
            }
            return Ok(child);
        }
        proof {
            if child_frames.len() == 1 {
                assert(model.children[0] == child_frames@[0]@);
            }
        }
        let mut frame = Frame::new(range, symbol_idx, symbol);
        let ghost base = frame@;
        let ghost chunks = by_turns(model.children, model.pauses);
        proof {
            assert forall|i: int| 0 <= i < child_frames.len() implies (
            #[trigger] child_frames@[i])@.metrics.fits() by {
                assert(model.children[i] == child_frames@[i]@);
            }
            assert forall|i: int| 0 <= i < pauses.len() implies (#[trigger] pauses@[i]).fits() by {
                assert(model.pauses[i] == pauses@[i]);
            }
        }
        while child_frames.len() > 0 || pauses.len() > 0
            invariant
                model == self@,
                frame@.ordered(),
                frame@.metrics == range,
                forall|i: int|
                    0 <= i < child_frames.len() ==> (
                    #[trigger] child_frames@[i])@.metrics.fits(),
                forall|i: int| 0 <= i < pauses.len() ==> (#[trigger] pauses@[i]).fits(),
                with_chunks(base, chunks) == with_chunks(
                    frame@,
                    by_turns(child_models(child_frames@), pauses@),
                ),
                range == MetricsRange::between(model.start, *end_metrics),
                completed(model, *end_metrics, options.remove_plt_stubs) == with_chunks(
                    base,
                    chunks,
                ),
            decreases child_frames.len() + pauses.len(),
        {
            let ghost children_now = child_models(child_frames@);
            let ghost pauses_now = pauses@;
            let ghost now = by_turns(children_now, pauses_now);
            let child_first = child_frames.len() > 0 && (pauses.len() == 0
                || child_frames[0].metrics.start.ts < pauses[0].start.ts);
            if child_first {
                assert(children_now[0] == child_frames@[0]@);
                assert(now.drop_first() =~= by_turns(children_now.drop_first(), pauses_now));
                let child = child_frames.remove(0);
                assert(child_models(child_frames@) =~= children_now.drop_first());
                let added = frame.add_child(child);
                if let Err(error) = added {
                    return Err(error);
                }
            } else {
                assert(now.drop_first() =~= by_turns(children_now, pauses_now.drop_first()));
                assert(pauses_now[0].fits());
                let pause = pauses.remove(0);
                assert(pauses@ =~= pauses_now.drop_first());
                let added = frame.add_pause(pause);
                if let Err(error) = added {
                    return Err(error);
                }
            }
        }
        Ok(frame)
    }
}

/// A trace that is being recorded.
pub struct TraceBuilder {
    last_metrics: Metrics,
    symbol_cache: SymbolCache,
    current_frame: IncompleteFrame,
    callstack: Vec<IncompleteFrame>,
    events: Vec<Event>,
}

/// A trace whose recording has paused.
pub struct PausedTraceBuilder {
    inner: TraceBuilder,
    pause_start: Metrics,
}

/// What a builder becomes when a frame is completed.
pub enum BuilderResult {
    Builder(TraceBuilder),
    Completed(Trace),
}

#[verifier::ext_equal]
pub struct BuilderModel {
    /// The metrics last seen.
    pub last: Metrics,
    pub table: Seq<SymbolModel>,
    pub current: IncompleteModel,
    /// The frames that the current one is nested in, from the outside in.
    pub stack: Seq<IncompleteModel>,
    pub events: Seq<EventModel>,
}

#[verifier::ext_equal]
pub struct PausedModel {
    pub inner: BuilderModel,
    pub start: Metrics,
}

/// The models of the frames of a callstack.
pub open spec fn stack_models(stack: Seq<IncompleteFrame>) -> Seq<IncompleteModel> {
    Seq::new(stack.len(), |i: int| stack[i]@)
}

/// A frame that has just begun.
pub open spec fn begun(start: Metrics, symbol_idx: usize, symbol: SymbolModel) -> IncompleteModel {
    IncompleteModel { start, children: Seq::empty(), pauses: Seq::empty(), symbol_idx, symbol }
}

/// The events with one more occurence of each that has the id.
pub open spec fn with_occurence(events: Seq<EventModel>, id: u32, sample: Metrics) -> Seq<
    EventModel,
> {
    Seq::new(
        events.len(),
        |i: int|
            if events[i].id == id {
                EventModel { occurences: with_sample(events[i].occurences, sample), ..events[i] }
            } else {
                events[i]
            },
    )
}

/// The calls in an incomplete frame stand in the table of symbols under their indices.
pub open spec fn calls_indexed(frame: IncompleteModel, table: Seq<SymbolModel>) -> bool {
    forall|i: int| 0 <= i < frame.children.len() ==> indexed_by(#[trigger] frame.children[i], table)
}

/// The frame itself stands in the table of symbols under its index.
pub open spec fn itself_indexed(frame: IncompleteModel, table: Seq<SymbolModel>) -> bool {
    frame.symbol_idx < table.len() && table[frame.symbol_idx as int] == frame.symbol
}

/// The frames stand in the table of symbols under their indices.
pub open spec fn symbols_in_step(builder: BuilderModel) -> bool {
    &&& calls_indexed(builder.current, builder.table)
    &&& itself_indexed(builder.current, builder.table)
    &&& forall|i: int|
        0 <= i < builder.stack.len() ==> calls_indexed(#[trigger] builder.stack[i], builder.table)
            && itself_indexed(builder.stack[i], builder.table)
}

/// What a completed frame leads to.
pub enum OutcomeModel {
    Going(BuilderModel),
    Done(TraceModel),
}

impl BuilderModel {
    /// Ranges of calls and pauses end where samples can be held, and events are sorted by time.
    pub open spec fn tidy(self) -> bool {
        &&& self.current.tidy()
        &&& forall|i: int| 0 <= i < self.stack.len() ==> (#[trigger] self.stack[i]).tidy()
        &&& forall|i: int|
            0 <= i < self.events.len() ==> sorted_by_time((#[trigger] self.events[i]).occurences)
    }

    /// The builder after a call.
    pub open spec fn pushed(self, metrics: Metrics, symbol: SymbolModel) -> BuilderModel {
        let table = with_symbol(self.table, symbol);
        BuilderModel {
            last: metrics,
            table,
            current: begun(metrics, symbol_place(table, symbol) as usize, symbol),
            stack: self.stack.push(self.current),
            ..self
        }
    }

    /// The builder, or the trace, after the end of the current frame.
    pub open spec fn popped(self, end: Metrics, remove_plt_stubs: bool) -> Result<
        OutcomeModel,
        Error,
    > {
        match completed(self.current, end, remove_plt_stubs) {
            Ok(frame) => if self.stack.len() == 0 {
                Ok(
                    OutcomeModel::Done(
                        TraceModel { symbols: self.table, root: frame, events: self.events },
                    ),
                )
            } else {
                let outer = self.stack.last();
                Ok(
                    OutcomeModel::Going(
                        BuilderModel {
                            last: end,
                            current: IncompleteModel {
                                children: outer.children.push(frame),
                                ..outer
                            },
                            stack: self.stack.drop_last(),
                            ..self
                        },
                    ),
                )
            },
            Err(error) => Err(error),
        }
    }

    /// The builder after a pause.
    pub open spec fn resumed(self, start: Metrics, end: Metrics) -> BuilderModel {
        BuilderModel {
            last: end,
            current: IncompleteModel {
                pauses: self.current.pauses.push(MetricsRange::between(start, end)),
                ..self.current
            },
            ..self
        }
    }

    /// The symbol of a frame; zero is the innermost, higher indices go outwards.
    pub open spec fn frame_symbol(self, index: int) -> SymbolModel {
        if index == 0 {
            self.current.symbol
        } else {
            self.stack[self.stack.len() - index].symbol
        }
    }
}

/// What holds of all calls and pauses holds of the chunks that they are stored as.
proof fn by_turns_all(
    children: Seq<FrameModel>,
    pauses: Seq<MetricsRange>,
    p: spec_fn(StoredModel) -> bool,
)
    requires
        forall|i: int| 0 <= i < children.len() ==> p(StoredModel::Frame(#[trigger] children[i])),
        forall|i: int| 0 <= i < pauses.len() ==> p(StoredModel::Pause(#[trigger] pauses[i])),
    ensures
        forall|i: int|
            0 <= i < by_turns(children, pauses).len() ==> p(
                #[trigger] by_turns(children, pauses)[i],
            ),
    decreases children.len() + pauses.len(),
{
    let all = by_turns(children, pauses);
    if children.len() > 0 && (pauses.len() == 0 || children[0].metrics.start.ts
        < pauses[0].start.ts) {
        let left = children.drop_first();
        assert forall|i: int| 0 <= i < left.len() implies p(
            StoredModel::Frame(#[trigger] left[i]),
        ) by {
            assert(left[i] == children[i + 1]);
        }
        by_turns_all(left, pauses, p);
        let rest = by_turns(left, pauses);
        assert forall|i: int| 0 <= i < all.len() implies p(#[trigger] all[i]) by {
            if i > 0 {
                assert(all[i] == rest[i - 1]);
            } else {
                assert(all[i] == StoredModel::Frame(children[0]));
            }
        }
    } else if pauses.len() > 0 {
        let left = pauses.drop_first();
        assert forall|i: int| 0 <= i < left.len() implies p(
            StoredModel::Pause(#[trigger] left[i]),
        ) by {
            assert(left[i] == pauses[i + 1]);
        }
        by_turns_all(children, left, p);
        let rest = by_turns(children, left);
        assert forall|i: int| 0 <= i < all.len() implies p(#[trigger] all[i]) by {
            if i > 0 {
                assert(all[i] == rest[i - 1]);
            } else {
                assert(all[i] == StoredModel::Pause(pauses[0]));
            }
        }
    }
}

/// What holds of all chunks of a frame and of those that are added holds of all in the end. All else
/// of the frame stays as it is.
proof fn with_chunks_all(
    frame: FrameModel,
    chunks: Seq<StoredModel>,
    p: spec_fn(StoredModel) -> bool,
)
    requires
        forall|i: int| 0 <= i < frame.chunks.len() ==> p(#[trigger] frame.chunks[i]),
        forall|i: int| 0 <= i < chunks.len() ==> p(#[trigger] chunks[i]),
    ensures
        with_chunks(frame, chunks) matches Ok(after) ==> {
            &&& after == (FrameModel { chunks: after.chunks, ..frame })
            &&& forall|i: int| 0 <= i < after.chunks.len() ==> p(#[trigger] after.chunks[i])
        },
    decreases chunks.len(),
{
    if chunks.len() > 0 {
        if let Some(k) = slot(frame.metrics, frame.chunks, chunks[0].range()) {
            frame::slot_is_last(
                frame.metrics,
                frame.chunks,
                frame.chunks.len() as int,
                chunks[0].range(),
            );
            let next = frame.with_chunk(k, chunks[0]);
            assert forall|i: int| 0 <= i < next.chunks.len() implies p(#[trigger] next.chunks[i]) by {
                if i < k {
                    assert(next.chunks[i] == frame.chunks[i]);
                } else if i > k {
                    assert(next.chunks[i] == frame.chunks[i - 1]);
                } else {
                    assert(next.chunks[i] == chunks[0]);
                }
            }
            let rest = chunks.drop_first();
            assert forall|i: int| 0 <= i < rest.len() implies p(#[trigger] rest[i]) by {
                assert(rest[i] == chunks[i + 1]);
            }
            with_chunks_all(next, rest, p);
        }
    }
}

/// What holds of all calls and pauses holds of all chunks of the completed frame, unless that takes
/// the place of a stub. All else of the frame is as it was.
proof fn completed_from_all(
    incomplete: IncompleteModel,
    end: Metrics,
    remove_plt_stubs: bool,
    p: spec_fn(StoredModel) -> bool,
)
    requires
        !(remove_plt_stubs && removable_stub(incomplete)),
        forall|i: int|
            0 <= i < incomplete.children.len() ==> p(
                StoredModel::Frame(#[trigger] incomplete.children[i]),
            ),
        forall|i: int|
            0 <= i < incomplete.pauses.len() ==> p(
                StoredModel::Pause(#[trigger] incomplete.pauses[i]),
            ),
    ensures
        completed(incomplete, end, remove_plt_stubs) matches Ok(frame) ==> {
            &&& frame.symbol_idx == incomplete.symbol_idx
            &&& frame.symbol == incomplete.symbol
            &&& frame.annotations is None
            &&& forall|i: int| 0 <= i < frame.chunks.len() ==> p(#[trigger] frame.chunks[i])
        },
{
    let base = FrameModel {
        symbol_idx: incomplete.symbol_idx,
        symbol: incomplete.symbol,
        metrics: MetricsRange::between(incomplete.start, end),
        annotations: None,
        chunks: Seq::empty(),
    };
    by_turns_all(incomplete.children, incomplete.pauses, p);
    with_chunks_all(base, by_turns(incomplete.children, incomplete.pauses), p);
}

/// A completed frame stands in the table of symbols under its index, and so do all frames in it.
pub proof fn completed_is_indexed(
    incomplete: IncompleteModel,
    end: Metrics,
    remove_plt_stubs: bool,
    table: Seq<SymbolModel>,
)
    requires
        calls_indexed(incomplete, table),
        itself_indexed(incomplete, table),
    ensures
        completed(incomplete, end, remove_plt_stubs) matches Ok(frame) ==> indexed_by(frame, table),
{
    let range = MetricsRange::between(incomplete.start, end);
    if remove_plt_stubs && removable_stub(incomplete) {
        let child = incomplete.children[0];
        let frame = FrameModel { metrics: range, ..child };
        assert(indexed_by(child, table));
        assert forall|i: int| 0 <= i < frame.chunks.len() implies match #[trigger] frame.chunks[i] {
            StoredModel::Frame(inner) => indexed_by(inner, table),
            StoredModel::Pause(_) => true,
        } by {
            assert(frame.chunks[i] == child.chunks[i]);
        }
    } else {
        let p = |chunk: StoredModel|
            match chunk {
                StoredModel::Frame(child) => indexed_by(child, table),
                StoredModel::Pause(_) => true,
            };
        completed_from_all(incomplete, end, remove_plt_stubs, p);
        if let Ok(frame) = completed(incomplete, end, remove_plt_stubs) {
            assert forall|i: int| 0 <= i < frame.chunks.len() implies match #[trigger] frame.chunks[i] {
                StoredModel::Frame(child) => indexed_by(child, table),
                StoredModel::Pause(_) => true,
            } by {
                assert(p(frame.chunks[i]));
            }
        }
    }
}

/// A completed frame keeps its symbol, where frames of stubs are not removed.
pub proof fn completed_keeps_symbol(incomplete: IncompleteModel, end: Metrics)
    ensures
        completed(incomplete, end, false) matches Ok(frame) ==> frame.symbol == incomplete.symbol,
{
    completed_from_all(incomplete, end, false, |chunk: StoredModel| true);
}

/// In the annotations of the calls that are done, no name stands twice.
pub open spec fn calls_well_annotated(frame: IncompleteModel) -> bool {
    forall|i: int| 0 <= i < frame.children.len() ==> (#[trigger] frame.children[i]).well_annotated()
}

/// In the annotations of all calls that are done, no name stands twice.
pub open spec fn all_well_annotated(builder: BuilderModel) -> bool {
    &&& calls_well_annotated(builder.current)
    &&& forall|i: int|
        0 <= i < builder.stack.len() ==> calls_well_annotated(#[trigger] builder.stack[i])
}

/// A trace that is recorded has no name twice in its annotations: where that holds of the calls that
/// are done, it holds after the end of a frame too, and of a trace that comes out.
pub proof fn return_keeps_annotations(builder: BuilderModel, end: Metrics, remove_plt_stubs: bool)
    requires
        all_well_annotated(builder),
    ensures
        match builder.popped(end, remove_plt_stubs) {
            Ok(OutcomeModel::Going(after)) => all_well_annotated(after),
            Ok(OutcomeModel::Done(trace)) => trace.root.well_annotated(),
            Err(_) => true,
        },
{
    let current = builder.current;
    let p = |chunk: StoredModel|
        match chunk {
            StoredModel::Frame(child) => child.well_annotated(),
            StoredModel::Pause(_) => true,
        };
    if let Ok(frame) = completed(current, end, remove_plt_stubs) {
        if remove_plt_stubs && removable_stub(current) {
            let child = current.children[0];
            assert(child.well_annotated());
            assert forall|i: int| 0 <= i < frame.chunks.len() implies match #[trigger] frame.chunks[i] {
                StoredModel::Frame(inner) => inner.well_annotated(),
                StoredModel::Pause(_) => true,
            } by {
                assert(frame.chunks[i] == child.chunks[i]);
            }
        } else {
            completed_from_all(current, end, remove_plt_stubs, p);
            assert forall|i: int| 0 <= i < frame.chunks.len() implies match #[trigger] frame.chunks[i] {
                StoredModel::Frame(inner) => inner.well_annotated(),
                StoredModel::Pause(_) => true,
            } by {
                assert(p(frame.chunks[i]));
            }
        }
        assert(frame.well_annotated());
        if builder.stack.len() > 0 {
            let outer = builder.stack.last();
            assert(outer == builder.stack[builder.stack.len() - 1]);
            let after = builder.popped(end, remove_plt_stubs)->Ok_0->Going_0;
            assert forall|i: int| 0 <= i < after.current.children.len() implies (
            #[trigger] after.current.children[i]).well_annotated() by {
                if i < outer.children.len() {
                    assert(after.current.children[i] == outer.children[i]);
                }
            }
            assert forall|i: int| 0 <= i < after.stack.len() implies calls_well_annotated(
                #[trigger] after.stack[i],
            ) by {
                assert(after.stack[i] == builder.stack[i]);
            }
        }
    }
}

/// Calls and pauses leave the annotations of the calls that are done as they are.
pub proof fn call_and_pause_keep_annotations(
    builder: BuilderModel,
    metrics: Metrics,
    symbol: SymbolModel,
    start: Metrics,
    end: Metrics,
)
    requires
        all_well_annotated(builder),
    ensures
        all_well_annotated(builder.pushed(metrics, symbol)),
        all_well_annotated(builder.resumed(start, end)),
{
    let called = builder.pushed(metrics, symbol);
    assert forall|i: int| 0 <= i < called.stack.len() implies calls_well_annotated(
        #[trigger] called.stack[i],
    ) by {
        if i < builder.stack.len() {
            assert(called.stack[i] == builder.stack[i]);
        }
    }
    let paused = builder.resumed(start, end);
    assert forall|i: int| 0 <= i < paused.stack.len() implies calls_well_annotated(
        #[trigger] paused.stack[i],
    ) by {
        assert(paused.stack[i] == builder.stack[i]);
    }
}

/// A trace begins with its outermost frame in the table of symbols under its index.
pub proof fn begins_with_symbol(builder: BuilderModel, symbol: SymbolModel)
    requires
        builder.table == seq![symbol],
        builder.current == begun(builder.last, 0, symbol),
        builder.stack == Seq::<IncompleteModel>::empty(),
    ensures
        symbols_in_step(builder),
{
}

/// A call keeps the frames in the table of symbols under their indices.
pub proof fn call_keeps_symbols(builder: BuilderModel, metrics: Metrics, symbol: SymbolModel)
    requires
        symbols_in_step(builder),
        builder.pushed(metrics, symbol).table.len() <= usize::MAX,
    ensures
        symbols_in_step(builder.pushed(metrics, symbol)),
{
    let after = builder.pushed(metrics, symbol);
    let table = after.table;
    cache::symbol_place_is_first(table, symbol);
    assert(table.contains(symbol)) by {
        if !builder.table.contains(symbol) {
            assert(table[builder.table.len() as int] == symbol);
        }
    }
    assert forall|i: int| 0 <= i < builder.table.len() implies #[trigger] table[i]
        == builder.table[i] by {}
    assert forall|i: int| 0 <= i < after.stack.len() implies calls_indexed(
        #[trigger] after.stack[i],
        table,
    ) && itself_indexed(after.stack[i], table) by {
        let inner = if i < builder.stack.len() {
            builder.stack[i]
        } else {
            builder.current
        };
        assert(after.stack[i] == inner);
        assert(calls_indexed(inner, builder.table));
        assert forall|j: int| 0 <= j < inner.children.len() implies indexed_by(
            #[trigger] inner.children[j],
            table,
        ) by {
            frame::indexed_by_grown(inner.children[j], builder.table, table);
        }
    }
}

/// The end of a frame keeps the frames in the table of symbols under their indices, and so it is in
/// a trace that comes out.
pub proof fn return_keeps_symbols(builder: BuilderModel, end: Metrics, remove_plt_stubs: bool)
    requires
        symbols_in_step(builder),
    ensures
        match builder.popped(end, remove_plt_stubs) {
            Ok(OutcomeModel::Going(after)) => symbols_in_step(after),
            Ok(OutcomeModel::Done(trace)) => indexed_by(trace.root, trace.symbols),
            Err(_) => true,
        },
{
    completed_is_indexed(builder.current, end, remove_plt_stubs, builder.table);
    if let Ok(frame) = completed(builder.current, end, remove_plt_stubs) {
        if builder.stack.len() > 0 {
            let at = builder.stack.len() - 1;
            let outer = builder.stack.last();
            assert(outer == builder.stack[at]);
            let after = builder.popped(end, remove_plt_stubs)->Ok_0->Going_0;
            assert forall|i: int| 0 <= i < after.current.children.len() implies indexed_by(
                #[trigger] after.current.children[i],
                after.table,
            ) by {
                if i < outer.children.len() {
                    assert(after.current.children[i] == outer.children[i]);
                }
            }
            assert forall|i: int| 0 <= i < after.stack.len() implies calls_indexed(
                #[trigger] after.stack[i],
                after.table,
            ) && itself_indexed(after.stack[i], after.table) by {
                assert(after.stack[i] == builder.stack[i]);
            }
        }
    }
}

/// A trace that has been recorded is read back as it was written.
pub proof fn recorded_is_read_back(builder: BuilderModel, end: Metrics, remove_plt_stubs: bool)
    requires
        symbols_in_step(builder),
    ensures
        builder.popped(end, remove_plt_stubs) matches Ok(OutcomeModel::Done(trace)) ==> record::read(
            record::write(trace),
        ) == Ok::<TraceModel, usize>(trace),
{
    return_keeps_symbols(builder, end, remove_plt_stubs);
    if let Ok(OutcomeModel::Done(trace)) = builder.popped(end, remove_plt_stubs) {
        record::read_after_write(trace);
    }
}

/// A pause keeps the frames in the table of symbols under their indices.
pub proof fn pause_keeps_symbols(builder: BuilderModel, start: Metrics, end: Metrics)
    requires
        symbols_in_step(builder),
    ensures
        symbols_in_step(builder.resumed(start, end)),
{
    let after = builder.resumed(start, end);
    assert forall|i: int| 0 <= i < after.stack.len() implies calls_indexed(
        #[trigger] after.stack[i],
        after.table,
    ) && itself_indexed(after.stack[i], after.table) by {
        assert(after.stack[i] == builder.stack[i]);
    }
}

impl BuilderResult {
    pub open spec fn model(self) -> OutcomeModel {
        match self {
            BuilderResult::Builder(builder) => OutcomeModel::Going(builder@),
            BuilderResult::Completed(trace) => OutcomeModel::Done(trace@),
        }
    }
}

impl TraceBuilder {
    pub closed spec fn view(&self) -> BuilderModel {
        BuilderModel {
            last: self.last_metrics,
            table: self.symbol_cache@,
            current: self.current_frame@,
            stack: stack_models(self.callstack@),
            events: event::event_models(self.events@),
        }
    }

    pub closed spec fn wf(&self) -> bool {
        self.symbol_cache.wf() && self@.tidy() && symbols_in_step(self@) && all_well_annotated(self@)
    }

    /// A trace that begins with a call of the symbol.
    pub fn new(start_metrics: Metrics, symbol: SymbolInfo) -> (result: Self)
        ensures
            result.wf(),
            result@ == (BuilderModel {
                last: start_metrics,
                table: seq![symbol@],
                current: begun(start_metrics, 0, symbol@),
                stack: Seq::empty(),
                events: Seq::empty(),
            }),
    {
        let ghost model = symbol@;
        let mut symbol_cache = SymbolCache::new(10000);
        let symbol_idx: usize = symbol_cache.get_or_insert(symbol);
        assert(symbol_cache@ =~= seq![model]);
        let symbol = symbol_cache.get_ref(symbol_idx);
        let result = TraceBuilder {
            last_metrics: start_metrics,
            symbol_cache,
            current_frame: IncompleteFrame {
                start_metrics,
                child_frames: Vec::new(),
                pauses: Vec::new(),
                symbol_idx,
                symbol,
            },
            callstack: Vec::new(),
            events: Vec::new(),
        };
        proof {
            assert(result@.current.children =~= Seq::empty());
            assert(result@.stack =~= Seq::empty());
            assert(result@.events =~= Seq::empty());
            begins_with_symbol(result@, model);
        }
        result
    }

    /// A call of the symbol. Metrics never decrease.
    pub fn push_frame(&mut self, metrics: Metrics, symbol: SymbolInfo)
        requires
            old(self).wf(),
            old(self)@.last.le_all(metrics),
        ensures
            final(self).wf(),
            final(self)@ == old(self)@.pushed(metrics, symbol@),
    {
        let ghost before = self@;
        self.last_metrics = metrics;
        let symbol_idx: usize = self.symbol_cache.get_or_insert(symbol);
        let mut frame = IncompleteFrame {
            start_metrics: metrics,
            child_frames: Vec::new(),
            pauses: Vec::new(),
            symbol_idx,
            symbol: self.symbol_cache.get_ref(symbol_idx),
        };
        assert(frame@.children =~= Seq::empty());
        std::mem::swap(&mut self.current_frame, &mut frame);
        self.callstack.push(frame);
        proof {
            assert(self@.stack =~= before.stack.push(before.current));
            assert(self@ =~= before.pushed(metrics, symbol@));
            call_keeps_symbols(before, metrics, symbol@);
            call_and_pause_keep_annotations(before, metrics, symbol@, metrics, metrics);
            assert forall|i: int| 0 <= i < self@.stack.len() implies (
            #[trigger] self@.stack[i]).tidy() by {
                if i < before.stack.len() {
                    assert(self@.stack[i] == before.stack[i]);
                }
            }
        }
    }

    /// The end of the current frame. Metrics never decrease.
    pub fn complete_frame(
        self,
        end_metrics: Metrics,
        options: Option<FrameCompletionOptions>,
    ) -> (result: Result<BuilderResult, Error>)
        requires
            self.wf(),
            self@.last.le_all(end_metrics),
            MetricsRange::spans(self@.current.start, end_metrics),
        ensures
            ({
                let remove = match options {
                    Some(o) => o.remove_plt_stubs,
                    None => false,
                };
                match (result, self@.popped(end_metrics, remove)) {
                    (Ok(outcome), Ok(model)) => outcome.model() == model,
                    (Err(error), Err(model)) => error == model,
                    _ => false,
                }
            }),
            result matches Ok(BuilderResult::Builder(builder)) ==> builder.wf(),
            result matches Ok(BuilderResult::Completed(trace)) ==> indexed_by(
                trace@.root,
                trace@.symbols,
            ) && trace@.root.well_annotated(),
    {
        let ghost before = self@;
        let options = match options {
            Some(o) => o,
            None => FrameCompletionOptions::default(),
        };
        proof {
            return_keeps_symbols(before, end_metrics, options.remove_plt_stubs);
            return_keeps_annotations(before, end_metrics, options.remove_plt_stubs);
        }
        let TraceBuilder { last_metrics, symbol_cache, current_frame, callstack, events } = self;
        let mut callstack = callstack;
        match callstack.pop() {
            None => {
                assert(before.stack =~= Seq::empty());
                match current_frame.complete(&end_metrics, options) {
                    Ok(frame) => Ok(
                        BuilderResult::Completed(
                            Trace::new(symbol_cache.into_symbols(), frame, events),
                        ),
                    ),
                    Err(error) => Err(error),
                }
            },
            Some(outer) => {
                assert(before.stack.last() == outer@);
                assert(stack_models(callstack@) =~= before.stack.drop_last());
                let mut outer = outer;
                let ghost outer_before = outer@;
                match current_frame.complete(&end_metrics, options) {
                    Ok(frame) => {
                        let ghost model = frame@;
                        outer.child_frames.push(frame);
                        assert(outer@.children =~= outer_before.children.push(model));
                        let builder = TraceBuilder {
                            last_metrics: end_metrics,
                            symbol_cache,
                            current_frame: outer,
                            callstack,
                            events,
                        };
                        proof {
                            assert(before.stack[before.stack.len() - 1].tidy());
                            assert forall|i: int| 0 <= i < builder@.current.children.len() implies (
                            #[trigger] builder@.current.children[i]).metrics.fits() by {
                                if i < outer_before.children.len() {
                                    assert(builder@.current.children[i] == outer_before.children[i]);
                                }
                            }
                            assert forall|i: int| 0 <= i < builder@.stack.len() implies (
                            #[trigger] builder@.stack[i]).tidy() by {
                                assert(builder@.stack[i] == before.stack[i]);
                            }
                        }
                        Ok(BuilderResult::Builder(builder))
                    },
                    Err(error) => Err(error),
                }
            },
        }
    }

    /// Declares an event.
    pub fn new_event(&mut self, id: u32, name: String, description: String)
        requires
            old(self).wf(),
        ensures
            final(self).wf(),
            final(self)@ == (BuilderModel {
                events: old(self)@.events.push(
                    EventModel {
                        id,
                        occurences: Seq::empty(),
                        name: name@,
                        description: description@,
                    },
                ),
                ..old(self)@
            }),
    {
        let ghost before = self@;
        let event = Event::new(id, name, description);
        let ghost model = event@;
        self.events.push(event);
        proof {
            assert(self@.events =~= before.events.push(model));
            assert forall|i: int| 0 <= i < self@.events.len() implies sorted_by_time(
                (#[trigger] self@.events[i]).occurences,
            ) by {
                if i < before.events.len() {
                    assert(self@.events[i] == before.events[i]);
                }
            }
        }
    }

    /// An occurence of the events with the id.
    pub fn event_occured(&mut self, event_id: u32, metrics: Metrics)
        requires
            old(self).wf(),
        ensures
            final(self).wf(),
            final(self)@ == (BuilderModel {
                events: with_occurence(old(self)@.events, event_id, metrics),
                ..old(self)@
            }),
    {
        let ghost before = self@;
        let ghost wanted = with_occurence(before.events, event_id, metrics);
        proof {
            assert forall|k: int| 0 <= k < self.events.len() implies sorted_by_time(
                (#[trigger] self.events@[k])@.occurences,
            ) by {
                assert(before.events[k] == self.events@[k]@);
            }
        }
        let mut i: usize = 0;
        while i < self.events.len()
            invariant
                i <= self.events.len(),
                before == old(self)@,
                before.tidy(),
                symbols_in_step(before),
                all_well_annotated(before),
                self.symbol_cache.wf(),
                wanted == with_occurence(before.events, event_id, metrics),
                self.events.len() == before.events.len(),
                self@ == (BuilderModel { events: self@.events, ..before }),
                forall|k: int|
                    0 <= k < self.events.len() ==> sorted_by_time(
                        (#[trigger] self.events@[k])@.occurences,
                    ),
                forall|k: int| 0 <= k < i ==> (#[trigger] self.events@[k])@ == wanted[k],
                forall|k: int|
                    i <= k < self.events.len() ==> (#[trigger] self.events@[k])@ == before.events[k],
            decreases self.events.len() - i,
        {
            let ghost events_now = self.events@;
            assert(events_now[i as int]@ == before.events[i as int]);
            if self.events[i].id == event_id {
                self.events[i].add_occurence(metrics);
                assert(self.events@[i as int]@ == wanted[i as int]);
            }
            i += 1;
        }
        proof {
            assert(self@.events =~= wanted);
            assert forall|k: int| 0 <= k < self@.events.len() implies sorted_by_time(
                (#[trigger] self@.events[k]).occurences,
            ) by {
                assert(sorted_by_time(self.events@[k]@.occurences));
            }
        }
    }

    /// How many frames are open.
    pub fn callstack_depth(&self) -> (result: usize)
        requires
            self@.stack.len() < usize::MAX,
        ensures
            result == self@.stack.len() + 1,
    {
        self.callstack.len() + 1
    }

    /// How many frames the current one is nested in.
    pub fn callers(&self) -> (result: usize)
        ensures
            result == self@.stack.len(),
    {
        self.callstack.len()
    }

    /// The metrics last seen.
    pub fn last_seen(&self) -> (result: Metrics)
        ensures
            result == self@.last,
    {
        self.last_metrics
    }

    /// The metrics at which the current frame began.
    pub fn frame_start(&self) -> (result: Metrics)
        ensures
            result == self@.current.start,
    {
        self.current_frame.start_metrics
    }

    /// The symbol of an open frame; zero is the innermost, higher indices go outwards.
    pub fn get_frame_symbol(&self, index: usize) -> (result: &SymbolInfo)
        requires
            index <= self@.stack.len(),
        ensures
            result@ == self@.frame_symbol(index as int),
    {
        if index == 0 {
            &self.current_frame.symbol
        } else {
            &self.callstack[self.callstack.len() - index].symbol
        }
    }

    /// Pauses the recording. It never fails.
    pub fn pause(self, metrics: Metrics) -> (result: Result<PausedTraceBuilder, Error>)
        requires
            self.wf(),
        ensures
            match result {
                Ok(paused) => paused.wf() && paused@ == (PausedModel {
                    inner: self@,
                    start: metrics,
                }),
                Err(_) => false,
            },
    {
        Ok(PausedTraceBuilder { inner: self, pause_start: metrics })
    }
}

impl PausedTraceBuilder {
    pub closed spec fn view(&self) -> PausedModel {
        PausedModel { inner: self.inner@, start: self.pause_start }
    }

    pub closed spec fn wf(&self) -> bool {
        self.inner.wf()
    }

    /// The metrics last seen before the pause.
    pub fn last_seen(&self) -> (result: Metrics)
        ensures
            result == self@.inner.last,
    {
        self.inner.last_seen()
    }

    /// The metrics at which the pause began.
    pub fn started(&self) -> (result: Metrics)
        ensures
            result == self@.start,
    {
        self.pause_start
    }

    /// The end of the pause. Metrics never decrease.
    pub fn resume(self, metrics: Metrics) -> (result: TraceBuilder)
        requires
            self.wf(),
            self@.inner.last.le_all(metrics),
            MetricsRange::spans(self@.start, metrics),
        ensures
            result.wf(),
            result@ == self@.inner.resumed(self@.start, metrics),
    {
        let ghost before = self@.inner;
        let PausedTraceBuilder { inner, pause_start } = self;
        let mut builder = inner;
        builder.last_metrics = metrics;
        builder.current_frame.pauses.push(MetricsRange::new(pause_start, &metrics));
        proof {
            assert(builder@ =~= before.resumed(pause_start, metrics));
            pause_keeps_symbols(before, pause_start, metrics);
            call_and_pause_keep_annotations(
                before,
                metrics,
                before.current.symbol,
                pause_start,
                metrics,
            );
            assert forall|i: int| 0 <= i < builder@.current.pauses.len() implies (
            #[trigger] builder@.current.pauses[i]).fits() by {
                if i < before.current.pauses.len() {
                    assert(builder@.current.pauses[i] == before.current.pauses[i]);
                }
            }
        }
        builder
    }
}

} // verus!

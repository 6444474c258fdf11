//! What is known of traces whose recording keeps to the order of time.
use crate::trace::builder::{
    begun, by_turns, completed, removable_stub, with_chunks, BuilderModel, IncompleteModel,
    OutcomeModel,
};
use crate::trace::frame::{
    self, gap_takes, in_order, insert_keeps_order, slot, slot_is_last, slot_up_to, FrameModel,
    StoredModel,
};
use crate::trace::metrics::{Metrics, MetricsRange};
use crate::trace::symbol::SymbolModel;
use vstd::prelude::*;

verus! {

/// One of the ranges ends before the other starts.
pub open spec fn apart(a: MetricsRange, b: MetricsRange) -> bool {
    a.spec_end().le_all(b.start) || b.spec_end().le_all(a.start)
}

/// The range lies between the two samples.
pub open spec fn within(range: MetricsRange, from: Metrics, to: Metrics) -> bool {
    range.fits() && from.le_all(range.start) && range.spec_end().le_all(to)
}

/// The calls and pauses of an incomplete frame lie between its start and the given sample, apart
/// from each other, and the calls are ordered in themselves.
pub open spec fn chronological(frame: IncompleteModel, upto: Metrics) -> bool {
    &&& frame.start.le_all(upto)
    &&& forall|i: int|
        0 <= i < frame.children.len() ==> within(
            (#[trigger] frame.children[i]).metrics,
            frame.start,
            upto,
        ) && frame.children[i].deeply_ordered()
    &&& forall|i: int|
        0 <= i < frame.pauses.len() ==> within(#[trigger] frame.pauses[i], frame.start, upto)
    &&& forall|i: int, j: int|
        0 <= i < j < frame.children.len() ==> apart(
            (#[trigger] frame.children[i]).metrics,
            (#[trigger] frame.children[j]).metrics,
        )
    &&& forall|i: int, j: int|
        0 <= i < j < frame.pauses.len() ==> apart(
            #[trigger] frame.pauses[i],
            #[trigger] frame.pauses[j],
        )
    &&& forall|i: int, j: int|
        0 <= i < frame.children.len() && 0 <= j < frame.pauses.len() ==> apart(
            (#[trigger] frame.children[i]).metrics,
            #[trigger] frame.pauses[j],
        )
}

/// Where the frame next to the one at `i` of the callstack starts.
pub open spec fn next_start(builder: BuilderModel, i: int) -> Metrics {
    if i + 1 < builder.stack.len() {
        builder.stack[i + 1].start
    } else {
        builder.current.start
    }
}

/// The recording has kept to the order of time.
pub open spec fn in_step(builder: BuilderModel) -> bool {
    &&& chronological(builder.current, builder.last)
    &&& forall|i: int|
        0 <= i < builder.stack.len() ==> chronological(
            #[trigger] builder.stack[i],
            next_start(builder, i),
        )
}

/// A range that is apart from all chunks in order finds a gap.
proof fn gap_exists(range: MetricsRange, stored: Seq<StoredModel>, inner: MetricsRange, k: int)
    requires
        in_order(range, stored),
        within(inner, range.start, range.spec_end()),
        forall|i: int| 0 <= i < stored.len() ==> apart((#[trigger] stored[i]).range(), inner),
        0 <= k <= stored.len(),
        forall|i: int|
            0 <= i < k ==> (#[trigger] stored[i]).range().spec_end().le_all(inner.start),
    ensures
        exists|at: int| 0 <= at <= stored.len() && #[trigger] gap_takes(range, stored, at, inner),
    decreases stored.len() - k,
{
    if k < stored.len() && stored[k].range().spec_end().le_all(inner.start) {
        gap_exists(range, stored, inner, k + 1);
    } else {
        if k > 0 {
            assert(stored[k - 1].range().spec_end().le_all(inner.start));
        }
        if k < stored.len() {
            assert(apart(stored[k].range(), inner));
        }
        assert(gap_takes(range, stored, k, inner));
    }
}

/// The chunks of a frame, and calls and pauses that are still to be stored, are apart from each
/// other and lie in the frame.
spec fn storable(frame: FrameModel, children: Seq<FrameModel>, pauses: Seq<MetricsRange>) -> bool {
    let (from, to) = (frame.metrics.start, frame.metrics.spec_end());
    &&& frame.ordered()
    &&& forall|i: int|
        0 <= i < children.len() ==> within((#[trigger] children[i]).metrics, from, to)
    &&& forall|i: int| 0 <= i < pauses.len() ==> within(#[trigger] pauses[i], from, to)
    &&& forall|i: int, j: int|
        0 <= i < j < children.len() ==> apart(
            (#[trigger] children[i]).metrics,
            (#[trigger] children[j]).metrics,
        )
    &&& forall|i: int, j: int|
        0 <= i < j < pauses.len() ==> apart(#[trigger] pauses[i], #[trigger] pauses[j])
    &&& forall|i: int, j: int|
        0 <= i < children.len() && 0 <= j < pauses.len() ==> apart(
            (#[trigger] children[i]).metrics,
            #[trigger] pauses[j],
        )
    &&& forall|i: int, j: int|
        0 <= i < frame.chunks.len() && 0 <= j < children.len() ==> apart(
            (#[trigger] frame.chunks[i]).range(),
            (#[trigger] children[j]).metrics,
        )
    &&& forall|i: int, j: int|
        0 <= i < frame.chunks.len() && 0 <= j < pauses.len() ==> apart(
            (#[trigger] frame.chunks[i]).range(),
            #[trigger] pauses[j],
        )
}

proof fn stored_one(frame: FrameModel, chunk: StoredModel) -> (k: int)
    requires
        frame.ordered(),
        within(chunk.range(), frame.metrics.start, frame.metrics.spec_end()),
        forall|i: int|
            0 <= i < frame.chunks.len() ==> apart((#[trigger] frame.chunks[i]).range(), chunk.range()),
    ensures
        slot(frame.metrics, frame.chunks, chunk.range()) == Some(k),
        0 <= k <= frame.chunks.len(),
        frame.with_chunk(k, chunk).ordered(),
        forall|i: int|
            0 <= i < frame.with_chunk(k, chunk).chunks.len() ==> (
            #[trigger] frame.with_chunk(k, chunk).chunks[i]) == chunk || (exists|j: int|
                0 <= j < frame.chunks.len() && frame.with_chunk(k, chunk).chunks[i]
                    == #[trigger] frame.chunks[j]),
{
    let n = frame.chunks.len() as int;
    gap_exists(frame.metrics, frame.chunks, chunk.range(), 0);
    slot_is_last(frame.metrics, frame.chunks, n, chunk.range());
    let at = choose|at: int|
        0 <= at <= frame.chunks.len() && #[trigger] gap_takes(
            frame.metrics,
            frame.chunks,
            at,
            chunk.range(),
        );
    assert(gap_takes(frame.metrics, frame.chunks, at, chunk.range()));
    let k = slot_up_to(frame.metrics, frame.chunks, n, chunk.range())->Some_0;
    insert_keeps_order(frame.metrics, frame.chunks, k, chunk);
    let after = frame.with_chunk(k, chunk);
    assert forall|i: int| 0 <= i < after.chunks.len() implies (#[trigger] after.chunks[i]) == chunk
        || (exists|j: int| 0 <= j < frame.chunks.len() && after.chunks[i]
        == #[trigger] frame.chunks[j]) by {
        if i < k {
            assert(after.chunks[i] == frame.chunks[i]);
        } else if i > k {
            assert(after.chunks[i] == frame.chunks[i - 1]);
        }
    }
    k
}

/// Calls and pauses that are apart find their places, and what holds of them holds of the chunks.
proof fn all_stored(
    frame: FrameModel,
    children: Seq<FrameModel>,
    pauses: Seq<MetricsRange>,
    p: spec_fn(StoredModel) -> bool,
)
    requires
        storable(frame, children, pauses),
        forall|i: int| 0 <= i < frame.chunks.len() ==> p(#[trigger] frame.chunks[i]),
        forall|i: int| 0 <= i < children.len() ==> p(StoredModel::Frame(#[trigger] children[i])),
        forall|i: int| 0 <= i < pauses.len() ==> p(StoredModel::Pause(#[trigger] pauses[i])),
    ensures
        match with_chunks(frame, by_turns(children, pauses)) {
            Ok(after) => {
                &&& after.ordered()
                &&& after == (FrameModel { chunks: after.chunks, ..frame })
                &&& forall|i: int| 0 <= i < after.chunks.len() ==> p(#[trigger] after.chunks[i])
            },
            Err(_) => false,
        },
    decreases children.len() + pauses.len(),
{
    let turns = by_turns(children, pauses);
    if children.len() > 0 && (pauses.len() == 0 || children[0].metrics.start.ts
        < pauses[0].start.ts) {
        let chunk = StoredModel::Frame(children[0]);
        let rest = children.drop_first();
        assert(turns.drop_first() =~= by_turns(rest, pauses));
        assert forall|i: int| 0 <= i < frame.chunks.len() implies apart(
            (#[trigger] frame.chunks[i]).range(),
            chunk.range(),
        ) by {
            assert(apart(frame.chunks[i].range(), children[0].metrics));
        }
        let k = stored_one(frame, chunk);
        let after = frame.with_chunk(k, chunk);
        assert(storable(after, rest, pauses)) by {
            assert forall|i: int| 0 <= i < rest.len() implies within(
                (#[trigger] rest[i]).metrics,
                after.metrics.start,
                after.metrics.spec_end(),
            ) by {
                assert(rest[i] == children[i + 1]);
            }
            assert forall|i: int, j: int| 0 <= i < j < rest.len() implies apart(
                (#[trigger] rest[i]).metrics,
                (#[trigger] rest[j]).metrics,
            ) by {
                assert(rest[i] == children[i + 1]);
                assert(rest[j] == children[j + 1]);
            }
            assert forall|i: int, j: int|
                0 <= i < rest.len() && 0 <= j < pauses.len() implies apart(
                (#[trigger] rest[i]).metrics,
                #[trigger] pauses[j],
            ) by {
                assert(rest[i] == children[i + 1]);
            }
            assert forall|i: int, j: int|
                0 <= i < after.chunks.len() && 0 <= j < rest.len() implies apart(
                (#[trigger] after.chunks[i]).range(),
                (#[trigger] rest[j]).metrics,
            ) by {
                assert(rest[j] == children[j + 1]);
                if after.chunks[i] != chunk {
                    let o = choose|o: int|
                        0 <= o < frame.chunks.len() && after.chunks[i] == #[trigger] frame.chunks[o];
                    assert(apart(frame.chunks[o].range(), children[j + 1].metrics));
                } else {
                    assert(apart(children[0].metrics, children[j + 1].metrics));
                }
            }
            assert forall|i: int, j: int|
                0 <= i < after.chunks.len() && 0 <= j < pauses.len() implies apart(
                (#[trigger] after.chunks[i]).range(),
                #[trigger] pauses[j],
            ) by {
                if after.chunks[i] != chunk {
                    let o = choose|o: int|
                        0 <= o < frame.chunks.len() && after.chunks[i] == #[trigger] frame.chunks[o];
                    assert(apart(frame.chunks[o].range(), pauses[j]));
                } else {
                    assert(apart(children[0].metrics, pauses[j]));
                }
            }
        }
        assert forall|i: int| 0 <= i < after.chunks.len() implies p(#[trigger] after.chunks[i]) by {
            if after.chunks[i] != chunk {
                let o = choose|o: int|
                    0 <= o < frame.chunks.len() && after.chunks[i] == #[trigger] frame.chunks[o];
                assert(p(frame.chunks[o]));
            } else {
                assert(p(StoredModel::Frame(children[0])));
            }
        }
        assert forall|i: int| 0 <= i < rest.len() implies p(
            StoredModel::Frame(#[trigger] rest[i]),
        ) by {
            assert(rest[i] == children[i + 1]);
        }
        all_stored(after, rest, pauses, p);
    } else if pauses.len() > 0 {
        let chunk = StoredModel::Pause(pauses[0]);
        let rest = pauses.drop_first();
        assert(turns.drop_first() =~= by_turns(children, rest));
        assert forall|i: int| 0 <= i < frame.chunks.len() implies apart(
            (#[trigger] frame.chunks[i]).range(),
            chunk.range(),
        ) by {
            assert(apart(frame.chunks[i].range(), pauses[0]));
        }
        let k = stored_one(frame, chunk);
        let after = frame.with_chunk(k, chunk);
        assert(storable(after, children, rest)) by {
            assert forall|i: int| 0 <= i < rest.len() implies within(
                #[trigger] rest[i],
                after.metrics.start,
                after.metrics.spec_end(),
            ) by {
                assert(rest[i] == pauses[i + 1]);
            }
            assert forall|i: int, j: int| 0 <= i < j < rest.len() implies apart(
                #[trigger] rest[i],
                #[trigger] rest[j],
            ) by {
                assert(rest[i] == pauses[i + 1]);
                assert(rest[j] == pauses[j + 1]);
            }
            assert forall|i: int, j: int|
                0 <= i < children.len() && 0 <= j < rest.len() implies apart(
                (#[trigger] children[i]).metrics,
                #[trigger] rest[j],
            ) by {
                assert(rest[j] == pauses[j + 1]);
            }
            assert forall|i: int, j: int|
                0 <= i < after.chunks.len() && 0 <= j < rest.len() implies apart(
                (#[trigger] after.chunks[i]).range(),
                #[trigger] rest[j],
            ) by {
                assert(rest[j] == pauses[j + 1]);
                if after.chunks[i] != chunk {
                    let o = choose|o: int|
                        0 <= o < frame.chunks.len() && after.chunks[i] == #[trigger] frame.chunks[o];
                    assert(apart(frame.chunks[o].range(), pauses[j + 1]));
                } else {
                    assert(apart(pauses[0], pauses[j + 1]));
                }
            }
            assert forall|i: int, j: int|
                0 <= i < after.chunks.len() && 0 <= j < children.len() implies apart(
                (#[trigger] after.chunks[i]).range(),
                (#[trigger] children[j]).metrics,
            ) by {
                if after.chunks[i] != chunk {
                    let o = choose|o: int|
                        0 <= o < frame.chunks.len() && after.chunks[i] == #[trigger] frame.chunks[o];
                    assert(apart(frame.chunks[o].range(), children[j].metrics));
                } else {
                    assert(apart(children[j].metrics, pauses[0]));
                }
            }
        }
        assert forall|i: int| 0 <= i < after.chunks.len() implies p(#[trigger] after.chunks[i]) by {
            if after.chunks[i] != chunk {
                let o = choose|o: int|
                    0 <= o < frame.chunks.len() && after.chunks[i] == #[trigger] frame.chunks[o];
                assert(p(frame.chunks[o]));
            } else {
                assert(p(StoredModel::Pause(pauses[0])));
            }
        }
        assert forall|i: int| 0 <= i < rest.len() implies p(
            StoredModel::Pause(#[trigger] rest[i]),
        ) by {
            assert(rest[i] == pauses[i + 1]);
        }
        all_stored(after, children, rest, p);
    }
}

spec fn deep(chunk: StoredModel) -> bool {
    match chunk {
        StoredModel::Frame(frame) => frame.deeply_ordered(),
        StoredModel::Pause(_) => true,
    }
}

/// A frame whose calls and pauses keep to the order of time is always completed, and is ordered in
/// depth.
pub proof fn chronological_completes(
    incomplete: IncompleteModel,
    end: Metrics,
    remove_plt_stubs: bool,
)
    requires
        chronological(incomplete, end),
        MetricsRange::spans(incomplete.start, end),
    ensures
        match completed(incomplete, end, remove_plt_stubs) {
            Ok(frame) => {
                &&& frame.deeply_ordered()
                &&& frame.metrics == MetricsRange::between(incomplete.start, end)
            },
            Err(_) => false,
        },
{
    let range = MetricsRange::between(incomplete.start, end);
    if remove_plt_stubs && removable_stub(incomplete) {
        let child = incomplete.children[0];
        let frame = FrameModel { metrics: range, ..child };
        assert(within(child.metrics, incomplete.start, end));
        assert(child.deeply_ordered());
        assert forall|i: int| 0 <= i < frame.chunks.len() implies (
        #[trigger] frame.chunks[i]).range().fits() && range.includes(frame.chunks[i].range()) by {
            assert(frame.chunks[i] == child.chunks[i]);
            assert(child.metrics.includes(child.chunks[i].range()));
        }
        assert(frame.ordered());
        assert forall|i: int| 0 <= i < frame.chunks.len() implies match #[trigger] frame.chunks[i] {
            StoredModel::Frame(inner) => inner.deeply_ordered(),
            StoredModel::Pause(_) => true,
        } by {
            assert(frame.chunks[i] == child.chunks[i]);
        }
    } else {
        let base = FrameModel {
            symbol_idx: incomplete.symbol_idx,
            symbol: incomplete.symbol,
            metrics: range,
            annotations: None,
            chunks: Seq::empty(),
        };
        let (children, pauses) = (incomplete.children, incomplete.pauses);
        assert(storable(base, children, pauses));
        let frame = with_chunks(base, by_turns(children, pauses))->Ok_0;
        all_stored(base, children, pauses, |c: StoredModel| deep(c));
        assert forall|i: int| 0 <= i < frame.chunks.len() implies match #[trigger] frame.chunks[i] {
            StoredModel::Frame(inner) => inner.deeply_ordered(),
            StoredModel::Pause(_) => true,
        } by {
            let p = |c: StoredModel| deep(c);
            assert(p(frame.chunks[i]));
        }
    }
}

/// What happened up to one sample happened up to any later one.
proof fn chronological_longer(frame: IncompleteModel, upto: Metrics, later: Metrics)
    requires
        chronological(frame, upto),
        upto.le_all(later),
    ensures
        chronological(frame, later),
{
    assert forall|i: int| 0 <= i < frame.children.len() implies within(
        (#[trigger] frame.children[i]).metrics,
        frame.start,
        later,
    ) && frame.children[i].deeply_ordered() by {
        assert(within(frame.children[i].metrics, frame.start, upto));
    }
    assert forall|i: int| 0 <= i < frame.pauses.len() implies within(
        #[trigger] frame.pauses[i],
        frame.start,
        later,
    ) by {
        assert(within(frame.pauses[i], frame.start, upto));
    }
}

/// A recording begins in step.
pub proof fn begins_in_step(builder: BuilderModel, symbol: SymbolModel)
    requires
        builder == (BuilderModel {
            last: builder.last,
            table: seq![symbol],
            current: begun(builder.last, 0, symbol),
            stack: Seq::empty(),
            events: builder.events,
        }),
    ensures
        in_step(builder),
{
}

/// A call keeps the recording in step.
pub proof fn call_keeps_step(builder: BuilderModel, metrics: Metrics, symbol: SymbolModel)
    requires
        in_step(builder),
        builder.last.le_all(metrics),
    ensures
        in_step(builder.pushed(metrics, symbol)),
{
    let after = builder.pushed(metrics, symbol);
    assert forall|i: int| 0 <= i < after.stack.len() implies chronological(
        #[trigger] after.stack[i],
        next_start(after, i),
    ) by {
        if i < builder.stack.len() {
            assert(after.stack[i] == builder.stack[i]);
            assert(chronological(builder.stack[i], next_start(builder, i)));
            if i + 1 < builder.stack.len() {
                assert(after.stack[i + 1] == builder.stack[i + 1]);
            } else {
                assert(after.stack[i + 1] == builder.current);
            }
        } else {
            assert(after.stack[i] == builder.current);
            chronological_longer(builder.current, builder.last, metrics);
        }
    }
}

/// A call pushed to an incomplete frame behind all else in it keeps the frame chronological.
proof fn one_more_call(frame: IncompleteModel, upto: Metrics, child: FrameModel, end: Metrics)
    requires
        chronological(frame, upto),
        within(child.metrics, upto, end),
        child.deeply_ordered(),
    ensures
        chronological(IncompleteModel { children: frame.children.push(child), ..frame }, end),
{
    let after = IncompleteModel { children: frame.children.push(child), ..frame };
    chronological_longer(frame, upto, end);
    assert forall|i: int| 0 <= i < after.children.len() implies within(
        (#[trigger] after.children[i]).metrics,
        after.start,
        end,
    ) && after.children[i].deeply_ordered() by {
        if i < frame.children.len() {
            assert(after.children[i] == frame.children[i]);
        }
    }
    assert forall|i: int, j: int| 0 <= i < j < after.children.len() implies apart(
        (#[trigger] after.children[i]).metrics,
        (#[trigger] after.children[j]).metrics,
    ) by {
        assert(after.children[i] == frame.children[i]);
        assert(within(frame.children[i].metrics, frame.start, upto));
        if j < frame.children.len() {
            assert(after.children[j] == frame.children[j]);
        }
    }
    assert forall|i: int, j: int|
        0 <= i < after.children.len() && 0 <= j < after.pauses.len() implies apart(
        (#[trigger] after.children[i]).metrics,
        #[trigger] after.pauses[j],
    ) by {
        assert(within(frame.pauses[j], frame.start, upto));
        if i < frame.children.len() {
            assert(after.children[i] == frame.children[i]);
        }
    }
}

/// In a recording that is in step the end of a frame never fails. The recording stays in step; a
/// trace that comes out is ordered in depth, so that the chunks of each of its frames add up to
/// it.
pub proof fn return_keeps_step(builder: BuilderModel, end: Metrics, remove_plt_stubs: bool)
    requires
        in_step(builder),
        builder.last.le_all(end),
        MetricsRange::spans(builder.current.start, end),
    ensures
        match builder.popped(end, remove_plt_stubs) {
            Ok(OutcomeModel::Going(after)) => in_step(after),
            Ok(OutcomeModel::Done(trace)) => trace.root.deeply_ordered(),
            Err(_) => false,
        },
{
    chronological_longer(builder.current, builder.last, end);
    chronological_completes(builder.current, end, remove_plt_stubs);
    let frame = completed(builder.current, end, remove_plt_stubs)->Ok_0;
    if builder.stack.len() > 0 {
        let outer = builder.stack.last();
        let at = builder.stack.len() - 1;
        assert(outer == builder.stack[at]);
        assert(chronological(outer, next_start(builder, at)));
        one_more_call(outer, builder.current.start, frame, end);
        let after = builder.popped(end, remove_plt_stubs)->Ok_0->Going_0;
        assert forall|i: int| 0 <= i < after.stack.len() implies chronological(
            #[trigger] after.stack[i],
            next_start(after, i),
        ) by {
            assert(after.stack[i] == builder.stack[i]);
            assert(chronological(builder.stack[i], next_start(builder, i)));
            assert(next_start(after, i) == next_start(builder, i));
        }
    }
}

/// A pause that does not begin before what was last seen keeps the recording in step.
pub proof fn pause_keeps_step(builder: BuilderModel, start: Metrics, end: Metrics)
    requires
        in_step(builder),
        builder.last.le_all(start),
        MetricsRange::spans(start, end),
    ensures
        in_step(builder.resumed(start, end)),
{
    let after = builder.resumed(start, end);
    let frame = builder.current;
    let pause = MetricsRange::between(start, end);
    let now = after.current;
    chronological_longer(frame, builder.last, end);
    assert forall|i: int| 0 <= i < now.pauses.len() implies within(
        #[trigger] now.pauses[i],
        now.start,
        end,
    ) by {
        if i < frame.pauses.len() {
            assert(now.pauses[i] == frame.pauses[i]);
        }
    }
    assert forall|i: int, j: int| 0 <= i < j < now.pauses.len() implies apart(
        #[trigger] now.pauses[i],
        #[trigger] now.pauses[j],
    ) by {
        assert(now.pauses[i] == frame.pauses[i]);
        assert(within(frame.pauses[i], frame.start, builder.last));
        if j < frame.pauses.len() {
            assert(now.pauses[j] == frame.pauses[j]);
        }
    }
    assert forall|i: int, j: int|
        0 <= i < now.children.len() && 0 <= j < now.pauses.len() implies apart(
        (#[trigger] now.children[i]).metrics,
        #[trigger] now.pauses[j],
    ) by {
        assert(within(frame.children[i].metrics, frame.start, builder.last));
        if j < frame.pauses.len() {
            assert(now.pauses[j] == frame.pauses[j]);
        }
    }
    assert forall|i: int| 0 <= i < after.stack.len() implies chronological(
        #[trigger] after.stack[i],
        next_start(after, i),
    ) by {
        assert(chronological(builder.stack[i], next_start(builder, i)));
        assert(next_start(after, i) == next_start(builder, i));
    }
}

} // verus!

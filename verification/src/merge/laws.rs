//! What merged traces have of the traces that they are merged from.
use crate::merge::children::{
    self, average, cut, extents, group_fits, group_numbered, groups_fit, groups_numbered,
    groups_of_frames, item_fits, item_frames, item_offsets, item_ranges, merge_all, merge_group,
    merge_groups, mergeable, merged_range, numbered, roomy, small, Progress, MAX_LEVELS,
};
use crate::merge::index::{registry, ItemModel, Key};
use crate::merge::single::Single;
use crate::merge::traces::{
    frequent_frame_thresh, merged_root_range, merged_trace, root_ranges, roots, traces_mergeable,
};
use crate::trace::cache::with_symbol;
use crate::trace::frame::{ChunkModel, FrameModel, StoredModel};
use crate::trace::laws::{
    chunk_range, growth, reading, reading_at_end, readings_tell_samples, stored_range, Counter,
};
use crate::trace::metrics::{self, total, Metrics, MetricsRange};
use crate::trace::record::TraceModel;
use crate::trace::symbol::SymbolModel;
use vstd::prelude::*;

verus! {

/// The mean of whole numbers, rounded down.
pub open spec fn mean(values: Seq<int>) -> int {
    total(values) / (values.len() as int)
}

/// By how much the counter grows over the outermost frame of each trace.
pub open spec fn root_growths(traces: Seq<TraceModel>, c: Counter) -> Seq<int> {
    Seq::new(traces.len(), |t: int| growth(traces[t].root.metrics, c))
}

/// What the counter shows where each item of a group starts, counted from the start of the frame
/// that the item is in.
pub open spec fn group_offsets(group: Seq<ItemModel>, c: Counter) -> Seq<int> {
    Seq::new(group.len(), |i: int| reading(group[i].offset, c))
}

/// By how much the counter grows over each item of a group.
pub open spec fn group_growths(group: Seq<ItemModel>, c: Counter) -> Seq<int> {
    Seq::new(group.len(), |i: int| growth(chunk_range(group[i].chunk), c))
}

/// Where a merged group is to start: as far behind the start of the frame as its items are on
/// average.
pub open spec fn due_start(parent: MetricsRange, group: Seq<ItemModel>, c: Counter) -> int {
    reading(parent.start, c) + mean(group_offsets(group, c))
}

/// Where a merged group is to end: it lasts as long as its items do on average.
pub open spec fn due_end(parent: MetricsRange, group: Seq<ItemModel>, c: Counter) -> int {
    due_start(parent, group, c) + mean(group_growths(group, c))
}

pub open spec fn later(a: int, b: int) -> int {
    if a < b {
        b
    } else {
        a
    }
}

pub open spec fn sooner(a: int, b: int) -> int {
    if a < b {
        a
    } else {
        b
    }
}

/// There is room for a merged group behind what was reached and before the end of the frame.
pub open spec fn has_room(parent: MetricsRange, group: Seq<ItemModel>, after: Metrics) -> bool {
    forall|c: Counter|
        later(due_start(parent, group, c), #[trigger] reading(after, c)) <= sooner(
            due_end(parent, group, c),
            reading_at_end(parent, c),
        )
}

/// The chunk stands for the group: in every counter it starts and ends where the items of the group
/// do on average, but not before what was reached nor behind the end of the frame. It is a call of
/// the function that the items are calls of, or a pause where they are pauses.
pub open spec fn stands_for(
    chunk: StoredModel,
    group: Seq<ItemModel>,
    parent: MetricsRange,
    after: Metrics,
) -> bool {
    &&& forall|c: Counter|
        {
            &&& #[trigger] reading(stored_range(chunk).start, c) == later(
                due_start(parent, group, c),
                reading(after, c),
            )
            &&& reading_at_end(stored_range(chunk), c) == sooner(
                due_end(parent, group, c),
                reading_at_end(parent, c),
            )
        }
    &&& match (chunk, group[0].chunk) {
        (StoredModel::Frame(frame), ChunkModel::Frame(first)) => frame.symbol == first.symbol
            && frame.annotations is None,
        (StoredModel::Pause(_), ChunkModel::Pause(_)) => true,
        _ => false,
    }
}

proof fn average_reads(samples: Seq<Metrics>, values: Seq<int>, c: Counter)
    requires
        samples.len() > 0,
        values.len() == samples.len(),
        forall|i: int| 0 <= i < samples.len() ==> small(#[trigger] samples[i]),
        forall|i: int| 0 <= i < samples.len() ==> values[i] == reading(#[trigger] samples[i], c),
    ensures
        reading(average(samples), c) == mean(values),
        small(average(samples)),
{
    children::average_is_small(samples);
    match c {
        Counter::Time => {
            assert(metrics::times(samples) =~= values);
        },
        Counter::Cycles => {
            assert(metrics::cycle_counts(samples) =~= values);
        },
        Counter::Instructions => {
            assert(metrics::insn_counts(samples) =~= values);
        },
    }
}

/// A merged trace starts at zero in all counters and grows, in each of them, by what the traces do
/// on average in that same counter. It is a call of the function that the first of them is.
pub proof fn merged_root_is_average(traces: Seq<TraceModel>, c: Counter)
    requires
        traces.len() > 1,
    ensures
        merged_trace(traces).root.metrics.start == (Metrics { ts: 0, cycles: 0, insn_count: 0 }),
        growth(merged_trace(traces).root.metrics, c) == mean(root_growths(traces, c)),
        merged_trace(traces).root.metrics.fits(),
        merged_trace(traces).root.symbol == traces[0].root.symbol,
        merged_trace(traces).root.annotations is None,
{
    let samples = extents(root_ranges(traces));
    let values = root_growths(traces, c);
    assert forall|i: int| 0 <= i < samples.len() implies values[i] == reading(
        #[trigger] samples[i],
        c,
    ) by {}
    average_reads(samples, values, c);
}

/// A single trace is merged into itself.
pub proof fn single_trace_stays(trace: TraceModel)
    ensures
        merged_trace(seq![trace]) == trace,
{
}

proof fn group_average_reads(group: Seq<ItemModel>, known: Seq<Key>, levels: nat, c: Counter)
    requires
        group_fits(known, levels, group),
    ensures
        reading(average(item_offsets(group)), c) == mean(group_offsets(group, c)),
        reading(average(extents(item_ranges(group))), c) == mean(group_growths(group, c)),
{
    let offsets = item_offsets(group);
    let lengths = extents(item_ranges(group));
    let a = group_offsets(group, c);
    let b = group_growths(group, c);
    assert forall|i: int| 0 <= i < offsets.len() implies small(#[trigger] offsets[i]) && a[i]
        == reading(offsets[i], c) by {
        assert(item_fits(known, levels, group[i]));
    }
    assert forall|i: int| 0 <= i < lengths.len() implies b[i] == reading(
        #[trigger] lengths[i],
        c,
    ) by {
        assert(item_fits(known, levels, group[i]));
    }
    average_reads(offsets, a, c);
    average_reads(lengths, b, c);
}

/// Merging a group adds one chunk that stands for the group, where there is room for it; where
/// there is none, nothing is added and it is noted where the group was to start.
pub proof fn merged_group_is_average(
    levels: nat,
    p: Progress,
    range: MetricsRange,
    group: Seq<ItemModel>,
    thresh: Single,
    known: Seq<Key>,
)
    requires
        range.fits(),
        roomy(range.start, levels),
        group_fits(known, levels, group),
    ensures
        ({
            let q = merge_group(levels, p, range, group, thresh);
            &&& has_room(range, group, p.reached) ==> {
                &&& q.chunks.len() == p.chunks.len() + 1
                &&& q.chunks.drop_last() == p.chunks
                &&& stands_for(q.chunks.last(), group, range, p.reached)
                &&& forall|c: Counter|
                    #[trigger] reading(q.reached, c) == reading_at_end(
                        stored_range(q.chunks.last()),
                        c,
                    )
            }
            &&& !has_room(range, group, p.reached) ==> {
                &&& q.chunks == p.chunks
                &&& q.reached == p.reached
                &&& q.lost.len() > 0
                &&& forall|c: Counter|
                    #[trigger] reading(q.lost.last(), c) == due_start(range, group, c)
            }
        }),
{
    let offsets = item_offsets(group);
    let lengths = extents(item_ranges(group));
    assert forall|k: int| 0 <= k < offsets.len() implies small(#[trigger] offsets[k]) by {
        assert(item_fits(known, levels, group[k]));
    }
    assert forall|k: int| 0 <= k < lengths.len() implies small(#[trigger] lengths[k]) by {}
    children::average_is_small(offsets);
    children::average_is_small(lengths);
    children::room_for_group(range.start, levels, average(offsets), average(lengths));
    let whole = merged_range(range.start, group);
    assert(whole.fits());
    assert forall|c: Counter|
        reading(whole.start, c) == #[trigger] due_start(range, group, c) && reading_at_end(whole, c)
            == due_end(range, group, c) && reading(whole.spec_end(), c) == due_end(
            range,
            group,
            c,
        ) && reading(range.spec_end(), c) == reading_at_end(range, c) by {
        let a = average(offsets);
        let b = average(lengths);
        group_average_reads(group, known, levels, c);
    }
    children::cut_stays(whole, p.reached, range.spec_end());
    assert(item_fits(known, levels, group[0]));
    let from = children::upper(whole.start, p.reached);
    let to = children::lower(whole.spec_end(), range.spec_end());
    assert forall|c: Counter| #![trigger due_start(range, group, c)]
        reading(from, c) == later(due_start(range, group, c), reading(p.reached, c)) && reading(
            to,
            c,
        ) == sooner(due_end(range, group, c), reading_at_end(range, c)) by {}
    assert(has_room(range, group, p.reached) <==> from.le_all(to)) by {
        if from.le_all(to) {
            assert forall|c: Counter|
                later(due_start(range, group, c), #[trigger] reading(p.reached, c)) <= sooner(
                    due_end(range, group, c),
                    reading_at_end(range, c),
                ) by {
                assert(reading(from, c) <= reading(to, c));
            }
        }
        if has_room(range, group, p.reached) {
            assert(reading(p.reached, Counter::Time) == p.reached.ts);
            assert(reading(p.reached, Counter::Cycles) == p.reached.cycles);
            assert(reading(p.reached, Counter::Instructions) == p.reached.insn_count);
            let d = Counter::Time;
            assert(due_start(range, group, d) == due_start(range, group, d));
            let e = Counter::Cycles;
            assert(due_start(range, group, e) == due_start(range, group, e));
            let f = Counter::Instructions;
            assert(due_start(range, group, f) == due_start(range, group, f));
            assert(reading(from, d) <= reading(to, d));
            assert(reading(from, e) <= reading(to, e));
            assert(reading(from, f) <= reading(to, f));
        }
    }
    let merged = cut(whole, p.reached, range.spec_end());
    let q = merge_group(levels, p, range, group, thresh);
    if from.le_all(to) {
        assert(MetricsRange::spans(from, to));
        assert(merged == MetricsRange::between(from, to));
        assert(q.chunks.drop_last() =~= p.chunks);
        assert(stored_range(q.chunks.last()) == merged);
        assert(q.reached == to);
        assert forall|c: Counter|
            #[trigger] reading(merged.start, c) == later(
                due_start(range, group, c),
                reading(p.reached, c),
            ) && reading_at_end(merged, c) == sooner(
                due_end(range, group, c),
                reading_at_end(range, c),
            ) by {
            assert(due_start(range, group, c) == due_start(range, group, c));
            assert(reading_at_end(merged, c) == reading(to, c));
        }
        assert forall|c: Counter| #[trigger] reading(q.reached, c) == reading_at_end(
            stored_range(q.chunks.last()),
            c,
        ) by {}
    } else {
        assert(merged == whole);
        assert(q.lost.last() == whole.start);
        assert forall|c: Counter| #[trigger] reading(q.lost.last(), c) == due_start(
            range,
            group,
            c,
        ) by {}
    }
}

/// The calls of a group.
pub open spec fn calls_of(group: Seq<ItemModel>) -> Seq<FrameModel> {
    Seq::new(group.len(), |i: int| group[i].chunk->Frame_0)
}

/// What was reached before the chunk at `i`: the end of the one before it, or the start of the
/// frame.
pub open spec fn reached_before(range: MetricsRange, chunks: Seq<StoredModel>, i: int) -> Metrics {
    if i == 0 {
        range.start
    } else {
        stored_range(chunks[i - 1]).spec_end()
    }
}

/// The chunks were merged from the groups: each stands for the group that was picked for it, the
/// groups are picked in their order, and none is passed over for which there was room. The chunks of
/// each call were merged from the chunks of the calls that it stands for, in the same way.
pub open spec fn merged_from(
    levels: nat,
    range: MetricsRange,
    groups: Seq<Seq<ItemModel>>,
    thresh: Single,
    chunks: Seq<StoredModel>,
    picks: Seq<int>,
) -> bool
    decreases levels, 0nat,
{
    &&& picks.len() == chunks.len()
    &&& forall|i: int| 0 <= i < picks.len() ==> 0 <= #[trigger] picks[i] < groups.len()
    &&& forall|i: int, j: int| 0 <= i < j < picks.len() ==> #[trigger] picks[i] < #[trigger] picks[j]
    &&& forall|i: int|
        0 <= i < chunks.len() ==> stands_for(
            #[trigger] chunks[i],
            groups[picks[i]],
            range,
            reached_before(range, chunks, i),
        )
    &&& forall|i: int, g: int|
        #![trigger reached_before(range, chunks, i), groups[g]]
        0 <= i <= picks.len() && 0 <= g < groups.len() && (i > 0 ==> picks[i - 1] < g) && (i
            < picks.len() ==> g < picks[i]) ==> !has_room(
            range,
            groups[g],
            reached_before(range, chunks, i),
        )
    &&& forall|i: int|
        0 <= i < chunks.len() ==> match #[trigger] chunks[i] {
            StoredModel::Frame(call) => levels > 0 && averaged(
                (levels - 1) as nat,
                call.metrics,
                calls_of(groups[picks[i]]),
                thresh,
                call.chunks,
            ),
            StoredModel::Pause(_) => true,
        }
}

/// The chunks were merged from the groups that the chunks of the frames make up.
pub open spec fn averaged(
    levels: nat,
    range: MetricsRange,
    frames: Seq<FrameModel>,
    thresh: Single,
    chunks: Seq<StoredModel>,
) -> bool
    decreases levels, 1nat,
{
    exists|picks: Seq<int>|
        #[trigger] picks.len() == chunks.len() && merged_from(
            levels,
            range,
            groups_of_frames(frames, thresh),
            thresh,
            chunks,
            picks,
        )
}

proof fn groups_are_picked(
    levels: nat,
    p: Progress,
    range: MetricsRange,
    groups: Seq<Seq<ItemModel>>,
    thresh: Single,
    known: Seq<Key>,
    count: nat,
) -> (picks: Seq<int>)
    requires
        p.chunks.len() == 0,
        p.reached == range.start,
        range.fits(),
        roomy(range.start, levels),
        groups_fit(known, levels, groups, count),
        groups_numbered(levels, groups, thresh),
        count <= u32::MAX,
    ensures
        ({
            let q = merge_groups(levels, p, range, groups, thresh);
            &&& merged_from(levels, range, groups, thresh, q.chunks, picks)
            &&& q.reached == reached_before(range, q.chunks, q.chunks.len() as int)
            &&& q.reached.le_all(range.spec_end())
        }),
    decreases levels, 1nat, groups.len(),
{
    let q = merge_groups(levels, p, range, groups, thresh);
    if groups.len() == 0 {
        let none: Seq<int> = Seq::empty();
        assert(merged_from(levels, range, groups, thresh, q.chunks, none));
        none
    } else {
        let rest = groups.drop_last();
        let group = groups.last();
        assert forall|g: int| 0 <= g < rest.len() implies group_fits(
            known,
            levels,
            #[trigger] rest[g],
        ) && rest[g].len() <= count by {
            assert(rest[g] == groups[g]);
        }
        assert(group == groups[groups.len() - 1]);
        assert(group_numbered(levels, group, thresh));
        assert(groups_numbered(levels, rest, thresh)) by {
            assert forall|g: int| 0 <= g < rest.len() implies group_numbered(
                levels,
                #[trigger] rest[g],
                thresh,
            ) by {
                assert(rest[g] == groups[g]);
            }
        }
        let before = groups_are_picked(levels, p, range, rest, thresh, known, count);
        let mid = merge_groups(levels, p, range, rest, thresh);
        merged_group_is_average(levels, mid, range, group, thresh, known);
        if has_room(range, group, mid.reached) {
            let picks = before.push(groups.len() - 1);
            let last = q.chunks.len() - 1;
            assert(q.chunks.drop_last() == mid.chunks);
            assert forall|i: int| 0 <= i < last implies #[trigger] q.chunks[i] == mid.chunks[i] by {
                assert(q.chunks.drop_last()[i] == q.chunks[i]);
            }
            let chunk = q.chunks[last];
            group_goes_down(levels, mid, range, group, thresh, known);
            readings_tell_samples(q.reached, stored_range(chunk).spec_end());
            assert forall|i: int| 0 <= i <= last implies #[trigger] reached_before(
                range,
                q.chunks,
                i,
            ) == reached_before(range, mid.chunks, i) by {}
            assert forall|i: int| 0 <= i < q.chunks.len() implies stands_for(
                #[trigger] q.chunks[i],
                groups[picks[i]],
                range,
                reached_before(range, q.chunks, i),
            ) by {
                if i < last {
                    assert(q.chunks[i] == mid.chunks[i]);
                    assert(groups[picks[i]] == rest[before[i]]);
                }
            }
            assert forall|i: int, g: int|
                #![trigger reached_before(range, q.chunks, i), groups[g]]
                0 <= i <= picks.len() && 0 <= g < groups.len() && (i > 0 ==> picks[i - 1] < g) && (i
                    < picks.len() ==> g < picks[i]) implies !has_room(
                range,
                groups[g],
                reached_before(range, q.chunks, i),
            ) by {
                assert(i <= last);
                assert(g < rest.len());
                assert(rest[g] == groups[g]);
                assert(reached_before(range, q.chunks, i) == reached_before(range, mid.chunks, i));
            }
            assert forall|i: int| 0 <= i < q.chunks.len() implies match #[trigger] q.chunks[i] {
                StoredModel::Frame(call) => levels > 0 && averaged(
                    (levels - 1) as nat,
                    call.metrics,
                    calls_of(groups[picks[i]]),
                    thresh,
                    call.chunks,
                ),
                StoredModel::Pause(_) => true,
            } by {
                if i < last {
                    assert(q.chunks[i] == mid.chunks[i]);
                    assert(groups[picks[i]] == rest[before[i]]);
                }
            }
            assert(merged_from(levels, range, groups, thresh, q.chunks, picks));
            picks
        } else {
            assert(q.chunks == mid.chunks);
            assert forall|i: int| 0 <= i < q.chunks.len() implies groups[#[trigger] before[i]]
                == rest[before[i]] by {}
            assert forall|i: int| 0 <= i < q.chunks.len() implies stands_for(
                #[trigger] q.chunks[i],
                groups[before[i]],
                range,
                reached_before(range, q.chunks, i),
            ) by {
                assert(groups[before[i]] == rest[before[i]]);
            }
            assert forall|i: int| 0 <= i < q.chunks.len() implies match #[trigger] q.chunks[i] {
                StoredModel::Frame(call) => levels > 0 && averaged(
                    (levels - 1) as nat,
                    call.metrics,
                    calls_of(groups[before[i]]),
                    thresh,
                    call.chunks,
                ),
                StoredModel::Pause(_) => true,
            } by {
                assert(groups[before[i]] == rest[before[i]]);
            }
            assert forall|i: int, g: int|
                #![trigger reached_before(range, q.chunks, i), groups[g]]
                0 <= i <= before.len() && 0 <= g < groups.len() && (i > 0 ==> before[i - 1] < g)
                    && (i < before.len() ==> g < before[i]) implies !has_room(
                range,
                groups[g],
                reached_before(range, q.chunks, i),
            ) by {
                if g < rest.len() {
                    assert(rest[g] == groups[g]);
                } else {
                    assert(i == before.len());
                }
            }
            assert(merged_from(levels, range, groups, thresh, q.chunks, before));
            before
        }
    }
}

proof fn group_goes_down(
    levels: nat,
    p: Progress,
    range: MetricsRange,
    group: Seq<ItemModel>,
    thresh: Single,
    known: Seq<Key>,
)
    requires
        range.fits(),
        roomy(range.start, levels),
        p.reached.le_all(range.spec_end()),
        group_fits(known, levels, group),
        group_numbered(levels, group, thresh),
        group.len() <= u32::MAX,
        has_room(range, group, p.reached),
    ensures
        ({
            let q = merge_group(levels, p, range, group, thresh);
            &&& q.reached.le_all(range.spec_end())
            &&& stored_range(q.chunks.last()).fits()
            &&& q.chunks.last() matches StoredModel::Frame(call) ==> levels > 0 && averaged(
                (levels - 1) as nat,
                call.metrics,
                calls_of(group),
                thresh,
                call.chunks,
            )
        }),
    decreases levels, 0nat, 0nat,
{
    merged_group_is_average(levels, p, range, group, thresh, known);
    let offsets = item_offsets(group);
    let lengths = extents(item_ranges(group));
    assert forall|k: int| 0 <= k < offsets.len() implies small(#[trigger] offsets[k]) by {
        assert(item_fits(known, levels, group[k]));
    }
    children::average_is_small(offsets);
    children::average_is_small(lengths);
    children::room_for_group(range.start, levels, average(offsets), average(lengths));
    let whole = merged_range(range.start, group);
    assert(whole.fits());
    let merged = cut(whole, p.reached, range.spec_end());
    children::cut_stays(whole, p.reached, range.spec_end());
    assert(item_fits(known, levels, group[0]));
    let q = merge_group(levels, p, range, group, thresh);
    if let ChunkModel::Frame(first) = group[0].chunk {
        let frames = item_frames(group);
        let table = with_symbol(p.table, first.symbol);
        assert(frames =~= calls_of(group));
        assert forall|f: int| 0 <= f < frames.len() implies mergeable(
            #[trigger] frames[f],
            (levels - 1) as nat,
        ) by {
            assert(item_fits(known, levels, group[f]));
            assert(group[f].id == group[0].id);
        }
        children::room_for_cut(range, levels, whole, p.reached);
        merged_chunks_are_averages((levels - 1) as nat, merged, frames, thresh, table, p.lost);
        let call = q.chunks.last()->Frame_0;
        assert(call.metrics == merged);
    }
}

/// Chunks are merged from the groups that the chunks of the frames make up, and so it is in all
/// calls among them.
pub proof fn merged_chunks_are_averages(
    levels: nat,
    range: MetricsRange,
    frames: Seq<FrameModel>,
    thresh: Single,
    table: Seq<SymbolModel>,
    lost: Seq<Metrics>,
)
    requires
        range.fits(),
        roomy(range.start, levels),
        0 < frames.len() <= u32::MAX,
        forall|f: int| 0 <= f < frames.len() ==> mergeable(#[trigger] frames[f], levels),
        numbered(levels, frames, thresh),
    ensures
        averaged(
            levels,
            range,
            frames,
            thresh,
            merge_all(levels, range, frames, thresh, table, lost).chunks,
        ),
    decreases levels, 2nat, 0nat,
{
    let p = Progress { chunks: Seq::empty(), reached: range.start, table, lost };
    children::groups_of_frames_fit(frames, thresh, levels);
    let groups = groups_of_frames(frames, thresh);
    let picks = groups_are_picked(
        levels,
        p,
        range,
        groups,
        thresh,
        registry(frames),
        frames.len(),
    );
    let q = merge_groups(levels, p, range, groups, thresh);
    assert(q == merge_all(levels, range, frames, thresh, table, lost));
    assert(merged_from(levels, range, groups_of_frames(frames, thresh), thresh, q.chunks, picks));
}

/// The outermost frames of the traces.
pub open spec fn outermost(traces: Seq<TraceModel>) -> Seq<FrameModel> {
    Seq::new(traces.len(), |t: int| traces[t].root)
}

/// Every call and pause of a merged trace, at whatever depth, stands for a group of calls or pauses
/// of the traces.
pub proof fn merged_trace_is_average(traces: Seq<TraceModel>)
    requires
        traces_mergeable(traces),
        traces.len() > 1,
    ensures
        averaged(
            MAX_LEVELS as nat,
            merged_trace(traces).root.metrics,
            outermost(traces),
            frequent_frame_thresh(),
            merged_trace(traces).root.chunks,
        ),
{
    assert(roots(traces) =~= outermost(traces));
    children::average_is_small(extents(root_ranges(traces)));
    merged_chunks_are_averages(
        MAX_LEVELS as nat,
        merged_root_range(traces),
        roots(traces),
        frequent_frame_thresh(),
        seq![traces[0].root.symbol],
        Seq::empty(),
    );
}

} // verus!

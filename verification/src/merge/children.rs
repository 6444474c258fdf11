//! Merging of the calls and pauses of several frames into one frame.
use crate::merge::frequent::{self, find_frequent_children, frequent_groups, group_of};
use crate::merge::index::{
    self, chunk_count, frame_models, index_children, indexed, registry, starts_inside, ChunkIndexed,
    ItemModel, Key,
};
use crate::merge::lcs::{self, find_lcs, ids, is_common_subsequence, place, present, Id};
use crate::merge::single::{self, Single};
use crate::trace::cache::{self, symbol_place, with_symbol, SymbolCache};
use crate::trace::frame::{
    self, in_order, Chunk, ChunkModel, Frame, FrameModel, StoredChunk, StoredModel,
};
use crate::trace::metrics::{self, Metrics, MetricsRange};
use crate::trace::symbol::SymbolModel;
use vstd::prelude::*;
use vstd::slice::slice_subrange;

verus! {

/// What has been merged so far of the chunks of a frame.
#[verifier::ext_equal]
pub struct Progress {
    pub chunks: Seq<StoredModel>,
    /// Where the last of the chunks ends.
    pub reached: Metrics,
    /// The symbols of all frames merged so far.
    pub table: Seq<SymbolModel>,
    /// Where chunks were to start that found no place.
    pub lost: Seq<Metrics>,
}

/// The greater of each two counters.
pub open spec fn upper(a: Metrics, b: Metrics) -> Metrics {
    Metrics {
        ts: if a.ts > b.ts { a.ts } else { b.ts },
        cycles: if a.cycles > b.cycles { a.cycles } else { b.cycles },
        insn_count: if a.insn_count > b.insn_count { a.insn_count } else { b.insn_count },
    }
}

/// The lesser of each two counters.
pub open spec fn lower(a: Metrics, b: Metrics) -> Metrics {
    Metrics {
        ts: if a.ts < b.ts { a.ts } else { b.ts },
        cycles: if a.cycles < b.cycles { a.cycles } else { b.cycles },
        insn_count: if a.insn_count < b.insn_count { a.insn_count } else { b.insn_count },
    }
}

/// The counter by counter average, rounded down.
pub open spec fn average(samples: Seq<Metrics>) -> Metrics {
    Metrics::of(
        metrics::total(metrics::times(samples)) / (samples.len() as int),
        metrics::total(metrics::cycle_counts(samples)) / (samples.len() as int),
        metrics::total(metrics::insn_counts(samples)) / (samples.len() as int),
    )
}

/// The length of a range in all counters.
pub open spec fn extent(range: MetricsRange) -> Metrics {
    Metrics::of(range.ts_incr as int, range.cycles_incr as int, range.insn_incr as int)
}

pub open spec fn extents(ranges: Seq<MetricsRange>) -> Seq<Metrics> {
    Seq::new(ranges.len(), |i: int| extent(ranges[i]))
}

pub open spec fn item_offsets(group: Seq<ItemModel>) -> Seq<Metrics> {
    Seq::new(group.len(), |i: int| group[i].offset)
}

pub open spec fn item_ranges(group: Seq<ItemModel>) -> Seq<MetricsRange> {
    Seq::new(group.len(), |i: int| group[i].chunk.range())
}

pub open spec fn item_frames(group: Seq<ItemModel>) -> Seq<FrameModel> {
    Seq::new(group.len(), |i: int| group[i].chunk->Frame_0)
}

/// The range of a merged group: it starts at the average offset and is of the average length.
pub open spec fn merged_range(parent_start: Metrics, group: Seq<ItemModel>) -> MetricsRange {
    let start = parent_start.plus(average(item_offsets(group)));
    MetricsRange::between(start, start.plus(average(extents(item_ranges(group)))))
}

/// A range cut to the place between what was reached and the end, or the whole range where nothing
/// would be left of it.
pub open spec fn cut(range: MetricsRange, reached: Metrics, end: Metrics) -> MetricsRange {
    let from = upper(range.start, reached);
    let to = lower(range.spec_end(), end);
    if from.le_all(to) {
        MetricsRange::between(from, to)
    } else {
        range
    }
}

/// The chunk with another range.
pub open spec fn with_range(chunk: StoredModel, range: MetricsRange) -> StoredModel {
    match chunk {
        StoredModel::Frame(frame) => StoredModel::Frame(FrameModel { metrics: range, ..frame }),
        StoredModel::Pause(_) => StoredModel::Pause(range),
    }
}

/// Adds a chunk, cut to the place between what was reached and the end. Where nothing is left of
/// it, the chunk is lost.
pub open spec fn placed(p: Progress, end: Metrics, chunk: StoredModel) -> Progress {
    let from = upper(chunk.range().start, p.reached);
    let to = lower(chunk.range().spec_end(), end);
    if from.le_all(to) {
        Progress {
            chunks: p.chunks.push(with_range(chunk, MetricsRange::between(from, to))),
            reached: to,
            ..p
        }
    } else {
        Progress { lost: p.lost.push(chunk.range().start), ..p }
    }
}

/// Merges a group of calls of one function, or of pauses, and adds what comes out. The range is cut
/// to its place before calls are merged into it, so that they lie in what is left of it.
pub open spec fn merge_group(
    levels: nat,
    p: Progress,
    range: MetricsRange,
    group: Seq<ItemModel>,
    thresh: Single,
) -> Progress
    decreases levels, 0nat, 0nat,
{
    let merged = cut(merged_range(range.start, group), p.reached, range.spec_end());
    match group[0].chunk {
        ChunkModel::Frame(first) if levels > 0 => {
            let table = with_symbol(p.table, first.symbol);
            let inner = merge_all(
                (levels - 1) as nat,
                merged,
                item_frames(group),
                thresh,
                table,
                p.lost,
            );
            placed(
                Progress { table: inner.table, lost: inner.lost, ..p },
                range.spec_end(),
                StoredModel::Frame(
                    FrameModel {
                        symbol_idx: symbol_place(table, first.symbol) as usize,
                        symbol: first.symbol,
                        metrics: merged,
                        annotations: None,
                        chunks: inner.chunks,
                    },
                ),
            )
        },
        _ => placed(p, range.spec_end(), StoredModel::Pause(merged)),
    }
}

/// Merges groups one after the other.
pub open spec fn merge_groups(
    levels: nat,
    p: Progress,
    range: MetricsRange,
    groups: Seq<Seq<ItemModel>>,
    thresh: Single,
) -> Progress
    decreases levels, 1nat, groups.len(),
{
    if groups.len() == 0 {
        p
    } else {
        merge_group(
            levels,
            merge_groups(levels, p, range, groups.drop_last(), thresh),
            range,
            groups.last(),
            thresh,
        )
    }
}

/// The items of each sequence before the id.
pub open spec fn heads<I: Id>(sequences: Seq<Seq<I>>, id: u32) -> Seq<Seq<I>> {
    Seq::new(sequences.len(), |k: int| sequences[k].take(place(ids(sequences[k]), id)))
}

/// The items of each sequence behind the id.
pub open spec fn tails<I: Id>(sequences: Seq<Seq<I>>, id: u32) -> Seq<Seq<I>> {
    Seq::new(sequences.len(), |k: int| sequences[k].skip(place(ids(sequences[k]), id) + 1))
}

/// The groups to be merged: for each of the common ids in turn the frequent groups before it, then
/// the group of the id itself; at last the frequent groups behind all of them.
pub open spec fn groups_in_order<I: Id>(
    n: u32,
    sequences: Seq<Seq<I>>,
    common: Seq<u32>,
    thresh: Single,
) -> Seq<Seq<I>>
    decreases common.len(),
{
    if common.len() == 0 {
        frequent_groups(n, sequences, thresh)
    } else {
        frequent_groups(n, heads(sequences, common[0]), thresh) + seq![
            group_of(sequences, common[0]),
        ] + groups_in_order(n, tails(sequences, common[0]), common.drop_first(), thresh)
    }
}

/// The groups of the chunks of the frames.
pub open spec fn groups_of_frames(frames: Seq<FrameModel>, thresh: Single) -> Seq<Seq<ItemModel>> {
    let n = registry(frames).len() as u32;
    let items = indexed(frames);
    groups_in_order(
        n,
        items,
        lcs::longest_chain(frequent::id_lists(items), n as int),
        thresh,
    )
}

/// Merges the chunks of the frames into a frame of the given range. Calls may be nested in the
/// frames by as many levels as are given.
pub open spec fn merge_all(
    levels: nat,
    range: MetricsRange,
    frames: Seq<FrameModel>,
    thresh: Single,
    table: Seq<SymbolModel>,
    lost: Seq<Metrics>,
) -> Progress
    decreases levels, 2nat, 0nat,
{
    merge_groups(
        levels,
        Progress { chunks: Seq::empty(), reached: range.start, table, lost },
        range,
        groups_of_frames(frames, thresh),
        thresh,
    )
}

/// No chunk of the frame and of the calls in it starts before the frame that it is in, and calls are
/// nested by no more than `levels`.
pub open spec fn mergeable(frame: FrameModel, levels: nat) -> bool
    decreases levels,
{
    &&& starts_inside(frame)
    &&& forall|i: int|
        0 <= i < frame.chunks.len() ==> match #[trigger] frame.chunks[i] {
            StoredModel::Frame(child) => levels > 0 && mergeable(
                child,
                (levels - 1) as nat,
            ),
            StoredModel::Pause(_) => true,
        }
}

/// The chunks that are numbered together are never more than there are numbers: not those of the
/// frames, nor those of the calls of any group that is merged on the levels below.
pub open spec fn numbered(levels: nat, frames: Seq<FrameModel>, thresh: Single) -> bool
    decreases levels, 1nat,
{
    &&& chunk_count(frames) <= u32::MAX
    &&& forall|g: int|
        0 <= g < groups_of_frames(frames, thresh).len() ==> group_numbered(
            levels,
            #[trigger] groups_of_frames(frames, thresh)[g],
            thresh,
        )
}

/// Where the group is one of calls, their chunks can be numbered.
pub open spec fn group_numbered(levels: nat, group: Seq<ItemModel>, thresh: Single) -> bool
    decreases levels, 0nat,
{
    levels > 0 && group[0].chunk is Frame ==> numbered(
        (levels - 1) as nat,
        item_frames(group),
        thresh,
    )
}

/// The chunks of each group of calls can be numbered.
pub open spec fn groups_numbered(levels: nat, groups: Seq<Seq<ItemModel>>, thresh: Single) -> bool {
    forall|g: int| 0 <= g < groups.len() ==> group_numbered(levels, #[trigger] groups[g], thresh)
}

/// Counters that grow by what is merged on so many levels can be held.
pub open spec fn roomy(start: Metrics, levels: nat) -> bool {
    &&& start.ts + (levels + 2) * u32::MAX <= u64::MAX
    &&& start.cycles + (levels + 2) * u32::MAX <= u64::MAX
    &&& start.insn_count + (levels + 2) * u32::MAX <= u64::MAX
}

/// No counter is above what a range can hold.
pub open spec fn small(m: Metrics) -> bool {
    m.ts <= u32::MAX && m.cycles <= u32::MAX && m.insn_count <= u32::MAX
}

/// The item can be merged, and is a call or a pause as its id tells.
pub open spec fn item_fits(known: Seq<Key>, levels: nat, item: ItemModel) -> bool {
    &&& small(item.offset)
    &&& 1 <= item.id <= known.len()
    &&& match item.chunk {
        ChunkModel::Frame(child) => {
            &&& known[item.id - 1].symbol is Some
            &&& levels > 0
            &&& mergeable(child, (levels - 1) as nat)
        },
        ChunkModel::Pause(_) => known[item.id - 1].symbol is None,
        ChunkModel::Straightline(_) => false,
    }
}

/// The group can be merged: it is not empty, its items fit and have one id.
pub open spec fn group_fits(
    known: Seq<Key>,
    levels: nat,
    group: Seq<ItemModel>,
) -> bool {
    &&& 0 < group.len()
    &&& forall|i: int|
        0 <= i < group.len() ==> item_fits(known, levels, #[trigger] group[i]) && group[i].id
            == group[0].id
}

pub open spec fn groups_fit(
    known: Seq<Key>,
    levels: nat,
    groups: Seq<Seq<ItemModel>>,
    count: nat,
) -> bool {
    forall|g: int|
        0 <= g < groups.len() ==> group_fits(known, levels, #[trigger] groups[g])
            && groups[g].len() <= count
}

/// The chunks lie in the range, one behind the other, up to what was reached.
pub open spec fn laid_out(range: MetricsRange, chunks: Seq<StoredModel>, reached: Metrics) -> bool {
    &&& in_order(range, chunks)
    &&& range.start.le_all(reached)
    &&& reached.le_all(range.spec_end())
    &&& forall|i: int|
        0 <= i < chunks.len() ==> (#[trigger] chunks[i]).range().spec_end().le_all(reached)
}

pub proof fn placed_stays_laid_out(range: MetricsRange, p: Progress, chunk: StoredModel)
    requires
        laid_out(range, p.chunks, p.reached),
        chunk.range().fits(),
    ensures
        laid_out(
            range,
            placed(p, range.spec_end(), chunk).chunks,
            placed(p, range.spec_end(), chunk).reached,
        ),
{
    let end = range.spec_end();
    let from = upper(chunk.range().start, p.reached);
    let to = lower(chunk.range().spec_end(), end);
    let after = placed(p, end, chunk);
    if from.le_all(to) {
        assert(MetricsRange::spans(from, to));
        let added = with_range(chunk, MetricsRange::between(from, to));
        assert(after.chunks[p.chunks.len() as int] == added);
        assert forall|i: int| 0 <= i < after.chunks.len() implies (
        #[trigger] after.chunks[i]).range().fits() && range.includes(after.chunks[i].range()) by {
            if i < p.chunks.len() {
                assert(after.chunks[i] == p.chunks[i]);
            }
        }
        assert forall|i: int, j: int|
            0 <= i < j < after.chunks.len() implies (
        #[trigger] after.chunks[i]).range().spec_end().le_all(
            (#[trigger] after.chunks[j]).range().start,
        ) by {
            assert(after.chunks[i] == p.chunks[i]);
            if j < p.chunks.len() {
                assert(after.chunks[j] == p.chunks[j]);
            }
        }
        assert forall|i: int| 0 <= i < after.chunks.len() implies (
        #[trigger] after.chunks[i]).range().spec_end().le_all(after.reached) by {
            if i < p.chunks.len() {
                assert(after.chunks[i] == p.chunks[i]);
            }
        }
    }
}

/// What is laid out takes a further chunk at its end, and nowhere later.
proof fn last_slot_takes(
    range: MetricsRange,
    chunks: Seq<StoredModel>,
    reached: Metrics,
    inner: MetricsRange,
)
    requires
        laid_out(range, chunks, reached),
        reached.le_all(inner.start),
        inner.spec_end().le_all(range.spec_end()),
    ensures
        frame::slot(range, chunks, inner) == Some(chunks.len() as int),
{
    if chunks.len() > 0 {
        assert(chunks[chunks.len() - 1].range().spec_end().le_all(reached));
    }
}

fn max_of(a: &Metrics, b: &Metrics) -> (result: Metrics)
    ensures
        result == upper(*a, *b),
{
    Metrics {
        ts: if a.ts > b.ts { a.ts } else { b.ts },
        cycles: if a.cycles > b.cycles { a.cycles } else { b.cycles },
        insn_count: if a.insn_count > b.insn_count { a.insn_count } else { b.insn_count },
    }
}

fn min_of(a: &Metrics, b: &Metrics) -> (result: Metrics)
    ensures
        result == lower(*a, *b),
{
    Metrics {
        ts: if a.ts < b.ts { a.ts } else { b.ts },
        cycles: if a.cycles < b.cycles { a.cycles } else { b.cycles },
        insn_count: if a.insn_count < b.insn_count { a.insn_count } else { b.insn_count },
    }
}

/// Cuts a range to the place between what was reached and the end, unless nothing would be left of
/// it.
fn cut_range(range: MetricsRange, reached: &Metrics, end: &Metrics) -> (result: MetricsRange)
    requires
        range.fits(),
    ensures
        result == cut(range, *reached, *end),
{
    let from = max_of(&range.start, reached);
    let to = min_of(&range.end(), end);
    if from.at_most(&to) {
        MetricsRange::new(from, &to)
    } else {
        range
    }
}

/// What was cut to its place needs no more cutting.
pub proof fn cut_stays(range: MetricsRange, reached: Metrics, end: Metrics)
    requires
        range.fits(),
    ensures
        cut(range, reached, end).fits(),
        ({
            let now = cut(range, reached, end);
            let from = upper(now.start, reached);
            let to = lower(now.spec_end(), end);
            from.le_all(to) ==> MetricsRange::between(from, to) == now
        }),
{
    let from = upper(range.start, reached);
    let to = lower(range.spec_end(), end);
    if from.le_all(to) {
        assert(MetricsRange::spans(from, to));
    }
}

/// Adds a merged chunk to a frame, cut to the place between what was reached and the frame's end.
/// Where nothing is left of it, its start is noted as lost. The chunks of a call lie in what is left
/// of it, so that it stays ordered.
pub fn add_within_bounds(
    frame: &mut Frame,
    child: StoredChunk,
    reached: &mut Metrics,
    lost: &mut Vec<Metrics>,
)
    requires
        laid_out(old(frame)@.metrics, old(frame)@.chunks, *old(reached)),
        child@.range().fits(),
        child@ matches StoredModel::Frame(inner) ==> in_order(
            cut(inner.metrics, *old(reached), old(frame)@.metrics.spec_end()),
            inner.chunks,
        ),
    ensures
        ({
            let before = Progress {
                chunks: old(frame)@.chunks,
                reached: *old(reached),
                table: Seq::empty(),
                lost: old(lost)@,
            };
            let after = placed(before, old(frame)@.metrics.spec_end(), child@);
            &&& final(frame)@ == (FrameModel { chunks: after.chunks, ..old(frame)@ })
            &&& *final(reached) == after.reached
            &&& final(lost)@ == after.lost
        }),
        laid_out(final(frame)@.metrics, final(frame)@.chunks, *final(reached)),
        old(frame)@.deeply_ordered() && (child@ matches StoredModel::Frame(inner)
            ==> chunks_ordered(inner.chunks)) ==> final(frame)@.deeply_ordered(),
{
    let ghost before = Progress {
        chunks: frame@.chunks,
        reached: *reached,
        table: Seq::empty(),
        lost: lost@,
    };
    let range = *child.metrics();
    let from = max_of(&range.start, reached);
    let to = min_of(&range.end(), &frame.metrics.end());
    proof {
        placed_stays_laid_out(frame@.metrics, before, child@);
    }
    if from.at_most(&to) {
        let left = MetricsRange::new(from, &to);
        proof {
            last_slot_takes(frame@.metrics, frame@.chunks, *reached, left);
        }
        let ghost model = with_range(child@, left);
        let ghost chunks = frame@.chunks;
        let added = match child {
            StoredChunk::Frame(inner) => {
                let mut inner = inner;
                let ghost whole = inner;
                inner.metrics = left;
                proof {
                    frame::frame_view(&inner);
                    frame::frame_view(&whole);
                }
                StoredChunk::Frame(inner)
            },
            StoredChunk::Pause(_) => StoredChunk::Pause(left),
        };
        assert(added@ == model);
        let result = frame.insert_chunk(added);
        assert(frame@.chunks =~= chunks.push(model));
        *reached = to;
        proof {
            if old(frame)@.deeply_ordered() && (model matches StoredModel::Frame(inner)
                ==> chunks_ordered(inner.chunks)) {
                assert(chunks_ordered(frame@.chunks)) by {
                    assert forall|i: int|
                        0 <= i < frame@.chunks.len() implies match #[trigger] frame@.chunks[i] {
                        StoredModel::Frame(inner) => inner.deeply_ordered(),
                        StoredModel::Pause(_) => true,
                    } by {
                        if i < chunks.len() {
                            assert(frame@.chunks[i] == chunks[i]);
                        } else if let StoredModel::Frame(inner) = model {
                            assert(inner.ordered());
                        }
                    }
                }
            }
        }
    } else {
        lost.push(range.start);
    }
}

/// The average of small samples is small.
pub proof fn average_is_small(samples: Seq<Metrics>)
    requires
        samples.len() > 0,
        forall|i: int| 0 <= i < samples.len() ==> small(#[trigger] samples[i]),
    ensures
        small(average(samples)),
        0 <= metrics::total(metrics::times(samples)) / (samples.len() as int) <= u32::MAX,
        0 <= metrics::total(metrics::cycle_counts(samples)) / (samples.len() as int) <= u32::MAX,
        0 <= metrics::total(metrics::insn_counts(samples)) / (samples.len() as int) <= u32::MAX,
{
    let n = samples.len() as int;
    total_over_count(metrics::times(samples), u32::MAX as int);
    total_over_count(metrics::cycle_counts(samples), u32::MAX as int);
    total_over_count(metrics::insn_counts(samples), u32::MAX as int);
}

proof fn total_over_count(values: Seq<int>, bound: int)
    requires
        values.len() > 0,
        forall|i: int| 0 <= i < values.len() ==> 0 <= #[trigger] values[i] <= bound,
    ensures
        0 <= metrics::total(values) / (values.len() as int) <= bound,
{
    metrics::total_bounds(values, bound);
    let n = values.len() as int;
    let sum = metrics::total(values);
    assert(0 <= sum / n <= bound) by (nonlinear_arith)
        requires
            0 <= sum <= n * bound,
            n > 0,
    ;
}

/// The counter by counter average of samples, rounded down.
pub fn average_of(samples: &Vec<Metrics>) -> (result: Metrics)
    requires
        samples.len() > 0,
    ensures
        result == average(samples@),
{
    let ghost times = metrics::times(samples@);
    let ghost cycles = metrics::cycle_counts(samples@);
    let ghost insns = metrics::insn_counts(samples@);
    let mut ts: u128 = 0;
    let mut cycle_sum: u128 = 0;
    let mut insn_sum: u128 = 0;
    let mut i: usize = 0;
    while i < samples.len()
        invariant
            i <= samples.len(),
            times == metrics::times(samples@),
            cycles == metrics::cycle_counts(samples@),
            insns == metrics::insn_counts(samples@),
            ts == metrics::total(times.take(i as int)),
            cycle_sum == metrics::total(cycles.take(i as int)),
            insn_sum == metrics::total(insns.take(i as int)),
            ts <= i * u64::MAX,
            cycle_sum <= i * u64::MAX,
            insn_sum <= i * u64::MAX,
        decreases samples.len() - i,
    {
        proof {
            assert(times.take(i + 1).drop_last() =~= times.take(i as int));
            assert(cycles.take(i + 1).drop_last() =~= cycles.take(i as int));
            assert(insns.take(i + 1).drop_last() =~= insns.take(i as int));
            assert((i + 1) * u64::MAX == i * u64::MAX + u64::MAX) by (nonlinear_arith);
            assert((i + 1) * u64::MAX <= u64::MAX * u64::MAX) by (nonlinear_arith)
                requires
                    i + 1 <= u64::MAX,
            ;
        }
        let sample = samples[i];
        ts = ts + sample.ts as u128;
        cycle_sum = cycle_sum + sample.cycles as u128;
        insn_sum = insn_sum + sample.insn_count as u128;
        i += 1;
    }
    proof {
        assert(times.take(i as int) =~= times);
        assert(cycles.take(i as int) =~= cycles);
        assert(insns.take(i as int) =~= insns);
        total_over_count(times, u64::MAX as int);
        total_over_count(cycles, u64::MAX as int);
        total_over_count(insns, u64::MAX as int);
    }
    let n: u128 = samples.len() as u128;
    Metrics {
        ts: (ts / n) as u64,
        cycles: (cycle_sum / n) as u64,
        insn_count: (insn_sum / n) as u64,
    }
}

/// The length of a range in all counters.
pub fn extent_of(range: &MetricsRange) -> (result: Metrics)
    ensures
        result == extent(*range),
{
    Metrics {
        ts: range.total_time(),
        cycles: range.total_cycles(),
        insn_count: range.total_insn(),
    }
}

/// A common subsequence begins with an id that all lists hold, and goes on behind it.
pub proof fn common_goes_on<I: Id>(sequences: Seq<Seq<I>>, common: Seq<u32>)
    requires
        is_common_subsequence(common, frequent::id_lists(sequences)),
        lcs::without_repetition(frequent::id_lists(sequences)),
        common.len() > 0,
    ensures
        forall|k: int|
            0 <= k < sequences.len() ==> present(ids(#[trigger] sequences[k]), common[0]),
        is_common_subsequence(
            common.drop_first(),
            frequent::id_lists(tails(sequences, common[0])),
        ),
        lcs::without_repetition(frequent::id_lists(tails(sequences, common[0]))),
        lcs::without_repetition(frequent::id_lists(heads(sequences, common[0]))),
{
    let lists = frequent::id_lists(sequences);
    let rest = tails(sequences, common[0]);
    let front = heads(sequences, common[0]);
    let rest_lists = frequent::id_lists(rest);
    let front_lists = frequent::id_lists(front);
    assert forall|k: int| 0 <= k < sequences.len() implies present(
        ids(#[trigger] sequences[k]),
        common[0],
    ) && lcs::is_subsequence(common.drop_first(), rest_lists[k]) && rest_lists[k].no_duplicates()
        && front_lists[k].no_duplicates() by {
        let list = lists[k];
        assert(list == ids(sequences[k]));
        let at = choose|at: Seq<int>| lcs::stands_at(common, list, at);
        assert(lcs::is_subsequence(common, list));
        lcs::place_is_first(list, common[0]);
        let first = at[0];
        assert(list[first] == common[0]);
        let p = place(list, common[0]);
        if p != first {
            if p < list.len() {
                assert(list[p] == list[first]);
            }
            assert(false);
        }
        let after = Seq::new((common.len() - 1) as nat, |a: int| at[a + 1] - p - 1);
        let tail = rest_lists[k];
        assert(tail =~= list.skip(p + 1)) by {
            assert(rest[k] == sequences[k].skip(p + 1));
        }
        assert(front_lists[k] =~= list.take(p)) by {
            assert(front[k] == sequences[k].take(p));
        }
        assert(lcs::stands_at(common.drop_first(), tail, after)) by {
            assert forall|a: int| 0 <= a < common.len() - 1 implies 0 <= #[trigger] after[a]
                < tail.len() && tail[after[a]] == common.drop_first()[a] by {
                assert(at[0] < at[a + 1]);
                assert(list[at[a + 1]] == common[a + 1]);
            }
            assert forall|a: int, b: int| 0 <= a < b < common.len() - 1 implies #[trigger] after[a]
                < #[trigger] after[b] by {
                assert(at[a + 1] < at[b + 1]);
            }
        }
    }
    assert forall|k: int| 0 <= k < rest_lists.len() implies lcs::is_subsequence(
        common.drop_first(),
        #[trigger] rest_lists[k],
    ) by {
        assert(present(ids(sequences[k]), common[0]));
    }
    assert forall|k: int| 0 <= k < rest_lists.len() implies (
    #[trigger] rest_lists[k]).no_duplicates() by {
        assert(present(ids(sequences[k]), common[0]));
    }
    assert forall|k: int| 0 <= k < front_lists.len() implies (
    #[trigger] front_lists[k]).no_duplicates() by {
        assert(present(ids(sequences[k]), common[0]));
    }
}

spec fn all_items<I: Id>(sequences: Seq<Seq<I>>, p: spec_fn(I) -> bool) -> bool {
    forall|k: int, i: int|
        0 <= k < sequences.len() && 0 <= i < sequences[k].len() ==> p(#[trigger] sequences[k][i])
}

proof fn parts_have_all<I: Id>(sequences: Seq<Seq<I>>, id: u32, p: spec_fn(I) -> bool)
    requires
        all_items(sequences, p),
        forall|k: int| 0 <= k < sequences.len() ==> present(ids(#[trigger] sequences[k]), id),
    ensures
        all_items(heads(sequences, id), p),
        all_items(tails(sequences, id), p),
{
    let front = heads(sequences, id);
    let rest = tails(sequences, id);
    assert forall|k: int, i: int| 0 <= k < front.len() && 0 <= i < front[k].len() implies p(
        #[trigger] front[k][i],
    ) by {
        lcs::place_is_first(ids(sequences[k]), id);
        assert(front[k][i] == sequences[k][i]);
    }
    assert forall|k: int, i: int| 0 <= k < rest.len() && 0 <= i < rest[k].len() implies p(
        #[trigger] rest[k][i],
    ) by {
        lcs::place_is_first(ids(sequences[k]), id);
        let from = place(ids(sequences[k]), id) + 1;
        assert(present(ids(sequences[k]), id));
        assert(rest[k][i] == sequences[k][from + i]);
    }
}

/// Every frequent group of fitting items fits.
proof fn frequent_groups_fit(
    n: u32,
    sequences: Seq<Seq<ItemModel>>,
    thresh: Single,
    known: Seq<Key>,
    levels: nat,
)
    requires
        all_items(sequences, |item: ItemModel| item_fits(known, levels, item)),
    ensures
        groups_fit(
            known,
            levels,
            frequent_groups(n, sequences, thresh),
            sequences.len(),
        ),
{
    let p = |item: ItemModel| item_fits(known, levels, item);
    frequent::groups_keep(n, sequences, thresh, p);
    let groups = frequent_groups(n, sequences, thresh);
    assert forall|g: int| 0 <= g < groups.len() implies group_fits(
        known,
        levels,
        #[trigger] groups[g],
    ) && groups[g].len() <= sequences.len() by {
        assert forall|i: int| 0 <= i < groups[g].len() implies item_fits(
            known,
            levels,
            #[trigger] groups[g][i],
        ) && groups[g][i].id == groups[g][0].id by {
            assert(p(groups[g][i]));
            assert(groups[g][i].spec_id() == groups[g][0].spec_id());
        }
    }
}

/// The group of an id that all sequences of fitting items hold fits.
proof fn common_group_fits(
    sequences: Seq<Seq<ItemModel>>,
    id: u32,
    known: Seq<Key>,
    levels: nat,
)
    requires
        sequences.len() > 0,
        forall|k: int| 0 <= k < sequences.len() ==> present(ids(#[trigger] sequences[k]), id),
        all_items(sequences, |item: ItemModel| item_fits(known, levels, item)),
    ensures
        group_fits(known, levels, group_of(sequences, id)),
        group_of(sequences, id).len() <= sequences.len(),
{
    let p = |item: ItemModel| item_fits(known, levels, item);
    frequent::group_keeps(sequences, id, p);
    frequent::group_is_not_empty(sequences, id, 0);
    let group = group_of(sequences, id);
    assert forall|i: int| 0 <= i < group.len() implies item_fits(
        known,
        levels,
        #[trigger] group[i],
    ) && group[i].id == group[0].id by {
        assert(p(group[i]));
        assert(group[0].spec_id() == id);
        assert(group[i].spec_id() == id);
    }
}

/// The items of mergeable frames fit.
proof fn indexed_items_fit(frames: Seq<FrameModel>, levels: nat)
    requires
        chunk_count(frames) <= u32::MAX,
        forall|f: int| 0 <= f < frames.len() ==> mergeable(#[trigger] frames[f], levels),
    ensures
        all_items(
            indexed(frames),
            |item: ItemModel| item_fits(registry(frames), levels, item),
        ),
{
    let known = registry(frames);
    let p = |item: ItemModel| item_fits(known, levels, item);
    let items = indexed(frames);
    index::indexed_ids(frames);
    assert forall|f: int, i: int| 0 <= f < items.len() && 0 <= i < items[f].len() implies p(
        #[trigger] items[f][i],
    ) by {
        assert(mergeable(frames[f], levels));
        let chunk = frames[f].chunks[i];
        assert(MetricsRange::spans(frames[f].metrics.start, chunk.range().start));
        index::id_names_key(frames, f, i);
    }
}

/// The models of a group of items.
pub open spec fn group_model<'a>(group: Seq<&ChunkIndexed<'a>>) -> Seq<ItemModel> {
    Seq::new(group.len(), |i: int| group[i]@)
}

/// A frame that is being filled, and what goes with it, are as far as the model says.
spec fn stands(
    frame: FrameModel,
    reached: Metrics,
    table: Seq<SymbolModel>,
    lost: Seq<Metrics>,
    p: Progress,
) -> bool {
    frame.chunks == p.chunks && reached == p.reached && table == p.table && lost == p.lost
}

pub proof fn room_for_group(start: Metrics, levels: nat, offset: Metrics, length: Metrics)
    requires
        roomy(start, levels),
        small(offset),
        small(length),
    ensures
        start.plus_fits(offset),
        start.plus(offset).plus_fits(length),
        MetricsRange::spans(start.plus(offset), start.plus(offset).plus(length)),
        levels > 0 ==> roomy(start.plus(offset), (levels - 1) as nat),
{
    let m = u32::MAX as int;
    assert((levels + 2) * m == levels * m + 2 * m) by (nonlinear_arith);
    assert(levels * m >= 0) by (nonlinear_arith)
        requires
            levels >= 0,
            m >= 0,
    ;
    if levels > 0 {
        assert(((levels - 1) + 2) * m == levels * m + m) by (nonlinear_arith);
    }
}

/// What is cut to its place still leaves room for the calls in it.
pub proof fn room_for_cut(range: MetricsRange, levels: nat, merged: MetricsRange, reached: Metrics)
    requires
        levels > 0,
        range.fits(),
        roomy(range.start, levels),
        roomy(merged.start, (levels - 1) as nat),
        reached.le_all(range.spec_end()),
    ensures
        roomy(cut(merged, reached, range.spec_end()).start, (levels - 1) as nat),
{
    let m = u32::MAX as int;
    assert((levels + 2) * m == levels * m + 2 * m) by (nonlinear_arith);
    assert(((levels - 1) + 2) * m == levels * m + m) by (nonlinear_arith);
}

/// The frames of a group of calls.
fn group_frames<'a>(
    group: &Vec<&ChunkIndexed<'a>>,
    Ghost(known): Ghost<Seq<Key>>,
    Ghost(levels): Ghost<nat>,
) -> (result: Vec<&'a Frame>)
    requires
        group_fits(known, levels, group_model(group@)),
        group_model(group@)[0].chunk is Frame,
    ensures
        levels > 0,
        frame_models(result@) == item_frames(group_model(group@)),
        forall|f: int|
            0 <= f < result.len() ==> mergeable((#[trigger] result@[f])@, (levels - 1) as nat),
{
    let ghost items = group_model(group@);
    let mut frames: Vec<&'a Frame> = Vec::new();
    let mut k: usize = 0;
    while k < group.len()
        invariant
            k <= group.len(),
            items == group_model(group@),
            group_fits(known, levels, items),
            items[0].chunk is Frame,
            frame_models(frames@) == item_frames(items).take(k as int),
        decreases group.len() - k,
    {
        assert(items[k as int] == group@[k as int]@);
        assert(item_fits(known, levels, items[k as int]));
        assert(item_fits(known, levels, items[0]));
        assert(items[k as int].id == items[0].id);
        assert(items[k as int].chunk is Frame);
        let ghost so_far = frame_models(frames@);
        if let Chunk::Frame(inner) = group[k].original {
            frames.push(inner);
            assert(inner@ == item_frames(items)[k as int]);
        }
        assert(frame_models(frames@) =~= so_far.push(item_frames(items)[k as int]));
        assert(frame_models(frames@) =~= item_frames(items).take(k + 1));
        k += 1;
    }
    proof {
        assert(frame_models(frames@) =~= item_frames(items));
        assert(item_fits(known, levels, items[0]));
        assert forall|f: int| 0 <= f < frames.len() implies mergeable(
            (#[trigger] frames@[f])@,
            (levels - 1) as nat,
        ) by {
            assert(frame_models(frames@)[f] == item_frames(items)[f]);
            assert(item_fits(known, levels, items[f]));
            assert(items[f].id == items[0].id);
        }
    }
    frames
}

/// Merges a group of calls or pauses and adds what comes out to the frame.
fn add_group<'a>(
    new_parent: &mut Frame,
    group: &Vec<&ChunkIndexed<'a>>,
    reached: &mut Metrics,
    symbols: &mut SymbolCache,
    lost: &mut Vec<Metrics>,
    thresh: Single,
    Ghost(known): Ghost<Seq<Key>>,
    Ghost(levels): Ghost<nat>,
)
    requires
        thresh.units <= single::ONE,
        old(symbols).wf(),
        laid_out(old(new_parent)@.metrics, old(new_parent)@.chunks, *old(reached)),
        roomy(old(new_parent)@.metrics.start, levels),
        group_fits(known, levels, group_model(group@)),
        group_numbered(levels, group_model(group@), thresh),
        group.len() <= u32::MAX,
    ensures
        final(symbols).wf(),
        laid_out(final(new_parent)@.metrics, final(new_parent)@.chunks, *final(reached)),
        ({
            let before = Progress {
                chunks: old(new_parent)@.chunks,
                reached: *old(reached),
                table: old(symbols)@,
                lost: old(lost)@,
            };
            let after = merge_group(
                levels,
                before,
                old(new_parent)@.metrics,
                group_model(group@),
                thresh,
            );
            &&& final(new_parent)@ == (FrameModel { chunks: after.chunks, ..old(new_parent)@ })
            &&& stands(final(new_parent)@, *final(reached), final(symbols)@, final(lost)@, after)
        }),
    decreases levels, 0nat,
{
    let ghost items = group_model(group@);
    let ghost before = Progress {
        chunks: new_parent@.chunks,
        reached: *reached,
        table: symbols@,
        lost: lost@,
    };
    let ghost range = new_parent@.metrics;
    let mut offsets: Vec<Metrics> = Vec::new();
    let mut lengths: Vec<Metrics> = Vec::new();
    let mut i: usize = 0;
    while i < group.len()
        invariant
            i <= group.len(),
            items == group_model(group@),
            offsets@ == item_offsets(items).take(i as int),
            lengths@ == extents(item_ranges(items)).take(i as int),
        decreases group.len() - i,
    {
        assert(items[i as int] == group@[i as int]@);
        offsets.push(group[i].offset_in_parent);
        lengths.push(extent_of(&group[i].original.metrics()));
        assert(offsets@ =~= item_offsets(items).take(i + 1));
        assert(lengths@ =~= extents(item_ranges(items)).take(i + 1));
        i += 1;
    }
    proof {
        assert(item_offsets(items).take(i as int) =~= item_offsets(items));
        assert(extents(item_ranges(items)).take(i as int) =~= extents(item_ranges(items)));
        assert forall|k: int| 0 <= k < offsets@.len() implies small(#[trigger] offsets@[k]) by {
            assert(item_fits(known, levels, items[k]));
        }
        average_is_small(offsets@);
        average_is_small(lengths@);
        room_for_group(range.start, levels, average(offsets@), average(lengths@));
    }
    let start = new_parent.metrics.start + average_of(&offsets);
    let end = start + average_of(&lengths);
    let whole_metrics = MetricsRange::new(start, &end);
    assert(whole_metrics == merged_range(range.start, items));
    let merged_metrics = cut_range(whole_metrics, reached, &new_parent.metrics.end());
    proof {
        cut_stays(whole_metrics, *reached, range.spec_end());
        if levels > 0 {
            room_for_cut(range, levels, whole_metrics, *reached);
        }
    }
    assert(items[0] == group@[0]@);
    assert(item_fits(known, levels, items[0]));
    match group[0].original {
        Chunk::Frame(first) => {
            let frames = group_frames(group, Ghost(known), Ghost(levels));
            assert(frame_models(frames@) =~= item_frames(items));
            let symbol_idx: usize = symbols.get_or_insert((*first.symbol).clone());
            let mut merged = Frame::new(merged_metrics, symbol_idx, symbols.get_ref(symbol_idx));
            let ghost fresh = merged@;
            merge_level(
                &mut merged,
                frames.as_slice(),
                symbols,
                lost,
                thresh,
                Ghost((levels - 1) as nat),
            );
            add_within_bounds(new_parent, StoredChunk::Frame(merged), reached, lost);
        },
        _ => {
            add_within_bounds(new_parent, StoredChunk::Pause(merged_metrics), reached, lost);
        },
    }
}

/// Merges groups and adds what comes out to the frame.
fn add_groups<'a>(
    new_parent: &mut Frame,
    groups: &Vec<Vec<&ChunkIndexed<'a>>>,
    reached: &mut Metrics,
    symbols: &mut SymbolCache,
    lost: &mut Vec<Metrics>,
    thresh: Single,
    Ghost(models): Ghost<Seq<Seq<ItemModel>>>,
    Ghost(known): Ghost<Seq<Key>>,
    Ghost(levels): Ghost<nat>,
    Ghost(count): Ghost<nat>,
)
    requires
        thresh.units <= single::ONE,
        old(symbols).wf(),
        laid_out(old(new_parent)@.metrics, old(new_parent)@.chunks, *old(reached)),
        roomy(old(new_parent)@.metrics.start, levels),
        models.len() == groups.len(),
        forall|g: int| 0 <= g < models.len() ==> #[trigger] models[g] == group_model(groups@[g]@),
        groups_fit(known, levels, models, count),
        groups_numbered(levels, models, thresh),
        count <= u32::MAX,
    ensures
        final(symbols).wf(),
        laid_out(final(new_parent)@.metrics, final(new_parent)@.chunks, *final(reached)),
        ({
            let before = Progress {
                chunks: old(new_parent)@.chunks,
                reached: *old(reached),
                table: old(symbols)@,
                lost: old(lost)@,
            };
            let after = merge_groups(levels, before, old(new_parent)@.metrics, models, thresh);
            &&& final(new_parent)@ == (FrameModel { chunks: after.chunks, ..old(new_parent)@ })
            &&& stands(final(new_parent)@, *final(reached), final(symbols)@, final(lost)@, after)
        }),
    decreases levels, 1nat,
{
    let ghost before = Progress {
        chunks: new_parent@.chunks,
        reached: *reached,
        table: symbols@,
        lost: lost@,
    };
    let ghost parent = new_parent@;
    let mut g: usize = 0;
    assert(models.take(0) =~= Seq::empty());
    while g < groups.len()
        invariant
            g <= groups.len(),
            thresh.units <= single::ONE,
            symbols.wf(),
            laid_out(new_parent@.metrics, new_parent@.chunks, *reached),
            roomy(new_parent@.metrics.start, levels),
            models.len() == groups.len(),
            forall|k: int|
                0 <= k < models.len() ==> #[trigger] models[k] == group_model(groups@[k]@),
            groups_fit(known, levels, models, count),
            groups_numbered(levels, models, thresh),
            count <= u32::MAX,
            parent == old(new_parent)@,
            before == (Progress {
                chunks: old(new_parent)@.chunks,
                reached: *old(reached),
                table: old(symbols)@,
                lost: old(lost)@,
            }),
            new_parent@ == (FrameModel { chunks: new_parent@.chunks, ..parent }),
            stands(
                new_parent@,
                *reached,
                symbols@,
                lost@,
                merge_groups(levels, before, parent.metrics, models.take(g as int), thresh),
            ),
        decreases groups.len() - g,
    {
        proof {
            assert(models.take(g + 1).drop_last() =~= models.take(g as int));
            assert(models.take(g + 1).last() == models[g as int]);
            assert(models[g as int] == group_model(groups@[g as int]@));
            assert(group_fits(known, levels, models[g as int]));
            assert(group_numbered(levels, models[g as int], thresh));
        }
        add_group(
            new_parent,
            &groups[g],
            reached,
            symbols,
            lost,
            thresh,
            Ghost(known),
            Ghost(levels),
        );
        g += 1;
    }
    assert(models.take(g as int) =~= models);
}

/// The sequences of items and their models go together, and the items fit.
spec fn sequences_held<'a>(
    sequences: Seq<&[ChunkIndexed<'a>]>,
    items: Seq<Seq<ItemModel>>,
    n: u32,
    known: Seq<Key>,
    levels: nat,
) -> bool {
    &&& frequent::mapped(
        frequent::contents(sequences),
        items,
        |c: ChunkIndexed<'a>| c@,
    )
    &&& all_items(items, |item: ItemModel| item_fits(known, levels, item))
    &&& lcs::ids_up_to(frequent::id_lists(items), n)
}

proof fn held_ids<'a>(
    sequences: Seq<&[ChunkIndexed<'a>]>,
    items: Seq<Seq<ItemModel>>,
    n: u32,
    known: Seq<Key>,
    levels: nat,
)
    requires
        sequences_held(sequences, items, n, known, levels),
    ensures
        lcs::id_lists(sequences) == frequent::id_lists(items),
        frequent::id_lists(frequent::contents(sequences)) == frequent::id_lists(items),
        forall|k: int| 0 <= k < sequences.len() ==> ids((#[trigger] sequences[k])@) == ids(items[k]),
{
    let contents = frequent::contents(sequences);
    frequent::mapped_ids(contents, items, |c: ChunkIndexed<'a>| c@);
    assert(lcs::id_lists(sequences) =~= frequent::id_lists(contents));
    assert forall|k: int| 0 <= k < sequences.len() implies ids((#[trigger] sequences[k])@) == ids(
        items[k],
    ) by {
        assert(contents[k] == sequences[k]@);
        assert(ids(contents[k]) == ids(items[k]));
    }
}

/// The groups so far are those of the model.
spec fn groups_stand<'a>(groups: Seq<Vec<&ChunkIndexed<'a>>>, models: Seq<Seq<ItemModel>>) -> bool {
    &&& groups.len() == models.len()
    &&& forall|g: int| 0 <= g < models.len() ==> #[trigger] models[g] == group_model(groups[g]@)
}

proof fn groups_joined<'a>(
    a: Seq<Vec<&ChunkIndexed<'a>>>,
    b: Seq<Vec<&ChunkIndexed<'a>>>,
    x: Seq<Seq<ItemModel>>,
    y: Seq<Seq<ItemModel>>,
)
    requires
        groups_stand(a, x),
        groups_stand(b, y),
    ensures
        groups_stand(a + b, x + y),
{
    assert forall|g: int| 0 <= g < (x + y).len() implies #[trigger] (x + y)[g] == group_model(
        (a + b)[g]@,
    ) by {
        if g < x.len() {
            assert((x + y)[g] == x[g]);
        } else {
            assert((x + y)[g] == y[g - x.len()]);
        }
    }
}

/// The frequent groups of the sequences.
fn frequent_among<'a, 'b>(
    n: u32,
    sequences: &Vec<&'b [ChunkIndexed<'a>]>,
    thresh: Single,
    Ghost(items): Ghost<Seq<Seq<ItemModel>>>,
    Ghost(known): Ghost<Seq<Key>>,
    Ghost(levels): Ghost<nat>,
) -> (result: Vec<Vec<&'b ChunkIndexed<'a>>>)
    requires
        thresh.units <= single::ONE,
        sequences_held(sequences@, items, n, known, levels),
        frequent::countable(items),
    ensures
        groups_stand(result@, frequent_groups(n, items, thresh)),
{
    let ghost map = |c: ChunkIndexed<'a>| c@;
    let ghost contents = frequent::contents(sequences@);
    proof {
        held_ids(sequences@, items, n, known, levels);
        frequent::size_of_same_lengths(contents, items);
    }
    let groups = find_frequent_children(n, sequences.as_slice(), thresh);
    let ghost models = frequent_groups(n, items, thresh);
    proof {
        frequent::mapped_groups(n, contents, items, thresh, map);
        assert forall|g: int| 0 <= g < models.len() implies #[trigger] models[g] == group_model(
            groups@[g]@,
        ) by {
            assert(frequent::group_items(groups@)[g].map_values(map) =~= group_model(groups@[g]@));
        }
    }
    groups
}

/// The groups to be merged of the chunks of frames, from the lists of their items: for each item
/// that all lists hold in one order the frequent groups before it, then the group of the item
/// itself; at last the frequent groups behind all of them.
fn groups_among<'a, 'b>(
    n: u32,
    lists: &'b Vec<Vec<ChunkIndexed<'a>>>,
    thresh: Single,
    Ghost(models): Ghost<Seq<FrameModel>>,
    Ghost(levels): Ghost<nat>,
) -> (result: Vec<Vec<&'b ChunkIndexed<'a>>>)
    requires
        thresh.units <= single::ONE,
        0 < models.len() <= u32::MAX,
        chunk_count(models) <= u32::MAX,
        forall|f: int| 0 <= f < models.len() ==> mergeable(#[trigger] models[f], levels),
        n == registry(models).len(),
        index::item_models(lists@) == indexed(models),
    ensures
        groups_stand(result@, groups_of_frames(models, thresh)),
{
    let ghost known = registry(models);
    let ghost all_models = indexed(models);
    proof {
        indexed_items_fit(models, levels);
        index::indexed_ids(models);
        size_of_indexed(models, all_models);
    }
    let mut sequences: Vec<&'b [ChunkIndexed<'a>]> = Vec::new();
    let mut k: usize = 0;
    while k < lists.len()
        invariant
            k <= lists.len(),
            sequences.len() == k,
            forall|q: int| 0 <= q < k ==> (#[trigger] sequences@[q])@ == lists@[q]@,
        decreases lists.len() - k,
    {
        sequences.push(lists[k].as_slice());
        k += 1;
    }
    let ghost mut items = all_models;
    proof {
        assert(item_lists_match(sequences@, lists@, items));
        indexed_held(sequences@, lists@, models, n, levels);
        held_ids(sequences@, items, n, known, levels);
    }
    let common = find_lcs(n, sequences.as_slice());
    let ghost all_groups = groups_of_frames(models, thresh);
    assert(all_groups == groups_in_order(n, items, common@, thresh));
    let mut groups: Vec<Vec<&'b ChunkIndexed<'a>>> = Vec::new();
    let ghost mut done: Seq<Seq<ItemModel>> = Seq::empty();
    let mut c: usize = 0;
    proof {
        assert(common@.skip(0) =~= common@);
        assert(done + groups_in_order(n, items, common@, thresh) =~= all_groups);
    }
    while c < common.len()
        invariant
            c <= common.len(),
            thresh.units <= single::ONE,
            0 < models.len(),
            sequences@.len() == models.len(),
            items.len() == models.len(),
            frequent::countable(items),
            sequences_held(sequences@, items, n, known, levels),
            lcs::without_repetition(frequent::id_lists(items)),
            is_common_subsequence(common@.skip(c as int), frequent::id_lists(items)),
            all_groups == done + groups_in_order(n, items, common@.skip(c as int), thresh),
            groups_stand(groups@, done),
        decreases common.len() - c,
    {
        let id: u32 = common[c];
        let ghost left = common@.skip(c as int);
        let ghost contents = frequent::contents(sequences@);
        proof {
            assert(left[0] == id);
            assert(left.drop_first() =~= common@.skip(c + 1));
            common_goes_on(items, left);
            held_ids(sequences@, items, n, known, levels);
            parts_have_all(items, id, |item: ItemModel| item_fits(known, levels, item));
        }
        let mut group: Vec<&'b ChunkIndexed<'a>> = Vec::new();
        let mut before_id: Vec<&'b [ChunkIndexed<'a>]> = Vec::new();
        let mut after_id: Vec<&'b [ChunkIndexed<'a>]> = Vec::new();
        let mut q: usize = 0;
        while q < sequences.len()
            invariant
                q <= sequences.len(),
                items.len() == sequences@.len(),
                contents == frequent::contents(sequences@),
                forall|j: int|
                    0 <= j < sequences.len() ==> ids((#[trigger] sequences@[j])@) == ids(items[j]),
                forall|j: int| 0 <= j < items.len() ==> present(ids(#[trigger] items[j]), id),
                before_id.len() == q,
                after_id.len() == q,
                forall|j: int|
                    0 <= j < q ==> (#[trigger] before_id@[j])@ == heads(contents, id)[j],
                forall|j: int|
                    0 <= j < q ==> (#[trigger] after_id@[j])@ == tails(contents, id)[j],
                group@.len() == group_of(contents.take(q as int), id).len(),
                forall|j: int|
                    0 <= j < group@.len() ==> *(#[trigger] group@[j]) == group_of(
                        contents.take(q as int),
                        id,
                    )[j],
            decreases sequences.len() - q,
        {
            let sequence = sequences[q];
            proof {
                assert(contents[q as int] == sequence@);
                assert(ids(sequences@[q as int]@) == ids(items[q as int]));
                assert(present(ids(items[q as int]), id));
                assert(contents.take(q + 1).drop_last() =~= contents.take(q as int));
                assert(contents.take(q + 1).last() == sequence@);
            }
            let at: usize = lcs::find_place(sequence, id);
            group.push(&sequence[at]);
            before_id.push(slice_subrange(sequence, 0, at));
            after_id.push(slice_subrange(sequence, at + 1, sequence.len()));
            assert(before_id@[q as int]@ =~= heads(contents, id)[q as int]);
            assert(after_id@[q as int]@ =~= tails(contents, id)[q as int]);
            q += 1;
        }
        let ghost front = heads(items, id);
        let ghost rest = tails(items, id);
        let ghost map = |c: ChunkIndexed<'a>| c@;
        let ghost common_group = group_of(items, id);
        proof {
            assert(contents.take(q as int) =~= contents);
            assert(frequent::contents(before_id@) =~= heads(contents, id));
            assert(frequent::contents(after_id@) =~= tails(contents, id));
            parts_held(sequences@, before_id@, after_id@, items, n, known, levels, id);
            frequent::mapped_group(contents, items, map, id);
            assert(group_model(group@) =~= common_group);
            parts_countable(items, id);
        }
        let mut frequent_before = frequent_among(
            n,
            &before_id,
            thresh,
            Ghost(front),
            Ghost(known),
            Ghost(levels),
        );
        let ghost frequent_models = frequent_groups(n, front, thresh);
        proof {
            groups_joined(groups@, frequent_before@, done, frequent_models);
        }
        groups.append(&mut frequent_before);
        groups.push(group);
        proof {
            done = (done + frequent_models).push(common_group);
            items = rest;
            assert(all_groups =~= done + groups_in_order(n, items, common@.skip(c + 1), thresh));
        }
        sequences = after_id;
        c += 1;
    }
    assert(common@.skip(c as int) =~= Seq::empty());
    let mut frequent_after = frequent_among(
        n,
        &sequences,
        thresh,
        Ghost(items),
        Ghost(known),
        Ghost(levels),
    );
    proof {
        groups_joined(groups@, frequent_after@, done, frequent_groups(n, items, thresh));
    }
    groups.append(&mut frequent_after);
    groups
}

/// Merges the chunks of the frames into a frame that has none yet.
fn merge_level<'a>(
    new_parent: &mut Frame,
    frames: &[&'a Frame],
    symbols: &mut SymbolCache,
    lost: &mut Vec<Metrics>,
    thresh: Single,
    Ghost(levels): Ghost<nat>,
)
    requires
        thresh.units <= single::ONE,
        old(symbols).wf(),
        old(new_parent)@.metrics.fits(),
        old(new_parent)@.chunks.len() == 0,
        roomy(old(new_parent)@.metrics.start, levels),
        0 < frames.len() <= u32::MAX,
        forall|f: int| 0 <= f < frames.len() ==> mergeable((#[trigger] frames@[f])@, levels),
        numbered(levels, frame_models(frames@), thresh),
    ensures
        final(symbols).wf(),
        ({
            let after = merge_all(
                levels,
                old(new_parent)@.metrics,
                frame_models(frames@),
                thresh,
                old(symbols)@,
                old(lost)@,
            );
            &&& final(new_parent)@ == (FrameModel { chunks: after.chunks, ..old(new_parent)@ })
            &&& final(symbols)@ == after.table
            &&& final(lost)@ == after.lost
            &&& laid_out(final(new_parent)@.metrics, after.chunks, after.reached)
        }),
    decreases levels, 2nat,
{
    let ghost models = frame_models(frames@);
    let ghost parent = new_parent@;
    proof {
        assert forall|f: int| 0 <= f < models.len() implies mergeable(
            #[trigger] models[f],
            levels,
        ) by {
            assert(mergeable(frames@[f]@, levels));
        }
        groups_of_frames_fit(models, thresh, levels);
        assert(parent.chunks =~= Seq::empty());
    }
    let (n, lists) = index_children(frames);
    let groups = groups_among(n, &lists, thresh, Ghost(models), Ghost(levels));
    let mut reached = new_parent.metrics.start;
    add_groups(
        new_parent,
        &groups,
        &mut reached,
        symbols,
        lost,
        thresh,
        Ghost(groups_of_frames(models, thresh)),
        Ghost(registry(models)),
        Ghost(levels),
        Ghost(models.len()),
    );
}

/// How many chunks the frames have in all, or none where they are more than there are numbers.
fn count_chunks(frames: &[&Frame]) -> (result: Option<u32>)
    ensures
        match result {
            Some(count) => count == chunk_count(frame_models(frames@)),
            None => chunk_count(frame_models(frames@)) > u32::MAX,
        },
{
    let ghost models = frame_models(frames@);
    let mut count: u32 = 0;
    let mut f: usize = 0;
    assert(models.take(0) =~= Seq::empty());
    while f < frames.len()
        invariant
            f <= frames.len(),
            models == frame_models(frames@),
            count == chunk_count(models.take(f as int)),
        decreases frames.len() - f,
    {
        proof {
            assert(models.take(f + 1).drop_last() =~= models.take(f as int));
            assert(models.take(f + 1).last() == frames@[f as int]@);
            frame::frame_view(frames@[f as int]);
            index::chunk_counts(models, f as int);
        }
        let more: usize = frames[f].chunks.len();
        if more > (u32::MAX - count) as usize {
            return None;
        }
        count = count + more as u32;
        f += 1;
    }
    assert(models.take(f as int) =~= models);
    Some(count)
}

/// Whether the chunks that are numbered together are never more than there are numbers.
pub fn can_number(frames: &[&Frame], thresh: Single, levels: u32) -> (result: bool)
    requires
        thresh.units <= single::ONE,
        0 < frames.len() <= u32::MAX,
        forall|f: int| 0 <= f < frames.len() ==> mergeable((#[trigger] frames@[f])@, levels as nat),
    ensures
        result == numbered(levels as nat, frame_models(frames@), thresh),
    decreases levels,
{
    let ghost models = frame_models(frames@);
    if count_chunks(frames).is_none() {
        return false;
    }
    proof {
        assert forall|f: int| 0 <= f < models.len() implies mergeable(
            #[trigger] models[f],
            levels as nat,
        ) by {
            assert(mergeable(frames@[f]@, levels as nat));
        }
        groups_of_frames_fit(models, thresh, levels as nat);
    }
    let (n, lists) = index_children(frames);
    let groups = groups_among(n, &lists, thresh, Ghost(models), Ghost(levels as nat));
    let ghost group_models = groups_of_frames(models, thresh);
    let mut g: usize = 0;
    while g < groups.len()
        invariant
            g <= groups.len(),
            thresh.units <= single::ONE,
            models == frame_models(frames@),
            0 < models.len() <= u32::MAX,
            chunk_count(models) <= u32::MAX,
            group_models == groups_of_frames(models, thresh),
            groups_stand(groups@, group_models),
            groups_fit(registry(models), levels as nat, group_models, models.len()),
            forall|k: int|
                0 <= k < g ==> group_numbered(levels as nat, #[trigger] group_models[k], thresh),
        decreases groups.len() - g,
    {
        let group = &groups[g];
        proof {
            assert(group_models[g as int] == group_model(group@));
            assert(group_fits(registry(models), levels as nat, group_models[g as int]));
            assert(group_model(group@)[0] == group@[0]@);
        }
        if let Chunk::Frame(_) = group[0].original {
            let inner = group_frames(group, Ghost(registry(models)), Ghost(levels as nat));
            assert(frame_models(inner@).len() == group_models[g as int].len());
            if !can_number(inner.as_slice(), thresh, levels - 1) {
                assert(!group_numbered(levels as nat, group_models[g as int], thresh));
                return false;
            }
        }
        g += 1;
    }
    true
}

spec fn item_lists_match<'a>(
    sequences: Seq<&[ChunkIndexed<'a>]>,
    lists: Seq<Vec<ChunkIndexed<'a>>>,
    items: Seq<Seq<ItemModel>>,
) -> bool {
    &&& sequences.len() == lists.len()
    &&& forall|q: int| 0 <= q < sequences.len() ==> (#[trigger] sequences[q])@ == lists[q]@
    &&& index::item_models(lists) == items
}

proof fn indexed_held<'a>(
    sequences: Seq<&[ChunkIndexed<'a>]>,
    lists: Seq<Vec<ChunkIndexed<'a>>>,
    frames: Seq<FrameModel>,
    n: u32,
    levels: nat,
)
    requires
        item_lists_match(sequences, lists, indexed(frames)),
        chunk_count(frames) <= u32::MAX,
        n == registry(frames).len(),
        all_items(
            indexed(frames),
            |item: ItemModel| item_fits(registry(frames), levels, item),
        ),
    ensures
        sequences_held(sequences, indexed(frames), n, registry(frames), levels),
        lcs::without_repetition(frequent::id_lists(indexed(frames))),
{
    let items = indexed(frames);
    let contents = frequent::contents(sequences);
    let map = |c: ChunkIndexed<'a>| c@;
    index::indexed_ids(frames);
    assert forall|k: int| 0 <= k < contents.len() implies (#[trigger] contents[k]).len()
        == items[k].len() by {
        assert(sequences[k]@ == lists[k]@);
        assert(index::item_models(lists)[k] == items[k]);
    }
    assert forall|k: int, i: int| 0 <= k < contents.len() && 0 <= i < contents[k].len() implies items[k][i]
        == map(#[trigger] contents[k][i]) && contents[k][i].spec_id() == map(
        contents[k][i],
    ).spec_id() by {
        assert(sequences[k]@ == lists[k]@);
        assert(index::item_models(lists)[k][i] == lists[k]@[i]@);
    }
    let id_lists = frequent::id_lists(items);
    assert forall|k: int, i: int| 0 <= k < id_lists.len() && 0 <= i < id_lists[k].len() implies 1
        <= #[trigger] id_lists[k][i] <= n by {
        assert(1 <= items[k][i].id <= registry(frames).len());
    }
    assert forall|k: int| 0 <= k < id_lists.len() implies (
    #[trigger] id_lists[k]).no_duplicates() by {
        assert forall|i: int, j: int|
            0 <= i < id_lists[k].len() && 0 <= j < id_lists[k].len() && i != j implies id_lists[k][i]
            != id_lists[k][j] by {
            if i < j {
                assert(items[k][i].id != items[k][j].id);
            } else {
                assert(items[k][j].id != items[k][i].id);
            }
        }
    }
}

proof fn parts_held<'a>(
    sequences: Seq<&[ChunkIndexed<'a>]>,
    before: Seq<&[ChunkIndexed<'a>]>,
    after: Seq<&[ChunkIndexed<'a>]>,
    items: Seq<Seq<ItemModel>>,
    n: u32,
    known: Seq<Key>,
    levels: nat,
    id: u32,
)
    requires
        sequences_held(sequences, items, n, known, levels),
        forall|k: int| 0 <= k < items.len() ==> present(ids(#[trigger] items[k]), id),
        frequent::contents(before) == heads(frequent::contents(sequences), id),
        frequent::contents(after) == tails(frequent::contents(sequences), id),
    ensures
        sequences_held(before, heads(items, id), n, known, levels),
        sequences_held(after, tails(items, id), n, known, levels),
{
    let map = |c: ChunkIndexed<'a>| c@;
    let p = |item: ItemModel| item_fits(known, levels, item);
    let contents = frequent::contents(sequences);
    let (c1, c2) = (heads(contents, id), tails(contents, id));
    let (i1, i2) = (heads(items, id), tails(items, id));
    held_ids(sequences, items, n, known, levels);
    parts_have_all(items, id, p);
    frequent::mapped_ids(contents, items, map);
    let lists = frequent::id_lists(items);
    assert forall|k: int| 0 <= k < c1.len() implies (#[trigger] c1[k]).len() == i1[k].len()
        && c2[k].len() == i2[k].len() by {
        assert(ids(contents[k]) == ids(items[k]));
        lcs::place_is_first(ids(items[k]), id);
        assert(present(ids(items[k]), id));
    }
    assert forall|k: int, i: int| 0 <= k < c1.len() && 0 <= i < c1[k].len() implies i1[k][i] == map(
        #[trigger] c1[k][i],
    ) && c1[k][i].spec_id() == map(c1[k][i]).spec_id() by {
        assert(ids(contents[k]) == ids(items[k]));
        lcs::place_is_first(ids(items[k]), id);
        assert(contents[k].len() == items[k].len());
        assert(c1[k][i] == contents[k][i]);
        assert(i1[k][i] == items[k][i]);
    }
    assert forall|k: int| 0 <= k < c2.len() implies (#[trigger] c2[k]).len() == i2[k].len() by {
        assert(c1[k].len() == i1[k].len());
    }
    assert forall|k: int, i: int| 0 <= k < c2.len() && 0 <= i < c2[k].len() implies i2[k][i] == map(
        #[trigger] c2[k][i],
    ) && c2[k][i].spec_id() == map(c2[k][i]).spec_id() by {
        assert(ids(contents[k]) == ids(items[k]));
        lcs::place_is_first(ids(items[k]), id);
        assert(present(ids(items[k]), id));
        assert(contents[k].len() == items[k].len());
        let from = place(ids(items[k]), id) + 1;
        assert(c2[k][i] == contents[k][from + i]);
        assert(i2[k][i] == items[k][from + i]);
    }
    let (l1, l2) = (frequent::id_lists(i1), frequent::id_lists(i2));
    assert forall|k: int, i: int| 0 <= k < l1.len() && 0 <= i < l1[k].len() implies 1
        <= #[trigger] l1[k][i] <= n by {
        lcs::place_is_first(ids(items[k]), id);
        assert(i1[k][i] == items[k][i]);
        assert(lists[k][i] == items[k][i].id);
    }
    assert forall|k: int, i: int| 0 <= k < l2.len() && 0 <= i < l2[k].len() implies 1
        <= #[trigger] l2[k][i] <= n by {
        lcs::place_is_first(ids(items[k]), id);
        assert(present(ids(items[k]), id));
        let from = place(ids(items[k]), id) + 1;
        assert(i2[k][i] == items[k][from + i]);
        assert(lists[k][from + i] == items[k][from + i].id);
    }
}

proof fn parts_countable(items: Seq<Seq<ItemModel>>, id: u32)
    requires
        frequent::countable(items),
        forall|k: int| 0 <= k < items.len() ==> present(ids(#[trigger] items[k]), id),
    ensures
        frequent::countable(heads(items, id)),
        frequent::countable(tails(items, id)),
{
    let (front, rest) = (heads(items, id), tails(items, id));
    assert forall|k: int| 0 <= k < items.len() implies (#[trigger] front[k]).len()
        <= items[k].len() by {
        lcs::place_is_first(ids(items[k]), id);
    }
    assert forall|k: int| 0 <= k < items.len() implies (#[trigger] rest[k]).len()
        <= items[k].len() by {
        lcs::place_is_first(ids(items[k]), id);
        assert(present(ids(items[k]), id));
    }
    frequent::size_monotone(front, items);
    frequent::size_monotone(rest, items);
}

proof fn size_of_indexed(frames: Seq<FrameModel>, items: Seq<Seq<ItemModel>>)
    requires
        items.len() == frames.len(),
        forall|f: int|
            0 <= f < frames.len() ==> (#[trigger] items[f]).len() == frames[f].chunks.len(),
    ensures
        frequent::size(items) == chunk_count(frames),
    decreases frames.len(),
{
    if frames.len() > 0 {
        let (x, y) = (frames.drop_last(), items.drop_last());
        assert forall|f: int| 0 <= f < x.len() implies (#[trigger] y[f]).len()
            == x[f].chunks.len() by {
            assert(y[f] == items[f]);
        }
        size_of_indexed(x, y);
    }
}

/// As many levels as calls may be nested by in frames that are merged.
pub const MAX_LEVELS: u32 = 0x7fff_fffe;

/// Frames can be merged: there are some, not too many, each can be merged, and their chunks can be
/// numbered.
pub open spec fn all_mergeable(frames: Seq<FrameModel>, thresh: Single) -> bool {
    &&& 0 < frames.len() <= u32::MAX
    &&& forall|f: int|
        0 <= f < frames.len() ==> mergeable(#[trigger] frames[f], MAX_LEVELS as nat)
    &&& numbered(MAX_LEVELS as nat, frames, thresh)
}

/// Merges the chunks of the frames into a frame that has none yet.
///
/// Chunks that all frames have in one order are merged, and between them those that are frequent.
/// A merged chunk starts at the average offset and lasts the average time. It is cut where it runs
/// into the one before it or beyond the end of the frame, and then its own chunks are merged into
/// what is left; where nothing is left of it, its start is noted as lost. The symbols of merged
/// calls are entered in the table.
pub fn merge_children(
    new_parent: &mut Frame,
    children: &[&Frame],
    symbols: &mut SymbolCache,
    lost_frame_occurrences: &mut Vec<Metrics>,
    frequent_thresh: Single,
)
    requires
        frequent_thresh.units <= single::ONE,
        old(symbols).wf(),
        old(new_parent)@.metrics.fits(),
        old(new_parent)@.chunks.len() == 0,
        roomy(old(new_parent)@.metrics.start, MAX_LEVELS as nat),
        all_mergeable(frame_models(children@), frequent_thresh),
    ensures
        final(symbols).wf(),
        ({
            let after = merge_all(
                MAX_LEVELS as nat,
                old(new_parent)@.metrics,
                frame_models(children@),
                frequent_thresh,
                old(symbols)@,
                old(lost_frame_occurrences)@,
            );
            &&& final(new_parent)@ == (FrameModel { chunks: after.chunks, ..old(new_parent)@ })
            &&& final(symbols)@ == after.table
            &&& final(lost_frame_occurrences)@ == after.lost
        }),
        final(new_parent)@.deeply_ordered(),
{
    let ghost models = frame_models(children@);
    let ghost range = new_parent@.metrics;
    let ghost table = symbols@;
    let ghost lost = lost_frame_occurrences@;
    proof {
        assert forall|f: int| 0 <= f < children.len() implies mergeable(
            (#[trigger] children@[f])@,
            MAX_LEVELS as nat,
        ) by {
            assert(mergeable(models[f], MAX_LEVELS as nat));
        }
    }
    merge_level(
        new_parent,
        children,
        symbols,
        lost_frame_occurrences,
        frequent_thresh,
        Ghost(MAX_LEVELS as nat),
    );
    proof {
        symbols.table_fits();
        merge_all_is_sound(
            MAX_LEVELS as nat,
            range,
            models,
            frequent_thresh,
            table,
            lost,
        );
    }
}

/// The groups of mergeable frames fit.
pub proof fn groups_of_frames_fit(frames: Seq<FrameModel>, thresh: Single, levels: nat)
    requires
        0 < frames.len() <= u32::MAX,
        chunk_count(frames) <= u32::MAX,
        forall|f: int| 0 <= f < frames.len() ==> mergeable(#[trigger] frames[f], levels),
    ensures
        groups_fit(registry(frames), levels, groups_of_frames(frames, thresh), frames.len()),
        registry(frames).len() <= u32::MAX,
{
    let items = indexed(frames);
    let n = registry(frames).len() as u32;
    indexed_items_fit(frames, levels);
    index::indexed_ids(frames);
    indexed_lists(frames);
    let lists = frequent::id_lists(items);
    lcs::longest_chain_is_longest(lists, n);
    groups_in_order_fit(
        n,
        items,
        lcs::longest_chain(lists, n as int),
        thresh,
        registry(frames),
        levels,
    );
}

pub proof fn indexed_lists(frames: Seq<FrameModel>)
    requires
        chunk_count(frames) <= u32::MAX,
    ensures
        lcs::ids_up_to(frequent::id_lists(indexed(frames)), registry(frames).len() as u32),
        lcs::without_repetition(frequent::id_lists(indexed(frames))),
{
    let items = indexed(frames);
    index::indexed_ids(frames);
    let id_lists = frequent::id_lists(items);
    assert forall|k: int, i: int| 0 <= k < id_lists.len() && 0 <= i < id_lists[k].len() implies 1
        <= #[trigger] id_lists[k][i] <= registry(frames).len() as u32 by {
        assert(1 <= items[k][i].id <= registry(frames).len());
    }
    assert forall|k: int| 0 <= k < id_lists.len() implies (
    #[trigger] id_lists[k]).no_duplicates() by {
        assert forall|i: int, j: int|
            0 <= i < id_lists[k].len() && 0 <= j < id_lists[k].len() && i != j implies id_lists[k][i]
            != id_lists[k][j] by {
            if i < j {
                assert(items[k][i].id != items[k][j].id);
            } else {
                assert(items[k][j].id != items[k][i].id);
            }
        }
    }
}

proof fn groups_in_order_fit(
    n: u32,
    items: Seq<Seq<ItemModel>>,
    common: Seq<u32>,
    thresh: Single,
    known: Seq<Key>,
    levels: nat,
)
    requires
        items.len() > 0,
        all_items(items, |item: ItemModel| item_fits(known, levels, item)),
        is_common_subsequence(common, frequent::id_lists(items)),
        lcs::without_repetition(frequent::id_lists(items)),
    ensures
        groups_fit(
            known,
            levels,
            groups_in_order(n, items, common, thresh),
            items.len(),
        ),
    decreases common.len(),
{
    if common.len() == 0 {
        frequent_groups_fit(n, items, thresh, known, levels);
    } else {
        let p = |item: ItemModel| item_fits(known, levels, item);
        common_goes_on(items, common);
        parts_have_all(items, common[0], p);
        frequent_groups_fit(n, heads(items, common[0]), thresh, known, levels);
        common_group_fits(items, common[0], known, levels);
        groups_in_order_fit(
            n,
            tails(items, common[0]),
            common.drop_first(),
            thresh,
            known,
            levels,
        );
        let a = frequent_groups(n, heads(items, common[0]), thresh);
        let b = groups_in_order(n, tails(items, common[0]), common.drop_first(), thresh);
        let all = groups_in_order(n, items, common, thresh);
        assert forall|g: int| 0 <= g < all.len() implies group_fits(
            known,
            levels,
            #[trigger] all[g],
        ) && all[g].len() <= items.len() by {
            if g < a.len() {
                assert(all[g] == a[g]);
            } else if g > a.len() {
                assert(all[g] == b[g - a.len() - 1]);
            }
        }
    }
}

/// `longer` begins with `shorter`.
pub open spec fn grown<T>(shorter: Seq<T>, longer: Seq<T>) -> bool {
    &&& shorter.len() <= longer.len()
    &&& forall|i: int| 0 <= i < shorter.len() ==> #[trigger] longer[i] == shorter[i]
}

/// What holds of the work so far while groups are merged.
pub open spec fn sound(range: MetricsRange, p: Progress) -> bool {
    &&& laid_out(range, p.chunks, p.reached)
    &&& frame::chunks_indexed_by(p.chunks, p.table)
    &&& chunks_ordered(p.chunks)
    &&& chunks_well_annotated(p.chunks)
}

/// In the annotations of the calls among the chunks, no name stands twice.
pub open spec fn chunks_well_annotated(chunks: Seq<StoredModel>) -> bool {
    forall|i: int|
        0 <= i < chunks.len() ==> match #[trigger] chunks[i] {
            StoredModel::Frame(child) => child.well_annotated(),
            StoredModel::Pause(_) => true,
        }
}

/// The calls among the chunks are ordered in depth.
pub open spec fn chunks_ordered(chunks: Seq<StoredModel>) -> bool {
    forall|i: int|
        0 <= i < chunks.len() ==> match #[trigger] chunks[i] {
            StoredModel::Frame(child) => child.deeply_ordered(),
            StoredModel::Pause(_) => true,
        }
}

proof fn merge_group_is_sound(
    levels: nat,
    p: Progress,
    range: MetricsRange,
    group: Seq<ItemModel>,
    thresh: Single,
    known: Seq<Key>,
)
    requires
        sound(range, p),
        roomy(range.start, levels),
        group_fits(known, levels, group),
        group_numbered(levels, group, thresh),
        group.len() <= u32::MAX,
        merge_group(levels, p, range, group, thresh).table.len() <= usize::MAX,
    ensures
        sound(range, merge_group(levels, p, range, group, thresh)),
        grown(p.table, merge_group(levels, p, range, group, thresh).table),
        grown(p.lost, merge_group(levels, p, range, group, thresh).lost),
        merge_group(levels, p, range, group, thresh).chunks.len() + merge_group(
            levels,
            p,
            range,
            group,
            thresh,
        ).lost.len() >= p.chunks.len() + p.lost.len() + 1,
    decreases levels, 0nat, 0nat,
{
    let offsets = item_offsets(group);
    let lengths = extents(item_ranges(group));
    assert forall|k: int| 0 <= k < offsets.len() implies small(#[trigger] offsets[k]) by {
        assert(item_fits(known, levels, group[k]));
    }
    average_is_small(offsets);
    average_is_small(lengths);
    room_for_group(range.start, levels, average(offsets), average(lengths));
    let whole = merged_range(range.start, group);
    assert(whole.fits());
    let merged = cut(whole, p.reached, range.spec_end());
    cut_stays(whole, p.reached, range.spec_end());
    assert(item_fits(known, levels, group[0]));
    let after = merge_group(levels, p, range, group, thresh);
    match group[0].chunk {
        ChunkModel::Frame(first) => {
            let table = with_symbol(p.table, first.symbol);
            let frames = item_frames(group);
            assert forall|f: int| 0 <= f < frames.len() implies mergeable(
                #[trigger] frames[f],
                (levels - 1) as nat,
            ) by {
                assert(item_fits(known, levels, group[f]));
                assert(group[f].id == group[0].id);
            }
            let inner = merge_all((levels - 1) as nat, merged, frames, thresh, table, p.lost);
            room_for_cut(range, levels, whole, p.reached);
            merge_all_is_sound((levels - 1) as nat, merged, frames, thresh, table, p.lost);
            cache::symbol_place_is_first(table, first.symbol);
            assert(table.contains(first.symbol)) by {
                if !p.table.contains(first.symbol) {
                    assert(table[p.table.len() as int] == first.symbol);
                }
            }
            let idx = symbol_place(table, first.symbol);
            let frame = FrameModel {
                symbol_idx: idx as usize,
                symbol: first.symbol,
                metrics: merged,
                annotations: None,
                chunks: inner.chunks,
            };
            assert(grown(p.table, table));
            assert(inner.table[idx] == table[idx]);
            let mid = Progress { table: inner.table, lost: inner.lost, ..p };
            placed_stays_laid_out(range, mid, StoredModel::Frame(frame));
            assert(after == placed(mid, range.spec_end(), StoredModel::Frame(frame)));
            assert forall|i: int| 0 <= i < after.chunks.len() implies match #[trigger] after.chunks[i] {
                StoredModel::Frame(child) => frame::indexed_by(child, after.table),
                StoredModel::Pause(_) => true,
            } by {
                if i < p.chunks.len() {
                    assert(after.chunks[i] == p.chunks[i]);
                    if let StoredModel::Frame(child) = p.chunks[i] {
                        frame::indexed_by_grown(child, p.table, after.table);
                    }
                } else {
                    let child = after.chunks[i]->Frame_0;
                    assert(child.chunks == inner.chunks);
                    assert(frame::indexed_by(child, after.table));
                }
            }
            assert forall|i: int| 0 <= i < after.chunks.len() implies match #[trigger] after.chunks[i] {
                StoredModel::Frame(child) => child.deeply_ordered() && child.well_annotated(),
                StoredModel::Pause(_) => true,
            } by {
                if i < p.chunks.len() {
                    assert(after.chunks[i] == p.chunks[i]);
                } else {
                    assert(after.chunks[i] == StoredModel::Frame(frame));
                    assert(frame.ordered());
                }
            }
        },
        _ => {
            placed_stays_laid_out(range, p, StoredModel::Pause(merged));
            assert forall|i: int| 0 <= i < after.chunks.len() implies match #[trigger] after.chunks[i] {
                StoredModel::Frame(child) => frame::indexed_by(child, after.table),
                StoredModel::Pause(_) => true,
            } by {
                if i < p.chunks.len() {
                    assert(after.chunks[i] == p.chunks[i]);
                }
            }
            assert forall|i: int| 0 <= i < after.chunks.len() implies match #[trigger] after.chunks[i] {
                StoredModel::Frame(child) => child.deeply_ordered() && child.well_annotated(),
                StoredModel::Pause(_) => true,
            } by {
                if i < p.chunks.len() {
                    assert(after.chunks[i] == p.chunks[i]);
                }
            }
        },
    }
}

proof fn merge_groups_are_sound(
    levels: nat,
    p: Progress,
    range: MetricsRange,
    groups: Seq<Seq<ItemModel>>,
    thresh: Single,
    known: Seq<Key>,
    count: nat,
)
    requires
        sound(range, p),
        roomy(range.start, levels),
        groups_fit(known, levels, groups, count),
        groups_numbered(levels, groups, thresh),
        count <= u32::MAX,
        merge_groups(levels, p, range, groups, thresh).table.len() <= usize::MAX,
    ensures
        sound(range, merge_groups(levels, p, range, groups, thresh)),
        grown(p.table, merge_groups(levels, p, range, groups, thresh).table),
        grown(p.lost, merge_groups(levels, p, range, groups, thresh).lost),
        merge_groups(levels, p, range, groups, thresh).chunks.len() + merge_groups(
            levels,
            p,
            range,
            groups,
            thresh,
        ).lost.len() >= p.chunks.len() + p.lost.len() + groups.len(),
    decreases levels, 1nat, groups.len(),
{
    if groups.len() > 0 {
        let rest = groups.drop_last();
        assert forall|g: int| 0 <= g < rest.len() implies group_fits(
            known,
            levels,
            #[trigger] rest[g],
        ) && rest[g].len() <= count by {
            assert(rest[g] == groups[g]);
        }
        let mid = merge_groups(levels, p, range, rest, thresh);
        let group = groups.last();
        assert(group == groups[groups.len() - 1]);
        assert(group_numbered(levels, group, thresh));
        assert(groups_numbered(levels, rest, thresh)) by {
            assert forall|g: int| 0 <= g < rest.len() implies group_numbered(
                levels,
                #[trigger] rest[g],
                thresh,
            ) by {
                assert(rest[g] == groups[g]);
            }
        }
        merge_group_table(levels, mid, range, group, thresh);
        merge_groups_are_sound(levels, p, range, rest, thresh, known, count);
        merge_group_is_sound(levels, mid, range, group, thresh, known);
    }
}

/// The table does not shrink.
proof fn merge_group_table(
    levels: nat,
    p: Progress,
    range: MetricsRange,
    group: Seq<ItemModel>,
    thresh: Single,
)
    ensures
        p.table.len() <= merge_group(levels, p, range, group, thresh).table.len(),
    decreases levels, 0nat, 0nat,
{
    if let ChunkModel::Frame(first) = group[0].chunk {
        if levels > 0 {
            let table = with_symbol(p.table, first.symbol);
            let merged = cut(merged_range(range.start, group), p.reached, range.spec_end());
            merge_groups_table(
                (levels - 1) as nat,
                Progress { chunks: Seq::empty(), reached: merged.start, table, lost: p.lost },
                merged,
                groups_of_frames(item_frames(group), thresh),
                thresh,
            );
        }
    }
}

proof fn merge_groups_table(
    levels: nat,
    p: Progress,
    range: MetricsRange,
    groups: Seq<Seq<ItemModel>>,
    thresh: Single,
)
    ensures
        p.table.len() <= merge_groups(levels, p, range, groups, thresh).table.len(),
    decreases levels, 1nat, groups.len(),
{
    if groups.len() > 0 {
        merge_groups_table(levels, p, range, groups.drop_last(), thresh);
        merge_group_table(
            levels,
            merge_groups(levels, p, range, groups.drop_last(), thresh),
            range,
            groups.last(),
            thresh,
        );
    }
}

/// Merged chunks lie in the frame's range one behind the other, so that they add up to it, and so it
/// is in all calls among them; merged calls stand in the table of symbols under their indices, and
/// symbols entered before keep theirs; and each group of chunks to be merged is either added or
/// noted as lost.
pub proof fn merge_all_is_sound(
    levels: nat,
    range: MetricsRange,
    frames: Seq<FrameModel>,
    thresh: Single,
    table: Seq<SymbolModel>,
    lost: Seq<Metrics>,
)
    requires
        range.fits(),
        roomy(range.start, levels),
        0 < frames.len() <= u32::MAX,
        forall|f: int| 0 <= f < frames.len() ==> mergeable(#[trigger] frames[f], levels),
        numbered(levels, frames, thresh),
        merge_all(levels, range, frames, thresh, table, lost).table.len() <= usize::MAX,
    ensures
        in_order(range, merge_all(levels, range, frames, thresh, table, lost).chunks),
        chunks_ordered(merge_all(levels, range, frames, thresh, table, lost).chunks),
        chunks_well_annotated(merge_all(levels, range, frames, thresh, table, lost).chunks),
        frame::chunks_indexed_by(
            merge_all(levels, range, frames, thresh, table, lost).chunks,
            merge_all(levels, range, frames, thresh, table, lost).table,
        ),
        grown(table, merge_all(levels, range, frames, thresh, table, lost).table),
        grown(lost, merge_all(levels, range, frames, thresh, table, lost).lost),
        merge_all(levels, range, frames, thresh, table, lost).chunks.len() + merge_all(
            levels,
            range,
            frames,
            thresh,
            table,
            lost,
        ).lost.len() >= lost.len() + groups_of_frames(frames, thresh).len(),
    decreases levels, 2nat, 0nat,
{
    let p = Progress { chunks: Seq::empty(), reached: range.start, table, lost };
    groups_of_frames_fit(frames, thresh, levels);
    merge_groups_are_sound(
        levels,
        p,
        range,
        groups_of_frames(frames, thresh),
        thresh,
        registry(frames),
        frames.len(),
    );
}

} // verus!

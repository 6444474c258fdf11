//! What frames hold of the calls and pauses that they are made of.
use crate::trace::builder::{
    by_turns, completed, ends_as_stub, plt_stub, with_chunks, with_occurence, without_stub_endings,
    BuilderModel, IncompleteModel, OutcomeModel,
};
use crate::trace::cache::{filter_bytes, symbol_place, symbol_place_is_first, with_symbol};
use crate::trace::error::Error;
use crate::trace::event::{
    slot_in_time_splits, sorted_by_time, with_sample_keeps_order, EventModel,
};
use crate::trace::frame::{
    course, cycle_lengths, durations, gap_takes, in_order, insn_lengths, is_gap, slot, slot_is_last,
    straightline, ChunkModel, FrameModel, StoredModel,
};
use crate::trace::laws::{chunk_range, growth, reading, reading_at_end, stored_range, Counter};
use crate::trace::metrics::{total, Metrics, MetricsRange};
use crate::trace::symbol::SymbolModel;
use vstd::prelude::*;

verus! {

/// The calls, as chunks.
pub open spec fn as_calls(children: Seq<FrameModel>) -> Seq<StoredModel> {
    Seq::new(children.len(), |i: int| StoredModel::Frame(children[i]))
}

/// The pauses, as chunks.
pub open spec fn as_pauses(pauses: Seq<MetricsRange>) -> Seq<StoredModel> {
    Seq::new(pauses.len(), |i: int| StoredModel::Pause(pauses[i]))
}

proof fn front_in_multiset(first: StoredModel, rest: Seq<StoredModel>, all: Seq<StoredModel>)
    requires
        all == seq![first] + rest,
    ensures
        all.to_multiset() == rest.to_multiset().insert(first),
{
    assert(all.remove(0) =~= rest);
    all.to_multiset_ensures();
    assert(all[0] == first);
    assert(all.to_multiset().remove(first).insert(first) =~= all.to_multiset());
}

proof fn turns_hold_all(children: Seq<FrameModel>, pauses: Seq<MetricsRange>)
    ensures
        by_turns(children, pauses).to_multiset() == as_calls(children).to_multiset().add(
            as_pauses(pauses).to_multiset(),
        ),
        by_turns(children, pauses).len() == children.len() + pauses.len(),
    decreases children.len() + pauses.len(),
{
    let all = by_turns(children, pauses);
    let (a, b) = (as_calls(children), as_pauses(pauses));
    if children.len() > 0 && (pauses.len() == 0 || children[0].metrics.start.ts
        < pauses[0].start.ts) {
        let rest = by_turns(children.drop_first(), pauses);
        turns_hold_all(children.drop_first(), pauses);
        front_in_multiset(StoredModel::Frame(children[0]), rest, all);
        let c = as_calls(children.drop_first());
        assert(a =~= seq![StoredModel::Frame(children[0])] + c);
        front_in_multiset(StoredModel::Frame(children[0]), c, a);
        assert(all.to_multiset() =~= a.to_multiset().add(b.to_multiset()));
    } else if pauses.len() > 0 {
        let rest = by_turns(children, pauses.drop_first());
        turns_hold_all(children, pauses.drop_first());
        front_in_multiset(StoredModel::Pause(pauses[0]), rest, all);
        let c = as_pauses(pauses.drop_first());
        assert(b =~= seq![StoredModel::Pause(pauses[0])] + c);
        front_in_multiset(StoredModel::Pause(pauses[0]), c, b);
        assert(all.to_multiset() =~= a.to_multiset().add(b.to_multiset()));
    } else {
        all.to_multiset_ensures();
        a.to_multiset_ensures();
        b.to_multiset_ensures();
        assert(all.to_multiset() =~= a.to_multiset().add(b.to_multiset()));
    }
}

proof fn stored_holds_all(frame: FrameModel, chunks: Seq<StoredModel>)
    ensures
        with_chunks(frame, chunks) matches Ok(after) ==> {
            &&& after.chunks.to_multiset() == frame.chunks.to_multiset().add(chunks.to_multiset())
            &&& after.chunks.len() == frame.chunks.len() + chunks.len()
            &&& after.symbol == frame.symbol
            &&& after.symbol_idx == frame.symbol_idx
            &&& after.metrics == frame.metrics
            &&& after.annotations == frame.annotations
        },
    decreases chunks.len(),
{
    if chunks.len() == 0 {
        chunks.to_multiset_ensures();
        assert(frame.chunks.to_multiset().add(chunks.to_multiset())
            =~= frame.chunks.to_multiset());
    } else if let Some(k) = slot(frame.metrics, frame.chunks, chunks[0].range()) {
        slot_is_last(frame.metrics, frame.chunks, frame.chunks.len() as int, chunks[0].range());
        let mid = frame.with_chunk(k, chunks[0]);
        let rest = chunks.drop_first();
        stored_holds_all(mid, rest);
        assert(mid.chunks.remove(k) =~= frame.chunks);
        mid.chunks.to_multiset_ensures();
        assert(mid.chunks[k] == chunks[0]);
        assert(mid.chunks.to_multiset().remove(chunks[0]).insert(chunks[0])
            =~= mid.chunks.to_multiset());
        assert(chunks =~= seq![chunks[0]] + rest);
        front_in_multiset(chunks[0], rest, chunks);
        if let Ok(after) = with_chunks(frame, chunks) {
            assert(after.chunks.to_multiset() =~= frame.chunks.to_multiset().add(
                chunks.to_multiset(),
            ));
        }
    }
}

/// A frame that is completed holds all calls and pauses that were in it, each once, and nothing
/// else. It leads from where it began to where it ends, in all counters, and belongs to the function
/// that it began with.
pub proof fn completed_frame_holds_all(incomplete: IncompleteModel, end: Metrics)
    requires
        MetricsRange::spans(incomplete.start, end),
    ensures
        completed(incomplete, end, false) matches Ok(frame) ==> {
            &&& frame.chunks.to_multiset() == as_calls(incomplete.children).to_multiset().add(
                as_pauses(incomplete.pauses).to_multiset(),
            )
            &&& frame.chunks.len() == incomplete.children.len() + incomplete.pauses.len()
            &&& frame.symbol == incomplete.symbol
            &&& frame.symbol_idx == incomplete.symbol_idx
            &&& frame.annotations is None
            &&& frame.metrics.start == incomplete.start
            &&& forall|c: Counter| #[trigger] reading_at_end(frame.metrics, c) == reading(end, c)
        },
{
    let none: Seq<StoredModel> = Seq::empty();
    let bare = FrameModel {
        symbol_idx: incomplete.symbol_idx,
        symbol: incomplete.symbol,
        metrics: MetricsRange::between(incomplete.start, end),
        annotations: None,
        chunks: none,
    };
    let chunks = by_turns(incomplete.children, incomplete.pauses);
    turns_hold_all(incomplete.children, incomplete.pauses);
    stored_holds_all(bare, chunks);
    none.to_multiset_ensures();
    assert(none.to_multiset().add(chunks.to_multiset()) =~= chunks.to_multiset());
    if let Ok(frame) = completed(incomplete, end, false) {
        assert forall|c: Counter| #[trigger] reading_at_end(frame.metrics, c) == reading(
            end,
            c,
        ) by {}
    }
}

/// Where stubs are removed, a frame that has no pause and just one call, of the function that it is
/// the stub of, is replaced by that call, which then takes up the time of both. All other frames are
/// completed as ever.
pub proof fn stubs_are_replaced_by_their_call(incomplete: IncompleteModel, end: Metrics)
    requires
        MetricsRange::spans(incomplete.start, end),
    ensures
        ({
            let stub = incomplete.children.len() == 1 && incomplete.pauses.len() == 0 && plt_stub(
                incomplete.symbol.name,
                incomplete.children[0].symbol.name,
            );
            &&& !stub ==> completed(incomplete, end, true) == completed(incomplete, end, false)
            &&& stub ==> {
                let call = incomplete.children[0];
                &&& completed(incomplete, end, true) matches Ok(frame) && {
                    &&& frame.symbol == call.symbol
                    &&& frame.symbol_idx == call.symbol_idx
                    &&& frame.chunks == call.chunks
                    &&& frame.annotations == call.annotations
                    &&& frame.metrics.start == incomplete.start
                    &&& frame.metrics.spec_end() == end
                }
            }
        }),
{
}

/// The name with so many endings of stubs.
pub open spec fn with_endings(name: Seq<char>, count: nat) -> Seq<char>
    decreases count,
{
    if count == 0 {
        name
    } else {
        with_endings(name, (count - 1) as nat) + "@plt"@
    }
}

/// A function is the stub of another if its name is that of the other with `@plt` behind it, once or
/// more, and the name of the other does not end so.
pub proof fn stubs_end_in_plt(name: Seq<char>, count: nat)
    requires
        count > 0,
        !(name.len() >= 4 && name.skip(name.len() - 4) == "@plt"@),
    ensures
        plt_stub(with_endings(name, count), name),
        forall|other: Seq<char>| plt_stub(with_endings(name, count), other) ==> other == name,
{
    reveal_strlit("@plt");
    endings_come_off(name, count);
    let parent = with_endings(name, count);
    let front = with_endings(name, (count - 1) as nat);
    assert(parent.skip(parent.len() - 4) =~= "@plt"@);
}

proof fn endings_come_off(name: Seq<char>, count: nat)
    requires
        !(name.len() >= 4 && name.skip(name.len() - 4) == "@plt"@),
    ensures
        without_stub_endings(with_endings(name, count)) == name,
    decreases count,
{
    reveal_strlit("@plt");
    if count > 0 {
        endings_come_off(name, (count - 1) as nat);
        let parent = with_endings(name, count);
        let front = with_endings(name, (count - 1) as nat);
        assert(parent.skip(parent.len() - 4) =~= "@plt"@);
        assert(parent.take(parent.len() - 4) =~= front);
    } else {
        assert(with_endings(name, 0) == name);
        assert(!ends_as_stub(name));
    }
}

/// Nothing else is a stub.
pub proof fn only_endings_make_stubs(parent: Seq<char>, child: Seq<char>) -> (count: nat)
    requires
        plt_stub(parent, child),
    ensures
        count > 0,
        parent == with_endings(child, count),
        !(child.len() >= 4 && child.skip(child.len() - 4) == "@plt"@),
{
    reveal_strlit("@plt");
    endings_are_counted(parent)
}

proof fn endings_are_counted(name: Seq<char>) -> (count: nat)
    ensures
        name == with_endings(without_stub_endings(name), count),
        ends_as_stub(name) ==> count > 0,
        !ends_as_stub(without_stub_endings(name)),
    decreases name.len(),
{
    reveal_strlit("@plt");
    if ends_as_stub(name) {
        let front = name.take(name.len() - 4);
        let less = endings_are_counted(front);
        assert(name =~= front + "@plt"@);
        assert(with_endings(without_stub_endings(name), less + 1) == with_endings(
            without_stub_endings(front),
            less,
        ) + "@plt"@);
        less + 1
    } else {
        0
    }
}

/// The one range does not end behind the start of the other, in any counter.
pub open spec fn comes_before(a: MetricsRange, b: MetricsRange) -> bool {
    forall|c: Counter| reading_at_end(a, c) <= #[trigger] reading(b.start, c)
}

/// The one range lies in the other, in all counters.
pub open spec fn lies_inside(inner: MetricsRange, outer: MetricsRange) -> bool {
    forall|c: Counter|
        reading(outer.start, c) <= #[trigger] reading(inner.start, c) && reading_at_end(inner, c)
            <= reading_at_end(outer, c)
}

proof fn before_is_le(a: MetricsRange, b: MetricsRange)
    requires
        a.fits(),
    ensures
        comes_before(a, b) <==> a.spec_end().le_all(b.start),
{
    assert(reading(b.start, Counter::Time) == b.start.ts);
    assert(reading(b.start, Counter::Cycles) == b.start.cycles);
    assert(reading(b.start, Counter::Instructions) == b.start.insn_count);
}

proof fn inside_is_includes(inner: MetricsRange, outer: MetricsRange)
    requires
        inner.fits(),
        outer.fits(),
    ensures
        lies_inside(inner, outer) <==> outer.includes(inner),
{
    assert(reading(inner.start, Counter::Time) == inner.start.ts);
    assert(reading(inner.start, Counter::Cycles) == inner.start.cycles);
    assert(reading(inner.start, Counter::Instructions) == inner.start.insn_count);
}

/// A chunk finds a place in an ordered frame if and only if it lies in the frame, and each chunk of
/// the frame comes before it or behind it. All chunks before its place then come before it, all
/// others behind it.
pub proof fn places_are_where_nothing_is(
    range: MetricsRange,
    stored: Seq<StoredModel>,
    inner: MetricsRange,
)
    requires
        in_order(range, stored),
        inner.fits(),
    ensures
        slot(range, stored, inner) is Some <==> lies_inside(inner, range) && forall|i: int|
            0 <= i < stored.len() ==> comes_before(stored_range(#[trigger] stored[i]), inner)
                || comes_before(inner, stored_range(stored[i])),
        slot(range, stored, inner) matches Some(k) ==> {
            &&& 0 <= k <= stored.len()
            &&& forall|i: int|
                0 <= i < k ==> comes_before(stored_range(#[trigger] stored[i]), inner)
            &&& forall|i: int|
                k <= i < stored.len() ==> comes_before(inner, stored_range(#[trigger] stored[i]))
        },
{
    slot_is_last(range, stored, stored.len() as int, inner);
    inside_is_includes(inner, range);
    assert forall|i: int| 0 <= i < stored.len() implies {
        &&& (#[trigger] stored[i]).range() == stored_range(stored[i])
        &&& stored[i].range().fits()
        &&& comes_before(stored_range(stored[i]), inner) == stored[i].range().spec_end().le_all(
            inner.start,
        )
        &&& comes_before(inner, stored_range(stored[i])) == inner.spec_end().le_all(
            stored[i].range().start,
        )
    } by {
        before_is_le(stored[i].range(), inner);
        before_is_le(inner, stored[i].range());
    }
    if let Some(k) = slot(range, stored, inner) {
        assert forall|i: int| 0 <= i < k implies comes_before(
            stored_range(#[trigger] stored[i]),
            inner,
        ) by {
            if i < k - 1 {
                assert(stored[i].range().spec_end().le_all(stored[k - 1].range().start));
                assert(stored[k - 1].range().fits());
            }
            assert(stored[k - 1].range().fits());
        }
        assert forall|i: int| k <= i < stored.len() implies comes_before(
            inner,
            stored_range(#[trigger] stored[i]),
        ) by {
            assert(stored[k].range().fits());
            if i > k {
                assert(stored[k].range().spec_end().le_all(stored[i].range().start));
            }
        }
        if k > 0 {
            assert(range.includes(stored[k - 1].range()));
        }
        if k < stored.len() {
            assert(range.includes(stored[k].range()));
        }
    } else if lies_inside(inner, range) && forall|i: int|
        0 <= i < stored.len() ==> comes_before(stored_range(#[trigger] stored[i]), inner)
            || comes_before(inner, stored_range(stored[i])) {
        let k = first_not_before(stored, inner, 0);
        if k > 0 {
            assert(comes_before(stored_range(stored[k - 1]), inner));
        }
        if k < stored.len() {
            assert(comes_before(inner, stored_range(stored[k])));
        }
        assert(gap_takes(range, stored, k, inner));
    }
}

proof fn first_not_before(stored: Seq<StoredModel>, inner: MetricsRange, from: int) -> (k: int)
    requires
        0 <= from <= stored.len(),
        forall|i: int|
            0 <= i < from ==> comes_before(stored_range(#[trigger] stored[i]), inner),
    ensures
        from <= k <= stored.len(),
        forall|i: int| 0 <= i < k ==> comes_before(stored_range(#[trigger] stored[i]), inner),
        k < stored.len() ==> !comes_before(stored_range(stored[k]), inner),
    decreases stored.len() - from,
{
    if from < stored.len() && comes_before(stored_range(stored[from]), inner) {
        first_not_before(stored, inner, from + 1)
    } else {
        from
    }
}

/// The chunk is a call or a pause.
pub open spec fn is_stored() -> spec_fn(ChunkModel) -> bool {
    |chunk: ChunkModel| !(chunk is Straightline)
}

/// The stored chunks, as chunks of the course.
pub open spec fn as_chunks(stored: Seq<StoredModel>) -> Seq<ChunkModel> {
    Seq::new(
        stored.len(),
        |i: int|
            match stored[i] {
                StoredModel::Frame(call) => ChunkModel::Frame(call),
                StoredModel::Pause(range) => ChunkModel::Pause(range),
            },
    )
}

proof fn filter_joined(a: Seq<ChunkModel>, b: Seq<ChunkModel>, p: spec_fn(ChunkModel) -> bool)
    ensures
        (a + b).filter(p) == a.filter(p) + b.filter(p),
    decreases b.len(),
{
    reveal(Seq::filter);
    if b.len() == 0 {
        assert(a + b =~= a);
        assert(a.filter(p) + b.filter(p) =~= a.filter(p));
    } else {
        assert((a + b).drop_last() =~= a + b.drop_last());
        filter_joined(a, b.drop_last(), p);
        assert((a + b).filter(p) =~= a.filter(p) + b.filter(p));
    }
}

proof fn filter_of_one(chunk: ChunkModel, p: spec_fn(ChunkModel) -> bool)
    ensures
        seq![chunk].filter(p) == if p(chunk) {
            seq![chunk]
        } else {
            Seq::empty()
        },
{
    reveal(Seq::filter);
    reveal_with_fuel(Seq::filter, 3);
    assert(seq![chunk].drop_last() =~= Seq::empty());
    assert(Seq::<ChunkModel>::empty().push(chunk) =~= seq![chunk]);
}

/// The course of a frame holds its calls and pauses, in their order; all else in it are straight
/// lines, each of which grows in some counter.
pub proof fn course_holds_stored(from: Metrics, end: Metrics, stored: Seq<StoredModel>)
    ensures
        course(from, end, stored).filter(is_stored()) == as_chunks(stored),
        forall|i: int|
            0 <= i < course(from, end, stored).len() ==> (#[trigger] course(
                from,
                end,
                stored,
            )[i] matches ChunkModel::Straightline(line) ==> exists|p: Metrics, q: Metrics|
                line == MetricsRange::between(p, q) && #[trigger] is_gap(p, q)),
    decreases stored.len(),
{
    reveal(Seq::filter);
    let p = is_stored();
    let all = course(from, end, stored);
    if stored.len() == 0 {
        if is_gap(from, end) {
            filter_of_one(all[0], p);
        }
        assert(all.filter(p) =~= as_chunks(stored));
    } else {
        let line = straightline(from, stored[0].range().start);
        let one = seq![stored[0].chunk()];
        let rest = course(stored[0].range().spec_end(), end, stored.drop_first());
        course_holds_stored(stored[0].range().spec_end(), end, stored.drop_first());
        filter_joined(line, one, p);
        filter_joined(line + one, rest, p);
        if is_gap(from, stored[0].range().start) {
            filter_of_one(line[0], p);
        }
        filter_of_one(stored[0].chunk(), p);
        assert(all.filter(p) =~= as_chunks(stored));
        assert forall|i: int| 0 <= i < all.len() implies (#[trigger] all[i] matches ChunkModel::Straightline(
            line,
        ) ==> exists|p: Metrics, q: Metrics|
            line == MetricsRange::between(p, q) && #[trigger] is_gap(p, q)) by {
            if i >= line.len() + 1 {
                assert(all[i] == rest[i - line.len() - 1]);
            }
        }
    }
}

/// There is a way between two samples if and only if some counter grows.
pub proof fn gaps_are_where_a_counter_grows(from: Metrics, to: Metrics)
    ensures
        is_gap(from, to) <==> exists|c: Counter| reading(from, c) < #[trigger] reading(to, c),
{
    assert(reading(to, Counter::Time) == to.ts);
    assert(reading(to, Counter::Cycles) == to.cycles);
    assert(reading(to, Counter::Instructions) == to.insn_count);
}

/// A table takes up a symbol at its end, and only if it is not there already: no symbol stands in it
/// twice, and those that were there stay where they are.
pub proof fn symbols_stand_once(table: Seq<SymbolModel>, symbol: SymbolModel)
    requires
        table.no_duplicates(),
    ensures
        ({
            let after = with_symbol(table, symbol);
            let at = symbol_place(after, symbol);
            &&& after.no_duplicates()
            &&& 0 <= at < after.len() && after[at] == symbol
            &&& after.len() == table.len() + if table.contains(symbol) {
                0int
            } else {
                1int
            }
            &&& after.take(table.len() as int) == table
        }),
{
    let after = with_symbol(table, symbol);
    symbol_place_is_first(after, symbol);
    assert(after.take(table.len() as int) =~= table);
    if !table.contains(symbol) {
        assert(after[table.len() as int] == symbol);
        assert forall|i: int, j: int|
            0 <= i < after.len() && 0 <= j < after.len() && i != j implies after[i] != after[j] by {
            if i == table.len() {
                assert(table.contains(table[j]));
            } else if j == table.len() {
                assert(table.contains(table[i]));
            }
        }
    }
}

/// By how much the counter grows over each chunk.
pub open spec fn chunk_growths(chunks: Seq<ChunkModel>, c: Counter) -> Seq<int> {
    Seq::new(chunks.len(), |i: int| growth(chunk_range(chunks[i]), c))
}

/// The chunks of a frame add up to it if and only if they do in every counter.
pub proof fn frames_add_up_in_every_counter(frame: FrameModel)
    ensures
        frame.adds_up() <==> forall|c: Counter|
            total(chunk_growths(frame.course(), c)) == #[trigger] growth(frame.metrics, c),
{
    let course = frame.course();
    assert(chunk_growths(course, Counter::Time) =~= durations(course));
    assert(chunk_growths(course, Counter::Cycles) =~= cycle_lengths(course));
    assert(chunk_growths(course, Counter::Instructions) =~= insn_lengths(course));
    assert(growth(frame.metrics, Counter::Time) == frame.metrics.ts_incr);
    assert(growth(frame.metrics, Counter::Cycles) == frame.metrics.cycles_incr);
    assert(growth(frame.metrics, Counter::Instructions) == frame.metrics.insn_incr);
}

/// An occurence is added to all events with the id, and to no others; they stay in the order of their
/// times.
pub proof fn occurences_go_to_their_event(
    events: Seq<EventModel>,
    id: u32,
    sample: Metrics,
    e: int,
)
    requires
        0 <= e < events.len(),
        sorted_by_time(events[e].occurences),
    ensures
        ({
            let (before, after) = (events[e], with_occurence(events, id, sample)[e]);
            &&& with_occurence(events, id, sample).len() == events.len()
            &&& after.id == before.id && after.name == before.name && after.description
                == before.description
            &&& before.id != id ==> after.occurences == before.occurences
            &&& before.id == id ==> {
                &&& after.occurences.to_multiset() == before.occurences.to_multiset().insert(sample)
                &&& after.occurences.len() == before.occurences.len() + 1
                &&& sorted_by_time(after.occurences)
            }
        }),
{
    let before = events[e].occurences;
    with_sample_keeps_order(before, sample);
    slot_in_time_splits(before, sample.ts);
}

/// A call leaves the frame that it is made from for later, behind all others that are open, and
/// begins one that is empty.
pub proof fn calls_open_a_frame(builder: BuilderModel, metrics: Metrics, symbol: SymbolModel)
    ensures
        ({
            let after = builder.pushed(metrics, symbol);
            &&& after.stack.len() == builder.stack.len() + 1
            &&& after.stack.last() == builder.current
            &&& after.stack.drop_last() == builder.stack
            &&& after.current.start == metrics
            &&& after.current.symbol == symbol
            &&& after.current.children.len() == 0
            &&& after.current.pauses.len() == 0
            &&& after.last == metrics
            &&& after.events == builder.events
        }),
{
    assert(builder.pushed(metrics, symbol).stack.drop_last() =~= builder.stack);
}

/// A pause stands behind the others in the frame that it comes in, from its start to its end, and
/// nothing else changes.
pub proof fn pauses_are_noted(builder: BuilderModel, start: Metrics, end: Metrics, c: Counter)
    requires
        MetricsRange::spans(start, end),
    ensures
        ({
            let after = builder.resumed(start, end);
            let pauses = after.current.pauses;
            &&& pauses.len() == builder.current.pauses.len() + 1
            &&& pauses.drop_last() == builder.current.pauses
            &&& reading(pauses.last().start, c) == reading(start, c)
            &&& reading_at_end(pauses.last(), c) == reading(end, c)
            &&& after.current.children == builder.current.children
            &&& after.current.start == builder.current.start
            &&& after.current.symbol == builder.current.symbol
            &&& after.stack == builder.stack
            &&& after.last == end
            &&& after.events == builder.events
            &&& after.table == builder.table
        }),
{
    assert(builder.resumed(start, end).current.pauses.drop_last()
        =~= builder.current.pauses);
}

/// A filter has more than nine bits and a half for each symbol that it is made for, and no more than
/// a byte beyond that.
pub proof fn filters_have_bits_for_all(items: usize)
    ensures
        80 * filter_bytes(items) > 96 * items,
        80 * (filter_bytes(items) - 1) <= 96 * items,
{
}

/// The end of a frame makes it the last call of the frame that it was called from, which goes on;
/// where there is none, it is the trace.
pub proof fn returns_close_a_frame(builder: BuilderModel, end: Metrics, remove_plt_stubs: bool)
    ensures
        match (builder.popped(end, remove_plt_stubs), completed(
            builder.current,
            end,
            remove_plt_stubs,
        )) {
            (Ok(OutcomeModel::Going(after)), Ok(frame)) => {
                let outer = builder.stack[builder.stack.len() - 1];
                &&& builder.stack.len() > 0
                &&& after.stack.len() == builder.stack.len() - 1
                &&& forall|i: int|
                    0 <= i < after.stack.len() ==> #[trigger] after.stack[i] == builder.stack[i]
                &&& after.current.children.len() == outer.children.len() + 1
                &&& after.current.children.last() == frame
                &&& after.current.children.drop_last() == outer.children
                &&& after.current.pauses == outer.pauses
                &&& after.current.start == outer.start
                &&& after.current.symbol == outer.symbol
                &&& after.last == end
                &&& after.events == builder.events
                &&& after.table == builder.table
            },
            (Ok(OutcomeModel::Done(trace)), Ok(frame)) => {
                &&& builder.stack.len() == 0
                &&& trace.root == frame
                &&& trace.events == builder.events
                &&& trace.symbols == builder.table
            },
            (Err(told), Err(error)) => told == error,
            _ => false,
        },
{
    if let Ok(OutcomeModel::Going(after)) = builder.popped(end, remove_plt_stubs) {
        assert(after.current.children.drop_last() =~= builder.stack.last().children);
    }
}

/// Where a frame cannot be completed, the error tells the range of one of the calls or pauses in it.
pub proof fn completion_fails_for_a_chunk(incomplete: IncompleteModel, end: Metrics)
    ensures
        completed(incomplete, end, false) matches Err(error) ==> {
            ||| exists|i: int|
                0 <= i < incomplete.children.len() && error == Error::InvalidRange(
                    (#[trigger] incomplete.children[i]).metrics,
                )
            ||| exists|i: int|
                0 <= i < incomplete.pauses.len() && error == Error::InvalidRange(
                    #[trigger] incomplete.pauses[i],
                )
        },
{
    let bare = FrameModel {
        symbol_idx: incomplete.symbol_idx,
        symbol: incomplete.symbol,
        metrics: MetricsRange::between(incomplete.start, end),
        annotations: None,
        chunks: Seq::empty(),
    };
    let chunks = by_turns(incomplete.children, incomplete.pauses);
    if let Err(error) = completed(incomplete, end, false) {
        let k = failing_chunk(bare, chunks);
        turns_hold_all(incomplete.children, incomplete.pauses);
        chunks.to_multiset_ensures();
        assert(chunks.contains(chunks[k]));
        assert(chunks.to_multiset().count(chunks[k]) > 0);
        let (a, b) = (as_calls(incomplete.children), as_pauses(incomplete.pauses));
        a.to_multiset_ensures();
        b.to_multiset_ensures();
        if a.to_multiset().count(chunks[k]) > 0 {
            assert(a.contains(chunks[k]));
            let i = choose|i: int| 0 <= i < a.len() && a[i] == chunks[k];
            assert(error == Error::InvalidRange(incomplete.children[i].metrics));
        } else {
            assert(b.contains(chunks[k]));
            let i = choose|i: int| 0 <= i < b.len() && b[i] == chunks[k];
            assert(error == Error::InvalidRange(incomplete.pauses[i]));
        }
    }
}

proof fn failing_chunk(frame: FrameModel, chunks: Seq<StoredModel>) -> (k: int)
    requires
        with_chunks(frame, chunks) is Err,
    ensures
        0 <= k < chunks.len(),
        with_chunks(frame, chunks)->Err_0 == Error::InvalidRange(stored_range(chunks[k])),
    decreases chunks.len(),
{
    match slot(frame.metrics, frame.chunks, chunks[0].range()) {
        Some(k) => failing_chunk(frame.with_chunk(k, chunks[0]), chunks.drop_first()) + 1,
        None => 0,
    }
}

} // verus!

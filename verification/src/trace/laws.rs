//! What holds of samples and ranges, counter by counter.
use crate::trace::frame::{ChunkModel, StoredModel};
use crate::trace::metrics::{total, Metrics, MetricsRange};
use crate::trace::symbol::SymbolInfo;
use core::cmp::Ordering;
use vstd::prelude::*;
use vstd::std_specs::cmp::{PartialEqSpec, PartialOrdSpec};
use vstd::std_specs::ops::{AddSpec, DivSpec, MulSpec, SubSpec};

verus! {

/// One of the counters of a sample.
pub enum Counter {
    Time,
    Cycles,
    Instructions,
}

/// What the counter shows in the sample.
pub open spec fn reading(sample: Metrics, counter: Counter) -> int {
    match counter {
        Counter::Time => sample.ts as int,
        Counter::Cycles => sample.cycles as int,
        Counter::Instructions => sample.insn_count as int,
    }
}

/// By how much the counter grows over the range.
pub open spec fn growth(range: MetricsRange, counter: Counter) -> int {
    match counter {
        Counter::Time => range.ts_incr as int,
        Counter::Cycles => range.cycles_incr as int,
        Counter::Instructions => range.insn_incr as int,
    }
}

/// What the counter shows at the end of the range.
pub open spec fn reading_at_end(range: MetricsRange, counter: Counter) -> int {
    reading(range.start, counter) + growth(range, counter)
}

/// The range of a stored chunk, whatever it is.
pub open spec fn stored_range(chunk: StoredModel) -> MetricsRange {
    match chunk {
        StoredModel::Frame(frame) => frame.metrics,
        StoredModel::Pause(range) => range,
    }
}

/// The range of a chunk, whatever it is.
pub open spec fn chunk_range(chunk: ChunkModel) -> MetricsRange {
    match chunk {
        ChunkModel::Frame(frame) => frame.metrics,
        ChunkModel::Straightline(range) => range,
        ChunkModel::Pause(range) => range,
    }
}

/// Samples that show the same in all counters are equal.
pub proof fn readings_tell_samples(a: Metrics, b: Metrics)
    requires
        forall|c: Counter| reading(a, c) == #[trigger] reading(b, c),
    ensures
        a == b,
{
    assert(reading(b, Counter::Time) == a.ts);
    assert(reading(b, Counter::Cycles) == a.cycles);
    assert(reading(b, Counter::Instructions) == a.insn_count);
}

/// The sum of sequences put together is the sum of their sums; of one number it is that number, of
/// none it is zero.
pub proof fn total_adds_up(a: Seq<int>, b: Seq<int>, x: int)
    ensures
        total(a + b) == total(a) + total(b),
        total(seq![x]) == x,
        total(Seq::empty()) == 0,
    decreases b.len(),
{
    reveal_with_fuel(total, 2);
    assert(seq![x].drop_last() =~= Seq::empty());
    if b.len() == 0 {
        assert(a + b =~= a);
    } else {
        assert((a + b).drop_last() =~= a + b.drop_last());
        total_adds_up(a, b.drop_last(), x);
    }
}

/// Sums, differences, products and quotients of samples are taken counter by counter.
pub proof fn arithmetic_is_by_counter(a: Metrics, b: Metrics, c: Counter)
    ensures
        a.plus_fits(b) <==> forall|d: Counter|
            reading(a, d) + (#[trigger] reading(b, d)) <= u64::MAX,
        a.plus_fits(b) ==> reading(a.plus(b), c) == reading(a, c) + reading(b, c),
        a.le_all(b) <==> forall|d: Counter| reading(a, d) <= #[trigger] reading(b, d),
        b.le_all(a) ==> reading(a.minus(b), c) == reading(a, c) - reading(b, c),
        a.times_fits(b) ==> reading(a.times(b), c) == reading(a, c) * reading(b, c),
        reading(b, c) != 0 ==> reading(a.over(b), c) == reading(a, c) / reading(b, c),
{
    assert(reading(b, Counter::Time) == b.ts);
    assert(reading(b, Counter::Cycles) == b.cycles);
    assert(reading(b, Counter::Instructions) == b.insn_count);
}

/// What is added can be taken away again.
pub proof fn difference_undoes_sum(a: Metrics, b: Metrics)
    requires
        a.plus_fits(b),
    ensures
        a.plus(b).minus(b) == a,
        a.plus(b).minus(a) == b,
        a.plus(b) == b.plus(a),
{
}

/// A range from one sample to another starts at the first and ends at the second, in all counters.
pub proof fn range_leads_from_start_to_end(start: Metrics, end: Metrics, c: Counter)
    requires
        MetricsRange::spans(start, end),
    ensures
        reading(MetricsRange::between(start, end).start, c) == reading(start, c),
        reading_at_end(MetricsRange::between(start, end), c) == reading(end, c),
        MetricsRange::between(start, end).fits(),
        MetricsRange::between(start, end).spec_end() == end,
{
}

/// A range leads from one sample to another if and only if no counter goes back, nor grows by more
/// than can be held.
pub proof fn ranges_that_are_possible(start: Metrics, end: Metrics)
    ensures
        MetricsRange::spans(start, end) <==> forall|c: Counter|
            0 <= #[trigger] reading(end, c) - reading(start, c) <= u32::MAX,
{
    assert(reading(end, Counter::Time) == end.ts);
    assert(reading(end, Counter::Cycles) == end.cycles);
    assert(reading(end, Counter::Instructions) == end.insn_count);
}

/// The end of a range shows what its counters have grown to, and a range lies in another if and only
/// if in no counter it starts earlier or ends later.
pub proof fn ends_are_by_counter(range: MetricsRange, other: MetricsRange, c: Counter)
    ensures
        range.fits() <==> forall|d: Counter| #[trigger] reading_at_end(range, d) <= u64::MAX,
        range.fits() ==> reading(range.spec_end(), c) == reading_at_end(range, c),
        range.fits() && other.fits() ==> (range.includes(other) <==> forall|d: Counter|
            reading(range.start, d) <= #[trigger] reading(other.start, d) && reading_at_end(
                other,
                d,
            ) <= reading_at_end(range, d)),
{
    assert(reading_at_end(range, Counter::Time) == range.start.ts + range.ts_incr);
    assert(reading_at_end(range, Counter::Cycles) == range.start.cycles + range.cycles_incr);
    assert(reading_at_end(range, Counter::Instructions) == range.start.insn_count
        + range.insn_incr);
    assert(reading(other.start, Counter::Time) == other.start.ts);
    assert(reading(other.start, Counter::Cycles) == other.start.cycles);
    assert(reading(other.start, Counter::Instructions) == other.start.insn_count);
}

/// The operators give sums, differences, products and quotients in each counter, of samples and of
/// references to them.
pub proof fn operators_are_by_counter(a: Metrics, b: Metrics, c: Counter)
    ensures
        a.add_req(b) ==> reading(a.add_spec(b), c) == reading(a, c) + reading(b, c),
        a.sub_req(b) ==> reading(a.sub_spec(b), c) == reading(a, c) - reading(b, c),
        a.mul_req(b) ==> reading(a.mul_spec(b), c) == reading(a, c) * reading(b, c),
        a.div_req(b) ==> reading(a.div_spec(b), c) == reading(a, c) / reading(b, c),
        (&a).add_req(&b) ==> reading((&a).add_spec(&b), c) == reading(a, c) + reading(b, c),
        (&a).sub_req(&b) ==> reading((&a).sub_spec(&b), c) == reading(a, c) - reading(b, c),
        (&a).mul_req(&b) ==> reading((&a).mul_spec(&b), c) == reading(a, c) * reading(b, c),
        (&a).div_req(&b) ==> reading((&a).div_spec(&b), c) == reading(a, c) / reading(b, c),
{
}

/// A number multiplies and divides every counter.
pub proof fn numbers_act_on_every_counter(a: Metrics, n: u64, c: Counter)
    ensures
        a.mul_req(n) ==> reading(a.mul_spec(n), c) == reading(a, c) * n,
        a.div_req(n) ==> reading(a.div_spec(n), c) == reading(a, c) / n as int,
        (&a).mul_req(n) ==> reading((&a).mul_spec(n), c) == reading(a, c) * n,
        (&a).div_req(n) ==> reading((&a).div_spec(n), c) == reading(a, c) / n as int,
{
}

/// Samples can be added if no counter passes its limit, one taken from another if it shows more in no
/// counter, and divided by one that shows no zero.
pub proof fn operators_are_possible(a: Metrics, b: Metrics)
    ensures
        a.add_req(b) <==> forall|c: Counter|
            reading(a, c) + (#[trigger] reading(b, c)) <= u64::MAX,
        a.sub_req(b) <==> forall|c: Counter| reading(a, c) >= #[trigger] reading(b, c),
        a.div_req(b) <==> forall|c: Counter| #[trigger] reading(b, c) != 0,
{
    assert(reading(b, Counter::Time) == b.ts);
    assert(reading(b, Counter::Cycles) == b.cycles);
    assert(reading(b, Counter::Instructions) == b.insn_count);
}

/// Samples are ordered by their times, whatever the other counters show.
pub proof fn samples_are_ordered_by_time(a: Metrics, b: Metrics)
    ensures
        a.partial_cmp_spec(&b) == Some(Ordering::Less) <==> reading(a, Counter::Time) < reading(
            b,
            Counter::Time,
        ),
        a.partial_cmp_spec(&b) == Some(Ordering::Greater) <==> reading(b, Counter::Time) < reading(
            a,
            Counter::Time,
        ),
        a.partial_cmp_spec(&b) == Some(Ordering::Equal) <==> reading(a, Counter::Time) == reading(
            b,
            Counter::Time,
        ),
{
}

/// Symbols are equal if and only if their names, addresses and sizes are.
pub proof fn symbols_are_equal_in_all(a: SymbolInfo, b: SymbolInfo)
    ensures
        a.eq_spec(&b) <==> a.name@ == b.name@ && a.offset == b.offset && a.size == b.size,
{
}

} // verus!

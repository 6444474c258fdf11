//! Counters sampled along a trace, and ranges of them.
use crate::text;
use core::cmp::Ordering;
use core::ops::{Add, Div, Mul, Sub};
use vstd::prelude::*;
use vstd::std_specs::cmp::PartialOrdSpecImpl;
use vstd::std_specs::ops::{AddSpecImpl, DivSpecImpl, MulSpecImpl, SubSpecImpl};

verus! {

/// One sample of the counters: time in nanoseconds, CPU cycles, retired instructions.
///
/// Two samples are equal when all counters are; they are ordered by time alone.
#[derive(Debug, Clone, Copy, PartialEq, Eq, Hash, Structural)]
pub struct Metrics {
    pub ts: u64,
    pub cycles: u64,
    pub insn_count: u64,
}

/// The sum of a sequence of integers.
pub open spec fn total(values: Seq<int>) -> int
    decreases values.len(),
{
    if values.len() == 0 {
        0
    } else {
        total(values.drop_last()) + values.last()
    }
}

/// A sum of non-negative numbers is not negative, and no smaller than any of its parts.
pub proof fn total_bounds(values: Seq<int>, bound: int)
    requires
        forall|i: int| 0 <= i < values.len() ==> 0 <= #[trigger] values[i] <= bound,
    ensures
        0 <= total(values) <= values.len() * bound,
    decreases values.len(),
{
    if values.len() > 0 {
        total_bounds(values.drop_last(), bound);
        assert(values.len() * bound == (values.len() - 1) * bound + bound) by (nonlinear_arith);
    }
}

/// The sum of a prefix does not exceed the whole sum when nothing is negative.
pub proof fn total_of_prefix(values: Seq<int>, n: int)
    requires
        0 <= n <= values.len(),
        forall|i: int| 0 <= i < values.len() ==> 0 <= #[trigger] values[i],
    ensures
        total(values.take(n)) <= total(values),
    decreases values.len(),
{
    if n < values.len() {
        assert(values.drop_last().take(n) =~= values.take(n));
        total_of_prefix(values.drop_last(), n);
    } else {
        assert(values.take(n) =~= values);
    }
}

/// The times of a sequence of samples.
pub open spec fn times(samples: Seq<Metrics>) -> Seq<int> {
    Seq::new(samples.len(), |i: int| samples[i].ts as int)
}

/// The cycle counts of a sequence of samples.
pub open spec fn cycle_counts(samples: Seq<Metrics>) -> Seq<int> {
    Seq::new(samples.len(), |i: int| samples[i].cycles as int)
}

/// The instruction counts of a sequence of samples.
pub open spec fn insn_counts(samples: Seq<Metrics>) -> Seq<int> {
    Seq::new(samples.len(), |i: int| samples[i].insn_count as int)
}

impl Metrics {
    /// The sample holding the given values, which must fit the counters.
    pub open spec fn of(ts: int, cycles: int, insn_count: int) -> Metrics {
        Metrics { ts: ts as u64, cycles: cycles as u64, insn_count: insn_count as u64 }
    }

    /// The given values fit the counters.
    pub open spec fn fit(ts: int, cycles: int, insn_count: int) -> bool {
        &&& 0 <= ts <= u64::MAX
        &&& 0 <= cycles <= u64::MAX
        &&& 0 <= insn_count <= u64::MAX
    }

    /// No counter of `self` exceeds the same counter of `other`.
    pub open spec fn le_all(self, other: Metrics) -> bool {
        &&& self.ts <= other.ts
        &&& self.cycles <= other.cycles
        &&& self.insn_count <= other.insn_count
    }

    /// No counter of the sample is zero.
    pub open spec fn all_nonzero(self) -> bool {
        self.ts != 0 && self.cycles != 0 && self.insn_count != 0
    }

    pub open spec fn plus(self, other: Metrics) -> Metrics {
        Metrics::of(
            self.ts + other.ts,
            self.cycles + other.cycles,
            self.insn_count + other.insn_count,
        )
    }

    pub open spec fn plus_fits(self, other: Metrics) -> bool {
        Metrics::fit(
            self.ts + other.ts,
            self.cycles + other.cycles,
            self.insn_count + other.insn_count,
        )
    }

    pub open spec fn minus(self, other: Metrics) -> Metrics {
        Metrics::of(
            self.ts - other.ts,
            self.cycles - other.cycles,
            self.insn_count - other.insn_count,
        )
    }

    pub open spec fn times(self, other: Metrics) -> Metrics {
        Metrics::of(
            self.ts * other.ts,
            self.cycles * other.cycles,
            self.insn_count * other.insn_count,
        )
    }

    pub open spec fn times_fits(self, other: Metrics) -> bool {
        Metrics::fit(
            self.ts * other.ts,
            self.cycles * other.cycles,
            self.insn_count * other.insn_count,
        )
    }

    pub open spec fn over(self, other: Metrics) -> Metrics {
        Metrics {
            ts: self.ts / other.ts,
            cycles: self.cycles / other.cycles,
            insn_count: self.insn_count / other.insn_count,
        }
    }

    /// The sample with `c` in every counter.
    pub open spec fn every(c: u64) -> Metrics {
        Metrics { ts: c, cycles: c, insn_count: c }
    }

    pub fn new(ts: u64, cycles: u64, insn_count: u64) -> (result: Self)
        ensures
            result == (Metrics { ts, cycles, insn_count }),
    {
        Self { ts, cycles, insn_count }
    }

    /// The sample with `c` in every counter.
    pub fn constant(c: u64) -> (result: Self)
        ensures
            result == Metrics::every(c),
    {
        Self { ts: c, cycles: c, insn_count: c }
    }

    /// Whether no counter of `self` exceeds the same counter of `other`.
    pub fn at_most(&self, other: &Metrics) -> (result: bool)
        ensures
            result == self.le_all(*other),
    {
        self.ts <= other.ts && self.cycles <= other.cycles && self.insn_count <= other.insn_count
    }

    pub fn add_assign(&mut self, rhs: Metrics)
        requires
            old(self).plus_fits(rhs),
        ensures
            *final(self) == old(self).plus(rhs),
    {
        self.ts = self.ts + rhs.ts;
        self.cycles = self.cycles + rhs.cycles;
        self.insn_count = self.insn_count + rhs.insn_count;
    }

    pub fn sub_assign(&mut self, rhs: Metrics)
        requires
            rhs.le_all(*old(self)),
        ensures
            *final(self) == old(self).minus(rhs),
    {
        self.ts = self.ts - rhs.ts;
        self.cycles = self.cycles - rhs.cycles;
        self.insn_count = self.insn_count - rhs.insn_count;
    }

    pub fn mul_assign(&mut self, rhs: Metrics)
        requires
            old(self).times_fits(rhs),
        ensures
            *final(self) == old(self).times(rhs),
    {
        self.ts = self.ts * rhs.ts;
        self.cycles = self.cycles * rhs.cycles;
        self.insn_count = self.insn_count * rhs.insn_count;
    }

    pub fn mul_assign_scalar(&mut self, rhs: u64)
        requires
            old(self).times_fits(Metrics::every(rhs)),
        ensures
            *final(self) == old(self).times(Metrics::every(rhs)),
    {
        self.mul_assign(Metrics::constant(rhs));
    }

    pub fn div_assign(&mut self, rhs: Metrics)
        requires
            rhs.all_nonzero(),
        ensures
            *final(self) == old(self).over(rhs),
    {
        self.ts = self.ts / rhs.ts;
        self.cycles = self.cycles / rhs.cycles;
        self.insn_count = self.insn_count / rhs.insn_count;
    }

    pub fn div_assign_scalar(&mut self, rhs: u64)
        requires
            rhs != 0,
        ensures
            *final(self) == old(self).over(Metrics::every(rhs)),
    {
        self.div_assign(Metrics::constant(rhs));
    }

    /// The counter by counter sum of the samples.
    pub fn sum(samples: &[Metrics]) -> (result: Metrics)
        requires
            Metrics::fit(
                total(times(samples@)),
                total(cycle_counts(samples@)),
                total(insn_counts(samples@)),
            ),
        ensures
            result == Metrics::of(
                total(times(samples@)),
                total(cycle_counts(samples@)),
                total(insn_counts(samples@)),
            ),
    {
        let mut acc = Metrics::constant(0);
        let mut i: usize = 0;
        while i < samples.len()
            invariant
                i <= samples.len(),
                Metrics::fit(
                    total(times(samples@)),
                    total(cycle_counts(samples@)),
                    total(insn_counts(samples@)),
                ),
                acc.ts == total(times(samples@).take(i as int)),
                acc.cycles == total(cycle_counts(samples@).take(i as int)),
                acc.insn_count == total(insn_counts(samples@).take(i as int)),
            decreases samples.len() - i,
        {
            proof {
                let n = i as int + 1;
                total_of_prefix(times(samples@), n);
                total_of_prefix(cycle_counts(samples@), n);
                total_of_prefix(insn_counts(samples@), n);
                assert(times(samples@).take(n).drop_last() =~= times(samples@).take(i as int));
                assert(cycle_counts(samples@).take(n).drop_last() =~= cycle_counts(samples@).take(
                    i as int,
                ));
                assert(insn_counts(samples@).take(n).drop_last() =~= insn_counts(samples@).take(
                    i as int,
                ));
            }
            acc.add_assign(samples[i]);
            i += 1;
        }
        proof {
            let n = samples@.len() as int;
            assert(times(samples@).take(n) =~= times(samples@));
            assert(cycle_counts(samples@).take(n) =~= cycle_counts(samples@));
            assert(insn_counts(samples@).take(n) =~= insn_counts(samples@));
        }
        acc
    }

    /// The text `(ts: .., cycles: .., insn_count: ..)`.
    pub open spec fn text(self) -> Seq<char> {
        "(ts: "@ + text::decimal(self.ts as nat) + ", cycles: "@ + text::decimal(
            self.cycles as nat,
        ) + ", insn_count: "@ + text::decimal(self.insn_count as nat) + ")"@
    }

    pub fn to_string(&self) -> (result: String)
        ensures
            result@ == self.text(),
    {
        let mut out = String::new();
        out.append("(ts: ");
        text::push_decimal(&mut out, self.ts);
        out.append(", cycles: ");
        text::push_decimal(&mut out, self.cycles);
        out.append(", insn_count: ");
        text::push_decimal(&mut out, self.insn_count);
        out.append(")");
        assert(out@ =~= self.text());
        out
    }
}

impl AddSpecImpl for Metrics {
    open spec fn obeys_add_spec() -> bool {
        true
    }

    open spec fn add_req(self, rhs: Metrics) -> bool {
        self.plus_fits(rhs)
    }

    open spec fn add_spec(self, rhs: Metrics) -> Metrics {
        self.plus(rhs)
    }
}

impl Add for Metrics {
    type Output = Metrics;

    fn add(self, rhs: Metrics) -> Metrics {
        Metrics {
            ts: self.ts + rhs.ts,
            cycles: self.cycles + rhs.cycles,
            insn_count: self.insn_count + rhs.insn_count,
        }
    }
}

impl<'a> AddSpecImpl for &'a Metrics {
    open spec fn obeys_add_spec() -> bool {
        true
    }

    open spec fn add_req(self, rhs: &'a Metrics) -> bool {
        self.plus_fits(*rhs)
    }

    open spec fn add_spec(self, rhs: &'a Metrics) -> Metrics {
        self.plus(*rhs)
    }
}

impl<'a> Add for &'a Metrics {
    type Output = Metrics;

    fn add(self, rhs: &'a Metrics) -> Metrics {
        *self + *rhs
    }
}

impl SubSpecImpl for Metrics {
    open spec fn obeys_sub_spec() -> bool {
        true
    }

    open spec fn sub_req(self, rhs: Metrics) -> bool {
        rhs.le_all(self)
    }

    open spec fn sub_spec(self, rhs: Metrics) -> Metrics {
        self.minus(rhs)
    }
}

impl Sub for Metrics {
    type Output = Metrics;

    fn sub(self, rhs: Metrics) -> Metrics {
        Metrics {
            ts: self.ts - rhs.ts,
            cycles: self.cycles - rhs.cycles,
            insn_count: self.insn_count - rhs.insn_count,
        }
    }
}

impl<'a> SubSpecImpl for &'a Metrics {
    open spec fn obeys_sub_spec() -> bool {
        true
    }

    open spec fn sub_req(self, rhs: &'a Metrics) -> bool {
        rhs.le_all(*self)
    }

    open spec fn sub_spec(self, rhs: &'a Metrics) -> Metrics {
        self.minus(*rhs)
    }
}

impl<'a> Sub for &'a Metrics {
    type Output = Metrics;

    fn sub(self, rhs: &'a Metrics) -> Metrics {
        *self - *rhs
    }
}

impl DivSpecImpl<u64> for Metrics {
    open spec fn obeys_div_spec() -> bool {
        true
    }

    open spec fn div_req(self, rhs: u64) -> bool {
        rhs != 0
    }

    open spec fn div_spec(self, rhs: u64) -> Metrics {
        self.over(Metrics::every(rhs))
    }
}

impl Div<u64> for Metrics {
    type Output = Metrics;

    fn div(self, rhs: u64) -> Metrics {
        Metrics {
            ts: self.ts / rhs,
            cycles: self.cycles / rhs,
            insn_count: self.insn_count / rhs,
        }
    }
}

impl<'a> DivSpecImpl<u64> for &'a Metrics {
    open spec fn obeys_div_spec() -> bool {
        true
    }

    open spec fn div_req(self, rhs: u64) -> bool {
        rhs != 0
    }

    open spec fn div_spec(self, rhs: u64) -> Metrics {
        self.over(Metrics::every(rhs))
    }
}

impl<'a> Div<u64> for &'a Metrics {
    type Output = Metrics;

    fn div(self, rhs: u64) -> Metrics {
        *self / rhs
    }
}

impl DivSpecImpl for Metrics {
    open spec fn obeys_div_spec() -> bool {
        true
    }

    open spec fn div_req(self, rhs: Metrics) -> bool {
        rhs.all_nonzero()
    }

    open spec fn div_spec(self, rhs: Metrics) -> Metrics {
        self.over(rhs)
    }
}

impl Div for Metrics {
    type Output = Metrics;

    fn div(self, rhs: Metrics) -> Metrics {
        Metrics {
            ts: self.ts / rhs.ts,
            cycles: self.cycles / rhs.cycles,
            insn_count: self.insn_count / rhs.insn_count,
        }
    }
}

impl<'a> DivSpecImpl for &'a Metrics {
    open spec fn obeys_div_spec() -> bool {
        true
    }

    open spec fn div_req(self, rhs: &'a Metrics) -> bool {
        rhs.all_nonzero()
    }

    open spec fn div_spec(self, rhs: &'a Metrics) -> Metrics {
        self.over(*rhs)
    }
}

impl<'a> Div for &'a Metrics {
    type Output = Metrics;

    fn div(self, rhs: &'a Metrics) -> Metrics {
        *self / *rhs
    }
}

impl MulSpecImpl<u64> for Metrics {
    open spec fn obeys_mul_spec() -> bool {
        true
    }

    open spec fn mul_req(self, rhs: u64) -> bool {
        self.times_fits(Metrics::every(rhs))
    }

    open spec fn mul_spec(self, rhs: u64) -> Metrics {
        self.times(Metrics::every(rhs))
    }
}

impl Mul<u64> for Metrics {
    type Output = Metrics;

    fn mul(self, rhs: u64) -> Metrics {
        Metrics {
            ts: self.ts * rhs,
            cycles: self.cycles * rhs,
            insn_count: self.insn_count * rhs,
        }
    }
}

impl<'a> MulSpecImpl<u64> for &'a Metrics {
    open spec fn obeys_mul_spec() -> bool {
        true
    }

    open spec fn mul_req(self, rhs: u64) -> bool {
        self.times_fits(Metrics::every(rhs))
    }

    open spec fn mul_spec(self, rhs: u64) -> Metrics {
        self.times(Metrics::every(rhs))
    }
}

impl<'a> Mul<u64> for &'a Metrics {
    type Output = Metrics;

    fn mul(self, rhs: u64) -> Metrics {
        *self * rhs
    }
}

impl MulSpecImpl for Metrics {
    open spec fn obeys_mul_spec() -> bool {
        true
    }

    open spec fn mul_req(self, rhs: Metrics) -> bool {
        self.times_fits(rhs)
    }

    open spec fn mul_spec(self, rhs: Metrics) -> Metrics {
        self.times(rhs)
    }
}

impl Mul for Metrics {
    type Output = Metrics;

    fn mul(self, rhs: Metrics) -> Metrics {
        Metrics {
            ts: self.ts * rhs.ts,
            cycles: self.cycles * rhs.cycles,
            insn_count: self.insn_count * rhs.insn_count,
        }
    }
}

impl<'a> MulSpecImpl for &'a Metrics {
    open spec fn obeys_mul_spec() -> bool {
        true
    }

    open spec fn mul_req(self, rhs: &'a Metrics) -> bool {
        self.times_fits(*rhs)
    }

    open spec fn mul_spec(self, rhs: &'a Metrics) -> Metrics {
        self.times(*rhs)
    }
}

impl<'a> Mul for &'a Metrics {
    type Output = Metrics;

    fn mul(self, rhs: &'a Metrics) -> Metrics {
        *self * *rhs
    }
}

impl PartialOrdSpecImpl for Metrics {
    open spec fn obeys_partial_cmp_spec() -> bool {
        true
    }

    open spec fn partial_cmp_spec(&self, other: &Metrics) -> Option<Ordering> {
        Some(
            if self.ts < other.ts {
                Ordering::Less
            } else if self.ts == other.ts {
                Ordering::Equal
            } else {
                Ordering::Greater
            },
        )
    }
}

impl PartialOrd for Metrics {
    fn partial_cmp(&self, other: &Metrics) -> Option<Ordering> {
        if self.ts < other.ts {
            Some(Ordering::Less)
        } else if self.ts == other.ts {
            Some(Ordering::Equal)
        } else {
            Some(Ordering::Greater)
        }
    }
}

/// A stretch of a trace, from `start` (inclusive) to `end()` (exclusive).
///
/// Only ranges up to `2^32 - 1` in size of each counter can be held.
#[derive(Debug, Clone, Copy, PartialEq, Eq, Hash, Structural)]
pub struct MetricsRange {
    pub start: Metrics,
    pub ts_incr: u32,
    pub cycles_incr: u32,
    pub insn_incr: u32,
}

impl MetricsRange {
    /// The end of the range can be held in a sample.
    pub open spec fn fits(self) -> bool {
        Metrics::fit(
            self.start.ts + self.ts_incr,
            self.start.cycles + self.cycles_incr,
            self.start.insn_count + self.insn_incr,
        )
    }

    pub open spec fn spec_end(self) -> Metrics {
        Metrics::of(
            self.start.ts + self.ts_incr,
            self.start.cycles + self.cycles_incr,
            self.start.insn_count + self.insn_incr,
        )
    }

    /// A range can lead from `start` to `end`.
    pub open spec fn spans(start: Metrics, end: Metrics) -> bool {
        &&& start.le_all(end)
        &&& end.ts - start.ts <= u32::MAX
        &&& end.cycles - start.cycles <= u32::MAX
        &&& end.insn_count - start.insn_count <= u32::MAX
    }

    /// The range from `start` to `end`.
    pub open spec fn between(start: Metrics, end: Metrics) -> MetricsRange {
        MetricsRange {
            start,
            ts_incr: (end.ts - start.ts) as u32,
            cycles_incr: (end.cycles - start.cycles) as u32,
            insn_incr: (end.insn_count - start.insn_count) as u32,
        }
    }

    /// `other` lies inside `self`.
    pub open spec fn includes(self, other: MetricsRange) -> bool {
        self.start.le_all(other.start) && other.spec_end().le_all(self.spec_end())
    }

    /// Whether a range can lead from `start` to `end`.
    pub fn can_span(start: &Metrics, end: &Metrics) -> (result: bool)
        ensures
            result == MetricsRange::spans(*start, *end),
    {
        start.at_most(end) && end.ts - start.ts <= u32::MAX as u64 && end.cycles - start.cycles
            <= u32::MAX as u64 && end.insn_count - start.insn_count <= u32::MAX as u64
    }

    /// The range from `start` to `end`.
    pub fn new(start: Metrics, end: &Metrics) -> (result: Self)
        requires
            MetricsRange::spans(start, *end),
        ensures
            result == MetricsRange::between(start, *end),
            result.fits(),
            result.start == start,
            result.spec_end() == *end,
    {
        Self {
            start,
            ts_incr: (end.ts - start.ts) as u32,
            cycles_incr: (end.cycles - start.cycles) as u32,
            insn_incr: (end.insn_count - start.insn_count) as u32,
        }
    }

    /// Whether the end of the range can be held in a sample.
    pub fn is_valid(&self) -> (result: bool)
        ensures
            result == self.fits(),
    {
        self.start.ts <= u64::MAX - self.ts_incr as u64 && self.start.cycles <= u64::MAX
            - self.cycles_incr as u64 && self.start.insn_count <= u64::MAX - self.insn_incr as u64
    }

    pub fn total_time(&self) -> (result: u64)
        ensures
            result == self.ts_incr,
            self.fits() ==> result == self.spec_end().ts - self.start.ts,
    {
        self.ts_incr as u64
    }

    pub fn total_cycles(&self) -> (result: u64)
        ensures
            result == self.cycles_incr,
            self.fits() ==> result == self.spec_end().cycles - self.start.cycles,
    {
        self.cycles_incr as u64
    }

    pub fn total_insn(&self) -> (result: u64)
        ensures
            result == self.insn_incr,
            self.fits() ==> result == self.spec_end().insn_count - self.start.insn_count,
    {
        self.insn_incr as u64
    }

    pub fn end(&self) -> (result: Metrics)
        requires
            self.fits(),
        ensures
            result == self.spec_end(),
    {
        Metrics {
            ts: self.start.ts + self.ts_incr as u64,
            cycles: self.start.cycles + self.cycles_incr as u64,
            insn_count: self.start.insn_count + self.insn_incr as u64,
        }
    }

    /// Whether `other` lies inside this range.
    pub fn includes_range(&self, other: &MetricsRange) -> (result: bool)
        requires
            self.fits(),
            other.fits(),
        ensures
            result == self.includes(*other),
    {
        let other_end = other.end();
        let self_end = self.end();
        self.start.at_most(&other.start) && other_end.at_most(&self_end)
    }

    /// The text `MetricsRange { (ts: .., ..) - (ts: .., ..) }`.
    pub open spec fn text(self) -> Seq<char> {
        "MetricsRange { "@ + self.start.text() + " - "@ + self.spec_end().text() + " }"@
    }

    pub fn to_string(&self) -> (result: String)
        requires
            self.fits(),
        ensures
            result@ == self.text(),
    {
        let mut out = String::new();
        out.append("MetricsRange { ");
        out.append(self.start.to_string().as_str());
        out.append(" - ");
        out.append(self.end().to_string().as_str());
        out.append(" }");
        assert(out@ =~= self.text());
        out
    }
}

/// A range leads back to the samples it was made of.
pub proof fn between_round_trip(start: Metrics, end: Metrics)
    requires
        MetricsRange::spans(start, end),
    ensures
        MetricsRange::between(start, end).fits(),
        MetricsRange::between(start, end).start == start,
        MetricsRange::between(start, end).spec_end() == end,
{
}

/// Inclusion of ranges is transitive.
pub proof fn includes_transitive(a: MetricsRange, b: MetricsRange, c: MetricsRange)
    requires
        a.includes(b),
        b.includes(c),
    ensures
        a.includes(c),
{
}

} // verus!

//! Histograms of datapoints taken from traces.
use crate::analysis::filter::{
    count_event, count_in, countable, ref_models, samples_of, target_frames, targets, trace_models,
};
use crate::analysis::laws;
use crate::analysis::stats::{ascending, ascending_is_sorted, sort_data};
use crate::pattern::{self, regex_fault, source_of};
use crate::text::{self, decimal};
use crate::trace::frame::{Frame, FrameModel};
use crate::trace::metrics::total;
use crate::trace::record::{Trace, TraceModel};
use crate::trace::trace_error::{DataCollectionError, TraceInterrupted};
use regex::Regex;
use vstd::prelude::*;

verus! {

/// What is shown of traces.
#[derive(Debug, Clone, Copy, PartialEq, Eq, Structural)]
pub enum Action {
    Errors,
    Latency,
    Interrupts,
}

impl Action {
    pub open spec fn subject(self) -> Seq<char> {
        match self {
            Action::Errors => "Error Count Distribution of "@,
            Action::Latency => "Latency Distribution of "@,
            Action::Interrupts => "Interrupt Count Distribution of "@,
        }
    }

    /// The title of the histogram for a number of traces.
    pub fn title(&self, traces: usize) -> (result: String)
        ensures
            result@ == self.subject() + decimal(traces as nat) + " traces"@,
    {
        let mut out = match self {
            Action::Errors => "Error Count Distribution of ".to_string(),
            Action::Latency => "Latency Distribution of ".to_string(),
            Action::Interrupts => "Interrupt Count Distribution of ".to_string(),
        };
        text::push_decimal(&mut out, traces as u64);
        out.append(" traces");
        out
    }

    /// What the datapoints are.
    pub fn x_axis(&self) -> (result: String)
        ensures
            result@ == match *self {
                Action::Errors => "Error Count"@,
                Action::Latency => "Latency (ns)"@,
                Action::Interrupts => "Interrupt Count"@,
            },
    {
        match self {
            Action::Errors => "Error Count".to_string(),
            Action::Latency => "Latency (ns)".to_string(),
            Action::Interrupts => "Interrupt Count".to_string(),
        }
    }
}

/// The latencies of frames.
pub open spec fn latencies(frames: Seq<FrameModel>) -> Seq<u32> {
    Seq::new(frames.len(), |i: int| frames[i].metrics.ts_incr)
}

/// The datapoints of some frames of a trace: the latency of each, or one count for them all.
pub open spec fn datapoints(trace: TraceModel, frames: Seq<FrameModel>, action: Action) -> Seq<u32> {
    match action {
        Action::Errors => seq![
            count_in(samples_of(trace, DataCollectionError::ID), 0, frames) as u32,
        ],
        Action::Interrupts => seq![
            count_in(samples_of(trace, TraceInterrupted::ID), 0, frames) as u32,
        ],
        Action::Latency => latencies(frames),
    }
}

/// The datapoints of traces, one trace after the other.
pub open spec fn all_datapoints(
    traces: Seq<TraceModel>,
    pattern: Option<Seq<char>>,
    action: Action,
) -> Seq<u32>
    decreases traces.len(),
{
    if traces.len() == 0 {
        Seq::empty()
    } else {
        all_datapoints(traces.drop_last(), pattern, action) + datapoints(
            traces.last(),
            targets(traces.last().root, pattern),
            action,
        )
    }
}

/// Adds the datapoints of some frames of a trace.
pub fn add_histogram_datapoint(
    frames: &Vec<&Frame>,
    trace: &Trace,
    data: &mut Vec<u32>,
    action: &Action,
)
    requires
        countable(trace@),
        forall|i: int| 0 <= i < frames.len() ==> (#[trigger] frames@[i])@.metrics.fits(),
    ensures
        final(data)@ == old(data)@ + datapoints(trace@, ref_models(frames@), *action),
{
    let ghost before = data@;
    let ghost models = ref_models(frames@);
    match action {
        Action::Errors => {
            data.push(count_event(trace, DataCollectionError::ID, frames));
            assert(data@ =~= before + datapoints(trace@, models, *action));
        },
        Action::Interrupts => {
            data.push(count_event(trace, TraceInterrupted::ID, frames));
            assert(data@ =~= before + datapoints(trace@, models, *action));
        },
        Action::Latency => {
            let mut i: usize = 0;
            assert(data@ =~= before + latencies(models).take(0));
            while i < frames.len()
                invariant
                    i <= frames.len(),
                    models == ref_models(frames@),
                    data@ == before + latencies(models).take(i as int),
                decreases frames.len() - i,
            {
                let ghost now = data@;
                data.push(frames[i].metrics.total_time() as u32);
                assert(models[i as int] == frames@[i as int]@);
                assert(data@ =~= before + latencies(models).take(i + 1));
                i += 1;
            }
            assert(latencies(models).take(i as int) =~= latencies(models));
        },
    }
}

/// The datapoints of traces, from the frames whose name matches, or from the outermost ones.
pub fn collect_datapoints(traces: &Vec<Trace>, regex: &Option<Regex>, action: &Action) -> (result: Vec<
    u32,
>)
    requires
        forall|i: int| 0 <= i < traces.len() ==> countable((#[trigger] traces@[i])@),
    ensures
        result@ == all_datapoints(
            trace_models(traces@),
            source_of(*regex),
            *action,
        ),
{
    let ghost models = trace_models(traces@);
    let ghost pattern = source_of(*regex);
    let mut data: Vec<u32> = Vec::new();
    let mut i: usize = 0;
    assert(models.take(0) =~= Seq::empty());
    while i < traces.len()
        invariant
            i <= traces.len(),
            models == trace_models(traces@),
            pattern == source_of(*regex),
            forall|k: int| 0 <= k < traces.len() ==> countable((#[trigger] traces@[k])@),
            data@ == all_datapoints(models.take(i as int), pattern, *action),
        decreases traces.len() - i,
    {
        proof {
            assert(models.take(i + 1).drop_last() =~= models.take(i as int));
            assert(models.take(i + 1).last() == traces@[i as int]@);
            assert(countable(traces@[i as int]@));
        }
        let frames = target_frames(traces[i].root_frame(), regex);
        add_histogram_datapoint(&frames, &traces[i], &mut data, action);
        i += 1;
    }
    assert(models.take(i as int) =~= models);
    data
}

/// The datapoints of traces, from the frames whose name matches a pattern, or from the outermost
/// ones where there is none. A pattern that does not compile is refused with what is wrong with it.
pub fn datapoints_for(traces: &Vec<Trace>, name: Option<&str>, action: &Action) -> (result: Result<
    Vec<u32>,
    String,
>)
    requires
        forall|i: int| 0 <= i < traces.len() ==> countable((#[trigger] traces@[i])@),
    ensures
        ({
            let pattern = match name {
                Some(name) => Some(name@),
                None => None,
            };
            let fault = match pattern {
                Some(pattern) => regex_fault(pattern),
                None => None,
            };
            match result {
                Ok(data) => fault is None && data@ == all_datapoints(
                    trace_models(traces@),
                    pattern,
                    *action,
                ),
                Err(text) => fault == Some(text@),
            }
        }),
{
    let regex = match name {
        Some(name) => match pattern::compile(name) {
            Ok(regex) => Some(regex),
            Err(text) => {
                return Err(text);
            },
        },
        None => None,
    };
    Ok(collect_datapoints(traces, &regex, action))
}

/// The datapoint falls into a bin.
pub open spec fn in_bin(start: u64, step: u32, bin: int) -> spec_fn(u32) -> bool {
    |value: u32| start + bin * step <= value < start + (bin + 1) * step
}

/// The number of the bin of a datapoint.
pub open spec fn bin_index(value: u32, start: u64, step: u32) -> int {
    (value - start) / step as int
}

/// How many datapoints fall into a bin.
pub open spec fn bin_count(data: Seq<u32>, start: u64, step: u32, bin: int) -> nat {
    data.filter(in_bin(start, step, bin)).len()
}

/// Counts of datapoints in bins of equal width.
pub struct Bins {
    pub start: u64,
    pub step: u32,
    pub counts: Vec<u64>,
}

/// The least and the greatest datapoint.
pub fn extent(data: &[u32]) -> (result: (u32, u32))
    requires
        data.len() > 0,
    ensures
        data@.contains(result.0),
        data@.contains(result.1),
        forall|i: int| 0 <= i < data@.len() ==> result.0 <= #[trigger] data@[i] <= result.1,
{
    let mut min: u32 = data[0];
    let mut max: u32 = data[0];
    let mut i: usize = 1;
    assert(data@.contains(data@[0]));
    while i < data.len()
        invariant
            1 <= i <= data.len(),
            data@.contains(min),
            data@.contains(max),
            forall|k: int| 0 <= k < i ==> min <= #[trigger] data@[k] <= max,
        decreases data.len() - i,
    {
        assert(data@.contains(data@[i as int]));
        if data[i] < min {
            min = data[i];
        }
        if data[i] > max {
            max = data[i];
        }
        i += 1;
    }
    (min, max)
}

/// The bins are those of the datapoints: they begin at the least, reach to the greatest, and each
/// counts what falls into it.
pub open spec fn bins_hold(bins: Bins, data: Seq<u32>, step: u32) -> bool {
    if data.len() == 0 {
        bins.start == 0 && bins.step == 0 && bins.counts.len() == 0
    } else {
        &&& bins.step == step
        &&& exists|min: u32, max: u32|
            {
                &&& #[trigger] data.contains(min)
                &&& #[trigger] data.contains(max)
                &&& bins.start == min
                &&& bins.counts.len() == (max - min) / step as int + 1
                &&& forall|i: int| 0 <= i < data.len() ==> min <= #[trigger] data[i] <= max
            }
        &&& forall|bin: int|
            0 <= bin < bins.counts.len() ==> #[trigger] bins.counts@[bin] == bin_count(
                data,
                bins.start,
                step,
                bin,
            )
    }
}

/// The bin of a value, and that there is only one.
proof fn bin_of_value(start: u64, step: u32, value: u32, bin: int)
    requires
        step > 0,
        start <= value,
        bin == (value - start) / step as int,
    ensures
        in_bin(start, step, bin)(value),
        forall|other: int| #[trigger] in_bin(start, step, other)(value) ==> other == bin,
{
    let d = value - start;
    let s = step as int;
    vstd::arithmetic::div_mod::lemma_fundamental_div_mod(d, s);
    vstd::arithmetic::div_mod::lemma_mod_bound(d, s);
    let r = d % s;
    assert(bin * s <= d < (bin + 1) * s) by (nonlinear_arith)
        requires
            d == s * bin + r,
            0 <= r < s,
    ;
    assert forall|other: int| #[trigger] in_bin(start, step, other)(value) implies other == bin by {
        assert(other * s <= d < (other + 1) * s);
        assert(other == bin) by (nonlinear_arith)
            requires
                s > 0,
                bin * s <= d < (bin + 1) * s,
                other * s <= d < (other + 1) * s,
        ;
    }
}

impl Bins {
    /// Counts one more datapoint, if it falls into a bin.
    pub fn add_datapoint(&mut self, value: u32)
        requires
            old(self).step > 0,
            old(self).start <= u32::MAX,
            forall|i: int| 0 <= i < old(self).counts.len() ==> #[trigger] old(self).counts@[i] < u64::MAX,
        ensures
            final(self).start == old(self).start,
            final(self).step == old(self).step,
            final(self).counts.len() == old(self).counts.len(),
            forall|bin: int|
                0 <= bin < old(self).counts.len() ==> #[trigger] final(self).counts@[bin] == old(
                    self,
                ).counts@[bin] + if in_bin(old(self).start, old(self).step, bin)(value) {
                    1int
                } else {
                    0
                },
    {
        let ghost before = self.counts@;
        if value as u64 >= self.start {
            let index: u64 = (value as u64 - self.start) / self.step as u64;
            proof {
                bin_of_value(self.start, self.step, value, index as int);
            }
            if index < self.counts.len() as u64 {
                assert(before[index as int] < u64::MAX);
                let at: usize = index as usize;
                let count: u64 = self.counts[at];
                self.counts.set(at, count + 1);
                proof {
                    assert forall|bin: int| 0 <= bin < before.len() implies #[trigger] self.counts@[bin]
                        == before[bin] + if in_bin(self.start, self.step, bin)(value) {
                        1int
                    } else {
                        0
                    } by {
                        if bin != index {
                            assert(!in_bin(self.start, self.step, bin)(value));
                        }
                    }
                }
            } else {
                assert forall|bin: int| 0 <= bin < before.len() implies !#[trigger] in_bin(
                    self.start,
                    self.step,
                    bin,
                )(value) by {}
            }
        } else {
            proof {
                let s = self.step as int;
                assert forall|bin: int| 0 <= bin < before.len() implies !#[trigger] in_bin(
                    self.start,
                    self.step,
                    bin,
                )(value) by {
                    assert(bin * s >= 0) by (nonlinear_arith)
                        requires
                            bin >= 0,
                            s > 0,
                    ;
                }
            }
        }
    }

    /// The bins of the datapoints, with the given width.
    pub fn from_data(data: &[u32], step: u32) -> (result: Self)
        requires
            step > 0,
            data.len() < u64::MAX,
            forall|i: int, j: int|
                0 <= i < data.len() && 0 <= j < data.len() ==> (#[trigger] data@[i]
                    - #[trigger] data@[j]) / step as int + 1 <= usize::MAX,
        ensures
            bins_hold(result, data@, step),
    {
        if data.len() == 0 {
            return Bins { start: 0, step: 0, counts: Vec::new() };
        }
        let (min, max) = extent(data);
        proof {
            let i = choose|i: int| 0 <= i < data@.len() && data@[i] == max;
            let j = choose|j: int| 0 <= j < data@.len() && data@[j] == min;
            assert((data@[i] - data@[j]) / step as int + 1 <= usize::MAX);
            vstd::arithmetic::div_mod::lemma_div_pos_is_pos((max - min) as int, step as int);
            vstd::arithmetic::div_mod::lemma_div_is_ordered_by_denominator(
                (max - min) as int,
                1,
                step as int,
            );
        }
        let len: usize = ((max - min) / step) as usize + 1;
        let mut counts: Vec<u64> = Vec::new();
        let mut n: usize = 0;
        while n < len
            invariant
                n <= len,
                counts.len() == n,
                forall|k: int| 0 <= k < n ==> #[trigger] counts@[k] == 0,
            decreases len - n,
        {
            counts.push(0);
            n += 1;
        }
        let mut bins = Bins { start: min as u64, step, counts };
        let ghost start = min as u64;
        let mut i: usize = 0;
        proof {
            reveal(Seq::filter);
            assert forall|bin: int| 0 <= bin < len implies #[trigger] bins.counts@[bin] == bin_count(
                data@.take(0),
                start,
                step,
                bin,
            ) by {}
        }
        while i < data.len()
            invariant
                i <= data.len(),
                step > 0,
                data.len() < u64::MAX,
                start <= u32::MAX,
                bins.start == start,
                bins.step == step,
                bins.counts.len() == len,
                forall|bin: int|
                    0 <= bin < len ==> #[trigger] bins.counts@[bin] == bin_count(
                        data@.take(i as int),
                        start,
                        step,
                        bin,
                    ),
            decreases data.len() - i,
        {
            let ghost before = bins.counts@;
            proof {
                assert forall|bin: int| 0 <= bin < len implies #[trigger] before[bin] <= i by {
                    no_more_than_all(data@.take(i as int), in_bin(start, step, bin));
                }
            }
            bins.add_datapoint(data[i]);
            proof {
                reveal(Seq::filter);
                let next = data@.take(i + 1);
                assert(next.drop_last() =~= data@.take(i as int));
                assert(next.last() == data@[i as int]);
                assert forall|bin: int| 0 <= bin < len implies #[trigger] bins.counts@[bin]
                    == bin_count(next, start, step, bin) by {
                    assert(before[bin] == bin_count(data@.take(i as int), start, step, bin));
                }
            }
            i += 1;
        }
        assert(data@.take(i as int) =~= data@);
        assert(data@.contains(min) && data@.contains(max));
        bins
    }
}

proof fn no_more_than_all(data: Seq<u32>, pred: spec_fn(u32) -> bool)
    ensures
        data.filter(pred).len() <= data.len(),
    decreases data.len(),
{
    reveal(Seq::filter);
    if data.len() > 0 {
        no_more_than_all(data.drop_last(), pred);
    }
}

/// The counts of the first bins, added up.
spec fn counted(data: Seq<u32>, start: u64, step: u32, bins: nat) -> int
    decreases bins,
{
    if bins == 0 {
        0
    } else {
        counted(data, start, step, (bins - 1) as nat) + bin_count(data, start, step, bins - 1)
    }
}

/// One more datapoint adds one to the counts, if its bin is among them.
proof fn counted_once(data: Seq<u32>, start: u64, step: u32, bins: nat)
    requires
        data.len() > 0,
        step > 0,
        start <= data.last(),
    ensures
        counted(data, start, step, bins) == counted(data.drop_last(), start, step, bins) + if bin_index(
            data.last(),
            start,
            step,
        ) < bins {
            1int
        } else {
            0
        },
    decreases bins,
{
    let bin = (data.last() - start) / step as int;
    bin_of_value(start, step, data.last(), bin);
    vstd::arithmetic::div_mod::lemma_div_pos_is_pos(data.last() - start, step as int);
    reveal(Seq::filter);
    if bins > 0 {
        counted_once(data, start, step, (bins - 1) as nat);
        assert(in_bin(start, step, bins - 1)(data.last()) == (bin == bins - 1));
    }
}

proof fn counted_all(data: Seq<u32>, start: u64, step: u32, bins: nat)
    requires
        step > 0,
        forall|i: int|
            0 <= i < data.len() ==> start <= #[trigger] data[i] && bin_index(data[i], start, step)
                < bins,
    ensures
        counted(data, start, step, bins) == data.len(),
    decreases data.len(),
{
    if data.len() > 0 {
        let rest = data.drop_last();
        assert forall|i: int| 0 <= i < rest.len() implies start <= #[trigger] rest[i] && bin_index(
            rest[i],
            start,
            step,
        ) < bins by {
            assert(rest[i] == data[i]);
        }
        assert(start <= data[data.len() - 1]);
        counted_all(rest, start, step, bins);
        counted_once(data, start, step, bins);
    } else {
        counted_none(start, step, bins);
        assert(data =~= Seq::empty());
    }
}

proof fn counted_none(start: u64, step: u32, bins: nat)
    ensures
        counted(Seq::empty(), start, step, bins) == 0,
    decreases bins,
{
    reveal(Seq::filter);
    if bins > 0 {
        counted_none(start, step, (bins - 1) as nat);
    }
}

proof fn counted_is_total(bins: Bins, data: Seq<u32>, step: u32, n: nat)
    requires
        n <= bins.counts.len(),
        forall|bin: int|
            0 <= bin < bins.counts.len() ==> #[trigger] bins.counts@[bin] == bin_count(
                data,
                bins.start,
                step,
                bin,
            ),
    ensures
        total(count_values(bins.counts@.take(n as int))) == counted(data, bins.start, step, n),
    decreases n,
{
    let now = count_values(bins.counts@.take(n as int));
    if n == 0 {
        assert(now =~= Seq::empty());
    } else {
        counted_is_total(bins, data, step, (n - 1) as nat);
        assert(now.drop_last() =~= count_values(bins.counts@.take(n - 1)));
    }
}

/// The counts as integers.
pub open spec fn count_values(counts: Seq<u64>) -> Seq<int> {
    Seq::new(counts.len(), |i: int| counts[i] as int)
}

/// Every datapoint is counted, and once only: the counts add up to the number of datapoints.
pub proof fn bins_count_all(bins: Bins, data: Seq<u32>, step: u32)
    requires
        step > 0,
        bins_hold(bins, data, step),
    ensures
        total(count_values(bins.counts@)) == data.len(),
{
    if data.len() == 0 {
        assert(count_values(bins.counts@) =~= Seq::empty());
    } else {
        let (min, max) = choose|min: u32, max: u32|
            {
                &&& #[trigger] data.contains(min)
                &&& #[trigger] data.contains(max)
                &&& bins.start == min
                &&& bins.counts.len() == (max - min) / step as int + 1
                &&& forall|i: int| 0 <= i < data.len() ==> min <= #[trigger] data[i] <= max
            };
        let n = bins.counts@.len();
        assert forall|i: int| 0 <= i < data.len() implies bins.start <= #[trigger] data[i] && bin_index(
            data[i],
            bins.start,
            step,
        ) < n by {
            vstd::arithmetic::div_mod::lemma_div_is_ordered(
                data[i] - min,
                (max - min) as int,
                step as int,
            );
        }
        counted_all(data, bins.start, step, n);
        counted_is_total(bins, data, step, n);
        assert(bins.counts@.take(n as int) =~= bins.counts@);
    }
}

/// Five numbers that sum up datapoints. Each quartile lies half way between two datapoints.
pub struct Quartiles {
    pub min: u32,
    pub q1: (u32, u32),
    pub median: (u32, u32),
    pub q3: (u32, u32),
    pub max: u32,
}

/// The datapoint at a place among those in ascending order, or for an odd number of datapoints, that
/// and the next.
pub open spec fn quartile(sorted: Seq<u32>, place: int) -> (u32, u32) {
    if sorted.len() % 2 == 0 {
        (sorted[place], sorted[place])
    } else {
        (sorted[place], sorted[place + 1])
    }
}

/// The quartiles of datapoints.
pub open spec fn quartiles_of(data: Seq<u32>) -> Quartiles {
    let sorted = ascending(data);
    let n = data.len() as int;
    if n == 0 {
        Quartiles { min: 0, q1: (0, 0), median: (0, 0), q3: (0, 0), max: 0 }
    } else {
        Quartiles {
            min: sorted[0],
            q1: quartile(sorted, n / 4),
            median: quartile(sorted, n / 2),
            q3: quartile(sorted, 3 * n / 4),
            max: sorted[n - 1],
        }
    }
}

/// The text of what lies half way between two numbers, with one decimal place.
pub open spec fn half_way(pair: (u32, u32)) -> Seq<char> {
    decimal(((pair.0 + pair.1) / 2) as nat) + if (pair.0 + pair.1) % 2 == 0 {
        ".0"@
    } else {
        ".5"@
    }
}

fn push_half_way(out: &mut String, pair: (u32, u32))
    ensures
        final(out)@ == old(out)@ + half_way(pair),
{
    let sum: u64 = pair.0 as u64 + pair.1 as u64;
    text::push_decimal(out, sum / 2);
    if sum % 2 == 0 {
        out.append(".0");
    } else {
        out.append(".5");
    }
    assert(out@ =~= old(out)@ + half_way(pair));
}

impl Quartiles {
    /// The quartiles of datapoints. An odd number of them must be at least five.
    pub fn from_data(data: &[u32]) -> (result: Self)
        requires
            data.len() % 2 == 0 || data.len() >= 5,
        ensures
            result == quartiles_of(data@),
            data.len() > 0 ==> laws::quartered(data@, result),
    {
        proof {
            if data.len() > 0 {
                laws::quartiles_divide_data(data@);
            }
        }
        if data.len() == 0 {
            return Quartiles { min: 0, q1: (0, 0), median: (0, 0), q3: (0, 0), max: 0 };
        }
        let sorted = sort_data(data);
        let n: usize = sorted.len();
        // three quarters of n, without an overflow on the way
        let third: usize = n / 4 * 3 + n % 4 * 3 / 4;
        let (q1, median, q3) = if n % 2 == 0 {
            (
                (sorted[n / 4], sorted[n / 4]),
                (sorted[n / 2], sorted[n / 2]),
                (sorted[third], sorted[third]),
            )
        } else {
            (
                (sorted[n / 4], sorted[n / 4 + 1]),
                (sorted[n / 2], sorted[n / 2 + 1]),
                (sorted[third], sorted[third + 1]),
            )
        };
        Quartiles { min: sorted[0], q1, median, q3, max: sorted[n - 1] }
    }

    pub open spec fn text(self) -> Seq<char> {
        "Min: "@ + half_way((self.min, self.min)) + ", Q1: "@ + half_way(self.q1) + ", Median: "@
            + half_way(self.median) + ", Q3: "@ + half_way(self.q3) + ", Max: "@ + half_way(
            (self.max, self.max),
        )
    }

    /// The text of the five numbers, with one decimal place each.
    pub fn to_string(&self) -> (result: String)
        ensures
            result@ == self.text(),
    {
        let mut out = "Min: ".to_string();
        push_half_way(&mut out, (self.min, self.min));
        out.append(", Q1: ");
        push_half_way(&mut out, self.q1);
        out.append(", Median: ");
        push_half_way(&mut out, self.median);
        out.append(", Q3: ");
        push_half_way(&mut out, self.q3);
        out.append(", Max: ");
        push_half_way(&mut out, (self.max, self.max));
        assert(out@ =~= self.text());
        out
    }
}

/// The quartiles stand in order, between the least and the greatest datapoint.
pub proof fn quartiles_are_ordered(data: Seq<u32>)
    requires
        data.len() % 2 == 0 || data.len() >= 5,
    ensures
        ({
            let q = quartiles_of(data);
            &&& q.min <= q.q1.0 <= q.q1.1 <= q.median.1
            &&& q.q1.0 <= q.median.0 <= q.median.1 <= q.q3.1
            &&& q.median.0 <= q.q3.0 <= q.q3.1 <= q.max
        }),
{
    ascending_is_sorted(data);
}

/// The text, with spaces behind it up to a width.
pub open spec fn padded(s: Seq<char>, width: int) -> Seq<char> {
    s + Seq::new(
        if s.len() < width {
            (width - s.len()) as nat
        } else {
            0
        },
        |i: int| ' ',
    )
}

/// Appends a number, with spaces behind it up to a width.
fn push_padded(out: &mut String, n: u64, width: usize)
    ensures
        final(out)@ == old(out)@ + padded(decimal(n as nat), width as int),
{
    let ghost before = out@;
    let ghost numeral = decimal(n as nat);
    let len: usize = decimal_len(n);
    text::push_decimal(out, n);
    let mut at: usize = len;
    assert(out@ =~= before + padded(numeral, 0));
    while at < width
        invariant
            len <= at,
            len == numeral.len(),
            at <= width || at == len,
            out@ == before + padded(numeral, at as int),
        decreases width - at,
    {
        out.push(' ');
        assert(out@ =~= before + padded(numeral, at + 1));
        at += 1;
    }
    assert(out@ =~= before + padded(numeral, width as int));
}

/// How many digits the decimal numeral of a number has.
fn decimal_len(n: u64) -> (result: usize)
    ensures
        result == decimal(n as nat).len(),
        result <= 20,
{
    let mut left: u64 = n;
    let mut len: usize = 1;
    proof {
        reveal_with_fuel(text::ten_to, 21);
        text::decimal_length(n as nat, 20);
    }
    while left >= 10
        invariant
            len >= 1,
            decimal(n as nat).len() == len - 1 + decimal(left as nat).len(),
            decimal(n as nat).len() <= 20,
        decreases left,
    {
        proof {
            text::decimal_digits((left / 10) as nat);
        }
        left = left / 10;
        len += 1;
    }
    len
}

/// The greatest of the counts; zero where there are none.
pub open spec fn greatest(counts: Seq<u64>) -> u64
    decreases counts.len(),
{
    if counts.len() == 0 {
        0
    } else {
        let rest = greatest(counts.drop_last());
        if counts.last() > rest {
            counts.last()
        } else {
            rest
        }
    }
}

fn greatest_of(counts: &Vec<u64>) -> (result: u64)
    ensures
        result == greatest(counts@),
        forall|i: int| 0 <= i < counts.len() ==> #[trigger] counts@[i] <= result,
{
    let mut max: u64 = 0;
    let mut i: usize = 0;
    assert(counts@.take(0) =~= Seq::empty());
    while i < counts.len()
        invariant
            i <= counts.len(),
            max == greatest(counts@.take(i as int)),
            forall|k: int| 0 <= k < i ==> #[trigger] counts@[k] <= max,
        decreases counts.len() - i,
    {
        assert(counts@.take(i + 1).drop_last() =~= counts@.take(i as int));
        if counts[i] > max {
            max = counts[i];
        }
        i += 1;
    }
    assert(counts@.take(i as int) =~= counts@);
    max
}

/// How wide the longest bar is.
pub const BAR_WIDTH: u64 = 50;

/// A histogram made of text.
pub struct HistogramASCII {
    pub bins: Bins,
    pub quartiles: Quartiles,
    pub name: String,
}

/// The stars of a bar.
pub open spec fn stars(count: u64, max_count: u64) -> Seq<char> {
    Seq::new((BAR_WIDTH * count / max_count as int) as nat, |i: int| '*')
}

/// The line for a bin: its bounds, its count, and its bar.
pub open spec fn bin_line(bins: Bins, bin: int) -> Seq<char> {
    let max_count = greatest(bins.counts@);
    let bucket_width = decimal((bins.start + bins.step * bins.counts@.len()) as nat).len() as int;
    let value_width = decimal(max_count as nat).len() as int;
    "["@ + padded(decimal((bins.start + bin * bins.step) as nat), bucket_width) + ", "@ + padded(
        decimal((bins.start + (bin + 1) * bins.step) as nat),
        bucket_width,
    ) + "] | "@ + padded(decimal(bins.counts@[bin] as nat), value_width) + " : "@ + stars(
        bins.counts@[bin],
        max_count,
    )
}

/// The lines of a histogram: the title, the quartiles, an empty line, and one for each bin.
pub open spec fn histogram_lines(histogram: HistogramASCII) -> Seq<Seq<char>> {
    seq!["---  "@ + histogram.name@ + "  ---"@, histogram.quartiles.text(), Seq::<char>::empty()]
        + Seq::new(histogram.bins.counts@.len(), |bin: int| bin_line(histogram.bins, bin))
}

/// The lines, as sequences of characters.
pub open spec fn line_texts(lines: Seq<String>) -> Seq<Seq<char>> {
    Seq::new(lines.len(), |i: int| lines[i]@)
}

impl HistogramASCII {
    /// The bins can be drawn: their bounds and the bars can be held, and where there are bins, some
    /// count is not zero.
    pub open spec fn drawable(self) -> bool {
        &&& self.bins.start + self.bins.step * self.bins.counts@.len() <= u64::MAX
        &&& greatest(self.bins.counts@) <= u64::MAX / BAR_WIDTH
        &&& self.bins.counts@.len() > 0 ==> greatest(self.bins.counts@) > 0
    }

    /// The histogram of datapoints, with bins of the given width.
    pub fn new(name: String, data: &[u32], step: u32) -> (result: Self)
        requires
            step > 0,
            data.len() <= u64::MAX / BAR_WIDTH,
            data.len() % 2 == 0 || data.len() >= 5,
            forall|i: int, j: int|
                0 <= i < data.len() && 0 <= j < data.len() ==> (#[trigger] data@[i]
                    - #[trigger] data@[j]) / step as int + 1 <= usize::MAX,
        ensures
            result.name == name,
            bins_hold(result.bins, data@, step),
            result.quartiles == quartiles_of(data@),
            result.drawable(),
    {
        let bins = Bins::from_data(data, step);
        proof {
            bins_are_drawable(bins, data@, step);
        }
        HistogramASCII { bins, quartiles: Quartiles::from_data(data), name }
    }

    /// The lines of the histogram.
    pub fn lines(&self) -> (result: Vec<String>)
        requires
            self.drawable(),
        ensures
            line_texts(result@) == histogram_lines(*self),
    {
        let ghost wanted = histogram_lines(*self);
        let max_count: u64 = greatest_of(&self.bins.counts);
        let value_width: usize = decimal_len(max_count);
        let ghost len = self.bins.counts@.len() as int;
        let ghost s = self.bins.step as int;
        let bucket_width: usize = decimal_len(
            self.bins.start + self.bins.step as u64 * self.bins.counts.len() as u64,
        );
        let mut lines: Vec<String> = Vec::new();
        let mut title = "---  ".to_string();
        title.append(self.name.as_str());
        title.append("  ---");
        lines.push(title);
        lines.push(self.quartiles.to_string());
        lines.push(String::new());
        let mut start: u64 = self.bins.start;
        let mut bin: usize = 0;
        assert(line_texts(lines@) =~= wanted.take(3));
        assert(0 * s == 0) by (nonlinear_arith);
        while bin < self.bins.counts.len()
            invariant
                self.drawable(),
                wanted == histogram_lines(*self),
                bin <= len,
                len == self.bins.counts@.len(),
                s == self.bins.step,
                max_count == greatest(self.bins.counts@),
                forall|i: int| 0 <= i < len ==> #[trigger] self.bins.counts@[i] <= max_count,
                value_width == decimal(max_count as nat).len(),
                bucket_width == decimal((self.bins.start + s * len) as nat).len(),
                start == self.bins.start + bin * s,
                line_texts(lines@) == wanted.take(bin + 3),
            decreases len - bin,
        {
            let count: u64 = self.bins.counts[bin];
            proof {
                assert((bin + 1) * s == bin * s + s) by (nonlinear_arith);
                assert((bin + 1) * s <= s * len) by (nonlinear_arith)
                    requires
                        bin + 1 <= len,
                        s >= 0,
                ;
                assert(count <= max_count);
            }
            let end: u64 = start + self.bins.step as u64;
            let mut line = "[".to_string();
            push_padded(&mut line, start, bucket_width);
            line.append(", ");
            push_padded(&mut line, end, bucket_width);
            line.append("] | ");
            push_padded(&mut line, count, value_width);
            line.append(" : ");
            let ghost before = line@;
            let width: u64 = BAR_WIDTH * count / max_count;
            let mut star: u64 = 0;
            assert(line@ =~= before + Seq::new(0, |i: int| '*'));
            while star < width
                invariant
                    star <= width,
                    line@ == before + Seq::new(star as nat, |i: int| '*'),
                decreases width - star,
            {
                line.push('*');
                assert(line@ =~= before + Seq::new((star + 1) as nat, |i: int| '*'));
                star += 1;
            }
            assert(line@ =~= bin_line(self.bins, bin as int));
            let ghost so_far = line_texts(lines@);
            lines.push(line);
            proof {
                assert(line_texts(lines@) =~= so_far.push(wanted[bin + 3]));
                assert(line_texts(lines@) =~= wanted.take(bin + 4));
            }
            start = end;
            bin += 1;
        }
        assert(line_texts(lines@) =~= wanted);
        lines
    }
}

proof fn greatest_bounds(counts: Seq<u64>, bound: u64)
    requires
        forall|i: int| 0 <= i < counts.len() ==> #[trigger] counts[i] <= bound,
    ensures
        greatest(counts) <= bound,
        forall|i: int| 0 <= i < counts.len() ==> #[trigger] counts[i] <= greatest(counts),
    decreases counts.len(),
{
    if counts.len() > 0 {
        let rest = counts.drop_last();
        assert forall|i: int| 0 <= i < rest.len() implies #[trigger] rest[i] <= bound by {
            assert(rest[i] == counts[i]);
        }
        assert(counts[counts.len() - 1] <= bound);
        greatest_bounds(rest, bound);
        assert forall|i: int| 0 <= i < counts.len() implies #[trigger] counts[i] <= greatest(
            counts,
        ) by {
            if i < rest.len() {
                assert(counts[i] == rest[i]);
            }
        }
    }
}

/// Bins of as many datapoints as bars can show can be drawn.
proof fn bins_are_drawable(bins: Bins, data: Seq<u32>, step: u32)
    requires
        step > 0,
        data.len() <= u64::MAX / BAR_WIDTH,
        bins_hold(bins, data, step),
    ensures
        bins.start + bins.step * bins.counts@.len() <= u64::MAX,
        greatest(bins.counts@) <= u64::MAX / BAR_WIDTH,
        bins.counts@.len() > 0 ==> greatest(bins.counts@) > 0,
{
    if data.len() == 0 {
        assert(bins.step * bins.counts@.len() == 0) by (nonlinear_arith)
            requires
                bins.step == 0,
        ;
    } else {
        let (min, max) = choose|min: u32, max: u32|
            {
                &&& #[trigger] data.contains(min)
                &&& #[trigger] data.contains(max)
                &&& bins.start == min
                &&& bins.counts.len() == (max - min) / step as int + 1
                &&& forall|i: int| 0 <= i < data.len() ==> min <= #[trigger] data[i] <= max
            };
        let s = step as int;
        let d = (max - min) as int;
        let q = d / s;
        let n = bins.counts@.len() as int;
        vstd::arithmetic::div_mod::lemma_fundamental_div_mod(d, s);
        vstd::arithmetic::div_mod::lemma_mod_bound(d, s);
        let r = d % s;
        assert(s * n <= d + s) by (nonlinear_arith)
            requires
                n == q + 1,
                d == s * q + r,
                0 <= r,
        ;
        assert forall|bin: int| 0 <= bin < n implies #[trigger] bins.counts@[bin] <= (u64::MAX
            / BAR_WIDTH) by {
            no_more_than_all(data, in_bin(bins.start, step, bin));
        }
        greatest_bounds(bins.counts@, (u64::MAX / BAR_WIDTH) as u64);
        vstd::arithmetic::div_mod::lemma_div_pos_is_pos(d, s);
        let at = choose|i: int| 0 <= i < data.len() && data[i] == min;
        let pred = in_bin(bins.start, step, 0);
        assert(0 * s == 0 && 1 * s == s) by (nonlinear_arith);
        assert(pred(data[at]));
        some_pass(data, pred, at);
        assert(bins.counts@[0] == bin_count(data, bins.start, step, 0));
    }
}

proof fn some_pass(data: Seq<u32>, pred: spec_fn(u32) -> bool, at: int)
    requires
        0 <= at < data.len(),
        pred(data[at]),
    ensures
        data.filter(pred).len() > 0,
    decreases data.len(),
{
    reveal(Seq::filter);
    if at < data.len() - 1 {
        some_pass(data.drop_last(), pred, at);
    }
}

} // verus!

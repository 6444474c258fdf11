//! Filtering of traces by latency, errors and interrupts.
use crate::analysis::finder::{self, all_frames, frame_models, FrameFinder};
use crate::pattern::{self, regex_fault, regex_matches, regex_source, source_of};
use crate::text::{self, number, pieces, place_of, trimmed, NumberFault};
use crate::trace::event::{first_with_id, sorted_by_time, Event};
use crate::trace::frame::{self, ends_fit, Frame, FrameModel};
use crate::trace::metrics::{Metrics, MetricsRange};
use crate::trace::record::{Trace, TraceModel};
use crate::trace::trace_error::{DataCollectionError, TraceInterrupted};
use regex::Regex;
use vstd::prelude::*;

verus! {

/// Which traces are kept. What is not given does not matter.
#[derive(Debug, Clone)]
pub struct Filter {
    /// The functions that the filter applies to; the outermost frame where there is none.
    pub target: Option<Regex>,
    pub min_errors: Option<u32>,
    pub max_errors: Option<u32>,
    /// In nanoseconds.
    pub min_latency: Option<u64>,
    pub max_latency: Option<u64>,
    pub min_interrupts: Option<u32>,
    pub max_interrupts: Option<u32>,
}

#[verifier::ext_equal]
pub struct FilterModel {
    pub target: Option<Seq<char>>,
    pub min_errors: Option<u32>,
    pub max_errors: Option<u32>,
    pub min_latency: Option<u64>,
    pub max_latency: Option<u64>,
    pub min_interrupts: Option<u32>,
    pub max_interrupts: Option<u32>,
}

impl View for Filter {
    type V = FilterModel;

    open spec fn view(&self) -> FilterModel {
        FilterModel {
            target: source_of(self.target),
            min_errors: self.min_errors,
            max_errors: self.max_errors,
            min_latency: self.min_latency,
            max_latency: self.max_latency,
            min_interrupts: self.min_interrupts,
            max_interrupts: self.max_interrupts,
        }
    }
}

/// The filter that keeps all traces.
pub open spec fn no_filter() -> FilterModel {
    FilterModel {
        target: None,
        min_errors: None,
        max_errors: None,
        min_latency: None,
        max_latency: None,
        min_interrupts: None,
        max_interrupts: None,
    }
}

impl Default for Filter {
    fn default() -> (result: Self)
        ensures
            result@ == no_filter(),
    {
        Filter {
            target: None,
            min_errors: None,
            max_errors: None,
            min_latency: None,
            max_latency: None,
            min_interrupts: None,
            max_interrupts: None,
        }
    }
}

/// A number among the options, or the text of the error.
pub open spec fn read_number(keyword: Seq<char>, value: Seq<char>, max: nat) -> Result<nat, Seq<char>> {
    match number(value, max) {
        Ok(n) => Ok(n),
        Err(fault) => Err("Invalid number for "@ + keyword + ": "@ + fault.text()),
    }
}

/// A latency among the options: it is given in microseconds, and kept in nanoseconds.
pub open spec fn read_latency(keyword: Seq<char>, value: Seq<char>) -> Result<u64, Seq<char>> {
    match read_number(keyword, value, u64::MAX as nat) {
        Ok(n) => if n * 1000 <= u64::MAX {
            Ok((n * 1000) as u64)
        } else {
            Err("Invalid number for "@ + keyword + ": "@ + NumberFault::TooLarge.text())
        },
        Err(text) => Err(text),
    }
}

/// A count among the options.
pub open spec fn read_count(keyword: Seq<char>, value: Seq<char>) -> Result<u32, Seq<char>> {
    match read_number(keyword, value, u32::MAX as nat) {
        Ok(n) => Ok(n as u32),
        Err(text) => Err(text),
    }
}

/// The filter with one more option, `keyword=value`, or the text of the error.
pub open spec fn with_option(filter: FilterModel, part: Seq<char>) -> Result<FilterModel, Seq<char>> {
    let p = place_of(part, '=');
    let keyword = part.take(p);
    let value = part.skip(p + 1);
    if p == part.len() {
        Err("Invalid filter part: "@ + part)
    } else if keyword == "target"@ {
        match regex_fault(value) {
            None => Ok(FilterModel { target: Some(value), ..filter }),
            Some(text) => Err("Invalid regex: "@ + text),
        }
    } else if keyword == "min_errors"@ {
        match read_count(keyword, value) {
            Ok(n) => Ok(FilterModel { min_errors: Some(n), ..filter }),
            Err(text) => Err(text),
        }
    } else if keyword == "max_errors"@ {
        match read_count(keyword, value) {
            Ok(n) => Ok(FilterModel { max_errors: Some(n), ..filter }),
            Err(text) => Err(text),
        }
    } else if keyword == "min_latency"@ {
        match read_latency(keyword, value) {
            Ok(n) => Ok(FilterModel { min_latency: Some(n), ..filter }),
            Err(text) => Err(text),
        }
    } else if keyword == "max_latency"@ {
        match read_latency(keyword, value) {
            Ok(n) => Ok(FilterModel { max_latency: Some(n), ..filter }),
            Err(text) => Err(text),
        }
    } else if keyword == "min_interrupts"@ {
        match read_count(keyword, value) {
            Ok(n) => Ok(FilterModel { min_interrupts: Some(n), ..filter }),
            Err(text) => Err(text),
        }
    } else if keyword == "max_interrupts"@ {
        match read_count(keyword, value) {
            Ok(n) => Ok(FilterModel { max_interrupts: Some(n), ..filter }),
            Err(text) => Err(text),
        }
    } else {
        Err("Unknown filter keyword: "@ + keyword)
    }
}

/// The filter with the options of the parts, one after the other, or the text of the first error.
/// White space around parts does not matter.
pub open spec fn with_options(filter: FilterModel, parts: Seq<Seq<char>>) -> Result<
    FilterModel,
    Seq<char>,
>
    decreases parts.len(),
{
    if parts.len() == 0 {
        Ok(filter)
    } else {
        match with_option(filter, trimmed(parts[0])) {
            Ok(next) => with_options(next, parts.drop_first()),
            Err(text) => Err(text),
        }
    }
}

/// The filter that a text stands for: options with commas between them.
pub open spec fn filter_of(s: Seq<char>) -> Result<FilterModel, Seq<char>> {
    with_options(no_filter(), pieces(s, ','))
}

/// Reads a number among the options.
fn parse_option(keyword: &str, value: &[char], max: u64) -> (result: Result<u64, String>)
    ensures
        match (result, read_number(keyword@, value@, max as nat)) {
            (Ok(n), Ok(model)) => n == model,
            (Err(text), Err(model)) => text@ == model,
            _ => false,
        },
{
    match text::parse_number(value, max) {
        Ok(n) => Ok(n),
        Err(fault) => Err(number_error(keyword, fault)),
    }
}

fn number_error(keyword: &str, fault: NumberFault) -> (result: String)
    ensures
        result@ == "Invalid number for "@ + keyword@ + ": "@ + fault.text(),
{
    let mut out = "Invalid number for ".to_string();
    out.append(keyword);
    out.append(": ");
    let why = fault.to_string();
    out.append(why.as_str());
    out
}

fn parse_count(keyword: &str, value: &[char]) -> (result: Result<u32, String>)
    ensures
        match (result, read_count(keyword@, value@)) {
            (Ok(n), Ok(model)) => n == model,
            (Err(text), Err(model)) => text@ == model,
            _ => false,
        },
{
    match parse_option(keyword, value, u32::MAX as u64) {
        Ok(n) => {
            proof {
                text::number_bounds(value@, u32::MAX as nat);
            }
            Ok(n as u32)
        },
        Err(text) => Err(text),
    }
}

fn parse_latency(keyword: &str, value: &[char]) -> (result: Result<u64, String>)
    ensures
        match (result, read_latency(keyword@, value@)) {
            (Ok(n), Ok(model)) => n == model,
            (Err(text), Err(model)) => text@ == model,
            _ => false,
        },
{
    match parse_option(keyword, value, u64::MAX) {
        Ok(n) => if n <= u64::MAX / 1000 {
            Ok(n * 1000)
        } else {
            Err(number_error(keyword, NumberFault::TooLarge))
        },
        Err(text) => Err(text),
    }
}

impl Filter {
    pub const HELP: &'static str = "A filter in the form \"[target=regex,] [min_errors=num,] [max_errors=num,] [min_latency=\u{b5}s,] [max_latency=\u{b5}s,] [min_interrupts=num,] [max_interrupts=num]\". Traces with frames violating a filter are ignored. If target regex is not provided, filter applies to root frames.";

    /// Sets the target to a regular expression, or gives the text for one that does not compile.
    pub fn set_target(&mut self, compiled: Result<Regex, String>) -> (result: Result<(), String>)
        ensures
            match compiled {
                Ok(regex) => result is Ok && final(self)@ == (FilterModel {
                    target: Some(regex_source(regex)),
                    ..old(self)@
                }),
                Err(text) => {
                    &&& result matches Err(out) && out@ == "Invalid regex: "@ + text@
                    &&& *final(self) == *old(self)
                },
            },
    {
        match compiled {
            Ok(regex) => {
                self.target = Some(regex);
                Ok(())
            },
            Err(text) => {
                let mut out = "Invalid regex: ".to_string();
                out.append(text.as_str());
                Err(out)
            },
        }
    }

    /// Adds an option.
    fn add_option(&mut self, part: &[char]) -> (result: Result<(), String>)
        ensures
            match (result, with_option(old(self)@, part@)) {
                (Ok(_), Ok(model)) => final(self)@ == model,
                (Err(text), Err(model)) => text@ == model,
                _ => false,
            },
    {
        let p: usize = text::find_char(part, '=');
        if p == part.len() {
            let mut out = "Invalid filter part: ".to_string();
            let shown = text::from_characters(part);
            out.append(shown.as_str());
            return Err(out);
        }
        let key = text::from_characters(vstd::slice::slice_subrange(part, 0, p));
        let value = vstd::slice::slice_subrange(part, p + 1, part.len());
        proof {
            text::place_is_first(part@, '=');
            assert(key@ =~= part@.take(p as int));
            assert(value@ =~= part@.skip(p + 1));
        }
        if key == "target".to_string() {
            let pattern = text::from_characters(value);
            self.set_target(pattern::compile(pattern.as_str()))
        } else if key == "min_errors".to_string() {
            match parse_count("min_errors", value) {
                Ok(n) => {
                    self.min_errors = Some(n);
                    Ok(())
                },
                Err(text) => Err(text),
            }
        } else if key == "max_errors".to_string() {
            match parse_count("max_errors", value) {
                Ok(n) => {
                    self.max_errors = Some(n);
                    Ok(())
                },
                Err(text) => Err(text),
            }
        } else if key == "min_latency".to_string() {
            match parse_latency("min_latency", value) {
                Ok(n) => {
                    self.min_latency = Some(n);
                    Ok(())
                },
                Err(text) => Err(text),
            }
        } else if key == "max_latency".to_string() {
            match parse_latency("max_latency", value) {
                Ok(n) => {
                    self.max_latency = Some(n);
                    Ok(())
                },
                Err(text) => Err(text),
            }
        } else if key == "min_interrupts".to_string() {
            match parse_count("min_interrupts", value) {
                Ok(n) => {
                    self.min_interrupts = Some(n);
                    Ok(())
                },
                Err(text) => Err(text),
            }
        } else if key == "max_interrupts".to_string() {
            match parse_count("max_interrupts", value) {
                Ok(n) => {
                    self.max_interrupts = Some(n);
                    Ok(())
                },
                Err(text) => Err(text),
            }
        } else {
            let mut out = "Unknown filter keyword: ".to_string();
            out.append(key.as_str());
            Err(out)
        }
    }

    /// Reads a filter: options with commas between them. Fails with a text that says what is wrong
    /// with the first option that cannot be read.
    pub fn from_str(s: &str) -> (result: Result<Filter, String>)
        ensures
            match (result, filter_of(s@)) {
                (Ok(filter), Ok(model)) => filter@ == model,
                (Err(text), Err(model)) => text@ == model,
                _ => false,
            },
    {
        let chars = text::characters(s);
        let all = chars.as_slice();
        let mut filter = Filter::default();
        let mut start: usize = 0;
        assert(all@.skip(0) =~= all@);
        loop
            invariant
                all@ == s@,
                start <= all.len(),
                filter_of(s@) == with_options(filter@, pieces(all@.skip(start as int), ',')),
            decreases all.len() + 1 - start,
        {
            let rest = vstd::slice::slice_subrange(all, start, all.len());
            assert(rest@ =~= all@.skip(start as int));
            let p: usize = text::find_char(rest, ',');
            let piece = vstd::slice::slice_subrange(rest, 0, p);
            let part = text::trim(piece);
            let ghost left = pieces(rest@, ',');
            proof {
                reveal_with_fuel(with_options, 2);
                text::place_is_first(rest@, ',');
                assert(piece@ =~= rest@.take(p as int));
                if p == rest.len() {
                    assert(piece@ =~= rest@);
                    assert(left.drop_first() =~= Seq::empty());
                } else {
                    assert(left.drop_first() =~= pieces(rest@.skip(p + 1), ','));
                    assert(rest@.skip(p + 1) =~= all@.skip(start + p + 1));
                }
                assert(left[0] == piece@);
            }
            if let Err(text) = filter.add_option(part) {
                return Err(text);
            }
            if p == rest.len() {
                return Ok(filter);
            }
            start = start + p + 1;
        }
    }
}

/// How many samples lie in a range, and the place after the last sample before its end. Samples
/// before the given place do not count.
pub open spec fn scanned(samples: Seq<Metrics>, from: int, range: MetricsRange) -> (int, int)
    decreases samples.len() - from,
{
    if 0 <= from < samples.len() && samples[from].ts < range.spec_end().ts {
        let (count, next) = scanned(samples, from + 1, range);
        (
            count + if samples[from].ts >= range.start.ts {
                1int
            } else {
                0
            },
            next,
        )
    } else {
        (0, from)
    }
}

/// How many samples lie in the ranges of frames, one after the other. Samples before the given
/// place do not count, nor does any sample count twice.
pub open spec fn count_in(samples: Seq<Metrics>, from: int, frames: Seq<FrameModel>) -> int
    decreases frames.len(),
{
    if frames.len() == 0 {
        0
    } else {
        let (count, next) = scanned(samples, from, frames[0].metrics);
        count + count_in(samples, next, frames.drop_first())
    }
}

/// The samples of an event of a trace; none where the trace does not have it.
pub open spec fn samples_of(trace: TraceModel, id: u32) -> Seq<Metrics> {
    match first_with_id(trace.events, id) {
        Some(event) => event.occurences,
        None => Seq::empty(),
    }
}

/// The latency of the frame is within the bounds.
pub open spec fn latency_fits(filter: FilterModel, frame: FrameModel) -> bool {
    &&& filter.min_latency matches Some(min) ==> frame.metrics.ts_incr >= min
    &&& filter.max_latency matches Some(max) ==> frame.metrics.ts_incr <= max
}

/// The count is within the bounds.
pub open spec fn count_fits(min: Option<u32>, max: Option<u32>, count: int) -> bool {
    &&& min matches Some(least) ==> least <= count
    &&& max matches Some(most) ==> count <= most
}

/// The errors and interrupts in the frame are within the bounds.
pub open spec fn counts_fit(filter: FilterModel, frame: FrameModel, trace: TraceModel) -> bool {
    &&& count_fits(
        filter.min_errors,
        filter.max_errors,
        count_in(samples_of(trace, DataCollectionError::ID), 0, seq![frame]),
    )
    &&& count_fits(
        filter.min_interrupts,
        filter.max_interrupts,
        count_in(samples_of(trace, TraceInterrupted::ID), 0, seq![frame]),
    )
}

/// The trace passes the filter as far as the given frames go: of each, the latency is within the
/// bounds, and so are the errors and interrupts in it.
pub open spec fn frames_pass(frames: Seq<FrameModel>, filter: FilterModel, trace: TraceModel) -> bool {
    forall|i: int|
        0 <= i < frames.len() ==> latency_fits(filter, #[trigger] frames[i]) && counts_fit(
            filter,
            frames[i],
            trace,
        )
}

/// The name of the symbol of a frame matches a pattern.
pub open spec fn named(pattern: Seq<char>) -> spec_fn(FrameModel) -> bool {
    |frame: FrameModel| regex_matches(pattern, frame.symbol.name)
}

/// The frames of a trace that a filter applies to.
pub open spec fn targets(root: FrameModel, target: Option<Seq<char>>) -> Seq<FrameModel> {
    match target {
        Some(pattern) => all_frames(root).filter(named(pattern)),
        None => seq![root],
    }
}

/// The trace passes the filter.
pub open spec fn passes(trace: TraceModel, filter: FilterModel) -> bool {
    frames_pass(targets(trace.root, filter.target), filter, trace)
}

/// The ranges of the trace end where samples can be held, and its events occur no more often than
/// can be counted.
pub open spec fn countable(trace: TraceModel) -> bool {
    &&& ends_fit(trace.root)
    &&& samples_of(trace, DataCollectionError::ID).len() <= u32::MAX
    &&& samples_of(trace, TraceInterrupted::ID).len() <= u32::MAX
}

pub proof fn scanned_bounds(samples: Seq<Metrics>, from: int, range: MetricsRange)
    requires
        0 <= from <= samples.len(),
    ensures
        ({
            let (count, next) = scanned(samples, from, range);
            from <= next <= samples.len() && 0 <= count <= next - from
        }),
    decreases samples.len() - from,
{
    if from < samples.len() && samples[from].ts < range.spec_end().ts {
        scanned_bounds(samples, from + 1, range);
    }
}

/// No sample counts twice.
pub proof fn count_bounds(samples: Seq<Metrics>, from: int, frames: Seq<FrameModel>)
    requires
        0 <= from <= samples.len(),
    ensures
        0 <= count_in(samples, from, frames) <= samples.len() - from,
    decreases frames.len(),
{
    if frames.len() > 0 {
        let (count, next) = scanned(samples, from, frames[0].metrics);
        scanned_bounds(samples, from, frames[0].metrics);
        count_bounds(samples, next, frames.drop_first());
    }
}

/// The sample lies in the range.
pub open spec fn in_range(range: MetricsRange) -> spec_fn(Metrics) -> bool {
    |sample: Metrics| range.start.ts <= sample.ts < range.spec_end().ts
}

/// For one frame the count is that of all samples in its range, if they are sorted by time.
pub proof fn one_frame_counts_all(samples: Seq<Metrics>, frame: FrameModel)
    requires
        sorted_by_time(samples),
    ensures
        count_in(samples, 0, seq![frame]) == samples.filter(in_range(frame.metrics)).len(),
{
    let range = frame.metrics;
    let (count, next) = scanned(samples, 0, range);
    assert(seq![frame].drop_first() =~= Seq::empty());
    reveal_with_fuel(count_in, 2);
    scan_counts_rest(samples, 0, range);
    assert(samples.skip(0) =~= samples);
}

proof fn scan_counts_rest(samples: Seq<Metrics>, from: int, range: MetricsRange)
    requires
        sorted_by_time(samples),
        0 <= from <= samples.len(),
    ensures
        scanned(samples, from, range).0 == samples.skip(from).filter(in_range(range)).len(),
    decreases samples.len() - from,
{
    let rest = samples.skip(from);
    let pred = in_range(range);
    if from < samples.len() && samples[from].ts < range.spec_end().ts {
        scan_counts_rest(samples, from + 1, range);
        assert(rest =~= seq![samples[from]] + samples.skip(from + 1));
        Seq::filter_distributes_over_add(seq![samples[from]], samples.skip(from + 1), pred);
        reveal(Seq::filter);
        none_pass(seq![samples[from]].drop_last(), pred);
        assert(seq![samples[from]].filter(pred).len() == if pred(samples[from]) {
            1nat
        } else {
            0
        });
    } else {
        assert forall|i: int| 0 <= i < rest.len() implies !pred(#[trigger] rest[i]) by {
            assert(samples[from].ts <= samples[from + i].ts);
        }
        none_pass(rest, pred);
    }
}

proof fn none_pass<T>(items: Seq<T>, pred: spec_fn(T) -> bool)
    requires
        forall|i: int| 0 <= i < items.len() ==> !pred(#[trigger] items[i]),
    ensures
        items.filter(pred) == Seq::<T>::empty(),
    decreases items.len(),
{
    reveal(Seq::filter);
    if items.len() > 0 {
        none_pass(items.drop_last(), pred);
        assert(!pred(items.last()));
    }
}

/// All traces pass the filter without options.
pub proof fn no_filter_keeps_all(trace: TraceModel)
    ensures
        passes(trace, no_filter()),
{
}

/// Counts the samples in the range, from the given place on, which moves on to the first sample
/// that is not before the end of the range.
pub fn scan_event(event: &Event, cur_index: &mut usize, metric_range: &MetricsRange) -> (result: u32)
    requires
        event@.occurences.len() <= u32::MAX,
        *old(cur_index) <= event@.occurences.len(),
        metric_range.fits(),
    ensures
        (result as int, *final(cur_index) as int) == scanned(
            event@.occurences,
            *old(cur_index) as int,
            *metric_range,
        ),
{
    let occurences = event.occurences();
    let end: u64 = metric_range.end().ts;
    let ghost first = *cur_index as int;
    let ghost samples = event@.occurences;
    let mut count: u32 = 0;
    let mut at: usize = *cur_index;
    while at < occurences.len() && occurences[at].ts < end
        invariant
            occurences@ == samples,
            samples.len() <= u32::MAX,
            0 <= first <= at <= occurences.len(),
            end == metric_range.spec_end().ts,
            count <= at - first,
            scanned(samples, first, *metric_range) == ({
                let (more, next) = scanned(samples, at as int, *metric_range);
                (count + more, next)
            }),
        decreases occurences.len() - at,
    {
        if occurences[at].ts >= metric_range.start.ts {
            count += 1;
        }
        at += 1;
    }
    *cur_index = at;
    count
}

/// The models of a list of frames.
pub open spec fn ref_models(frames: Seq<&Frame>) -> Seq<FrameModel> {
    Seq::new(frames.len(), |i: int| frames[i]@)
}

/// Counts the samples of an event in the ranges of frames, one after the other. Where the trace
/// does not have the event, there are none.
pub fn count_event(trace: &Trace, id: u32, frames: &Vec<&Frame>) -> (result: u32)
    requires
        samples_of(trace@, id).len() <= u32::MAX,
        forall|i: int| 0 <= i < frames.len() ==> (#[trigger] frames@[i])@.metrics.fits(),
    ensures
        result == count_in(samples_of(trace@, id), 0, ref_models(frames@)),
{
    let ghost samples = samples_of(trace@, id);
    let ghost models = ref_models(frames@);
    proof {
        count_bounds(samples, 0, models);
    }
    match trace.get_event(id) {
        Some(event) => {
            assert(event@.occurences == samples);
            let mut count: u32 = 0;
            let mut index: usize = 0;
            let mut i: usize = 0;
            assert(models.skip(0) =~= models);
            while i < frames.len()
                invariant
                    i <= frames.len(),
                    index <= samples.len(),
                    samples == event@.occurences,
                    samples.len() <= u32::MAX,
                    models == ref_models(frames@),
                    forall|k: int|
                        0 <= k < frames.len() ==> (#[trigger] frames@[k])@.metrics.fits(),
                    count <= index,
                    count_in(samples, 0, models) == count + count_in(
                        samples,
                        index as int,
                        models.skip(i as int),
                    ),
                decreases frames.len() - i,
            {
                proof {
                    assert(models.skip(i as int)[0] == frames@[i as int]@);
                    assert(models.skip(i as int).drop_first() =~= models.skip(i + 1));
                    scanned_bounds(samples, index as int, frames@[i as int]@.metrics);
                }
                let more: u32 = scan_event(event, &mut index, &frames[i].metrics);
                count += more;
                i += 1;
            }
            assert(models.skip(i as int) =~= Seq::empty());
            count
        },
        None => {
            proof {
                no_samples_count(models);
            }
            0
        },
    }
}

proof fn no_samples_count(frames: Seq<FrameModel>)
    ensures
        count_in(Seq::empty(), 0, frames) == 0,
    decreases frames.len(),
{
    if frames.len() > 0 {
        no_samples_count(frames.drop_first());
    }
}

/// Whether the count is within the bounds.
fn check_count(min: Option<u32>, max: Option<u32>, count: u32) -> (result: bool)
    ensures
        result == count_fits(min, max, count as int),
{
    if let Some(least) = min {
        if count < least {
            return false;
        }
    }
    if let Some(most) = max {
        if count > most {
            return false;
        }
    }
    true
}

/// Whether the latency of the frame is within the bounds.
fn check_latency(filter: &Filter, frame: &Frame) -> (result: bool)
    ensures
        result == latency_fits(filter@, frame@),
{
    let time: u64 = frame.metrics.total_time();
    if let Some(min) = filter.min_latency {
        if time < min {
            return false;
        }
    }
    if let Some(max) = filter.max_latency {
        if time > max {
            return false;
        }
    }
    true
}

/// Counts the samples of an event in the range of a frame. Where the trace does not have the event,
/// there are none.
fn count_in_frame(trace: &Trace, id: u32, frame: &Frame) -> (result: u32)
    requires
        samples_of(trace@, id).len() <= u32::MAX,
        frame@.metrics.fits(),
    ensures
        result == count_in(samples_of(trace@, id), 0, seq![frame@]),
{
    let mut frames: Vec<&Frame> = Vec::new();
    frames.push(frame);
    assert(ref_models(frames@) =~= seq![frame@]);
    count_event(trace, id, &frames)
}

/// Whether the trace passes the filter as far as the given frames go.
pub fn run_filter(frames: &Vec<&Frame>, filter: &Filter, trace: &Trace) -> (result: bool)
    requires
        countable(trace@),
        forall|i: int| 0 <= i < frames.len() ==> (#[trigger] frames@[i])@.metrics.fits(),
    ensures
        result == frames_pass(ref_models(frames@), filter@, trace@),
{
    let ghost models = ref_models(frames@);
    let mut i: usize = 0;
    while i < frames.len()
        invariant
            i <= frames.len(),
            models == ref_models(frames@),
            countable(trace@),
            forall|k: int| 0 <= k < frames.len() ==> (#[trigger] frames@[k])@.metrics.fits(),
            forall|k: int|
                0 <= k < i ==> latency_fits(filter@, #[trigger] models[k]) && counts_fit(
                    filter@,
                    models[k],
                    trace@,
                ),
        decreases frames.len() - i,
    {
        let frame = frames[i];
        assert(models[i as int] == frame@);
        if !check_latency(filter, frame) {
            return false;
        }
        let num_errors: u32 = count_in_frame(trace, DataCollectionError::ID, frame);
        if !check_count(filter.min_errors, filter.max_errors, num_errors) {
            return false;
        }
        let num_interrupts: u32 = count_in_frame(trace, TraceInterrupted::ID, frame);
        if !check_count(filter.min_interrupts, filter.max_interrupts, num_interrupts) {
            return false;
        }
        i += 1;
    }
    true
}

/// Items that don't pass add nothing to those that do.
proof fn next_that_passes<T>(items: Seq<T>, from: int, to: int, pred: spec_fn(T) -> bool)
    requires
        0 <= from <= to <= items.len(),
        forall|i: int| from <= i < to ==> !pred(#[trigger] items[i]),
    ensures
        items.take(to).filter(pred) == items.take(from).filter(pred),
    decreases to - from,
{
    reveal(Seq::filter);
    if from < to {
        next_that_passes(items, from, to - 1, pred);
        assert(items.take(to).drop_last() =~= items.take(to - 1));
        assert(items.take(to).last() == items[to - 1]);
    }
}

/// In a frame whose ranges fit, those of all frames do.
proof fn all_frames_fit(frame: FrameModel)
    requires
        ends_fit(frame),
    ensures
        forall|i: int|
            0 <= i < all_frames(frame).len() ==> (#[trigger] all_frames(frame)[i]).metrics.fits(),
    decreases frame, 0nat,
{
    all_among_fit(frame.chunks);
    let inner = finder::all_among(frame.chunks);
    assert forall|i: int| 0 <= i < all_frames(frame).len() implies (
    #[trigger] all_frames(frame)[i]).metrics.fits() by {
        if i > 0 {
            assert(all_frames(frame)[i] == inner[i - 1]);
        }
    }
}

proof fn all_among_fit(chunks: Seq<frame::StoredModel>)
    requires
        forall|i: int|
            0 <= i < chunks.len() ==> match #[trigger] chunks[i] {
                frame::StoredModel::Frame(child) => ends_fit(child),
                frame::StoredModel::Pause(pause) => pause.fits(),
            },
    ensures
        forall|i: int|
            0 <= i < finder::all_among(chunks).len() ==> (
            #[trigger] finder::all_among(chunks)[i]).metrics.fits(),
    decreases chunks, chunks.len(),
{
    if chunks.len() > 0 {
        let rest = chunks.drop_first();
        assert forall|i: int| 0 <= i < rest.len() implies match #[trigger] rest[i] {
            frame::StoredModel::Frame(child) => ends_fit(child),
            frame::StoredModel::Pause(pause) => pause.fits(),
        } by {
            assert(rest[i] == chunks[i + 1]);
        }
        all_among_fit(rest);
        let first: Seq<FrameModel> = match chunks[0] {
            frame::StoredModel::Frame(child) => all_frames(child),
            frame::StoredModel::Pause(_) => Seq::empty(),
        };
        if let frame::StoredModel::Frame(child) = chunks[0] {
            all_frames_fit(child);
        }
        assert forall|i: int| 0 <= i < finder::all_among(chunks).len() implies (
        #[trigger] finder::all_among(chunks)[i]).metrics.fits() by {
            if i < first.len() {
                assert(finder::all_among(chunks)[i] == first[i]);
            } else {
                assert(finder::all_among(chunks)[i] == finder::all_among(rest)[i - first.len()]);
            }
        }
    }
}

/// The name of the symbol of the frame matches.
pub open spec fn name_matches(regex: &Regex, frame: &Frame) -> bool {
    regex_matches(regex_source(*regex), frame@.symbol.name)
}

/// The frames that a filter applies to, in the order of their calls: those whose name matches, or
/// the outermost frame.
pub fn target_frames<'a>(root: &'a Frame, target: &Option<Regex>) -> (result: Vec<&'a Frame>)
    requires
        ends_fit(root@),
    ensures
        ref_models(result@) == targets(root@, source_of(*target)),
        forall|i: int| 0 <= i < result.len() ==> (#[trigger] result@[i])@.metrics.fits(),
{
    let mut result: Vec<&'a Frame> = Vec::new();
    match target {
        None => {
            result.push(root);
            assert(ref_models(result@) =~= seq![root@]);
        },
        Some(regex) => {
            let ghost pattern = regex_source(*regex);
            let ghost frames = finder::frames_in(*root);
            let ghost models = all_frames(root@);
            let ghost wanted = named(pattern);
            let pred = |frame: &Frame| -> (matches: bool)
                ensures
                    matches == name_matches(regex, frame),
                {
                    pattern::is_match(regex, frame.symbol.name.as_str())
                };
            let mut finder = FrameFinder::new(root, &pred);
            let ghost mut at: int = 0;
            let mut going = true;
            proof {
                finder::frames_in_model(*root);
                all_frames_fit(root@);
                assert(frames.skip(0) =~= frames);
                reveal(Seq::filter);
                assert(models.take(0).filter(wanted) =~= Seq::empty());
                assert(ref_models(result@) =~= Seq::empty());
            }
            while going
                invariant
                    frames == finder::frames_in(*root),
                    models == all_frames(root@),
                    models == frame_models(frames),
                    wanted == named(pattern),
                    finder.predicate() == pred,
                    forall|frame: &Frame| call_requires(pred, (frame,)),
                    forall|frame: &Frame, matches: bool|
                        #[trigger] call_ensures(pred, (frame,), matches) ==> matches
                            == regex_matches(pattern, frame@.symbol.name),
                    forall|i: int| 0 <= i < models.len() ==> (#[trigger] models[i]).metrics.fits(),
                    0 <= at <= frames.len(),
                    finder.rest() == frames.skip(at),
                    ref_models(result@) == models.take(at).filter(wanted),
                    forall|i: int| 0 <= i < result.len() ==> (#[trigger] result@[i])@.metrics.fits(),
                    !going ==> at == frames.len(),
                decreases frames.len() - at + if going {
                    1int
                } else {
                    0
                },
            {
                let ghost rest = finder.rest();
                let ghost so_far = ref_models(result@);
                match finder.next() {
                    Some(frame) => {
                        proof {
                            let k = choose|k: int|
                                {
                                    &&& 0 <= k < rest.len()
                                    &&& #[trigger] rest[k] == *frame
                                    &&& call_ensures(pred, (frame,), true)
                                    &&& finder.rest() == rest.skip(k + 1)
                                    &&& forall|j: int|
                                        0 <= j < k ==> call_ensures(
                                            pred,
                                            (&#[trigger] rest[j],),
                                            false,
                                        )
                                };
                            let next = at + k;
                            assert forall|i: int| at <= i < next implies !wanted(
                                #[trigger] models[i],
                            ) by {
                                assert(models[i] == frames[i]@);
                                assert(rest[i - at] == frames[i]);
                            }
                            next_that_passes(models, at, next, wanted);
                            assert(frames[next] == *frame);
                            assert(models[next] == frame@);
                            assert(models.take(next + 1).drop_last() =~= models.take(next));
                            assert(models.take(next + 1).last() == models[next]);
                            assert(wanted(models[next]));
                            reveal(Seq::filter);
                            assert(models.take(next + 1).filter(wanted) == so_far.push(frame@));
                            assert(finder.rest() =~= frames.skip(next + 1));
                            at = next + 1;
                        }
                        result.push(frame);
                        assert(ref_models(result@) =~= so_far.push(frame@));
                    },
                    None => {
                        proof {
                            let end = frames.len() as int;
                            assert forall|i: int| at <= i < end implies !wanted(
                                #[trigger] models[i],
                            ) by {
                                assert(models[i] == frames[i]@);
                                assert(rest[i - at] == frames[i]);
                            }
                            next_that_passes(models, at, end, wanted);
                            at = end;
                            assert(finder.rest() =~= frames.skip(at));
                        }
                        going = false;
                    },
                }
            }
            assert(models.take(at) =~= models);
        },
    }
    result
}

/// Whether an event of the trace occurs no more often than can be counted.
fn event_countable(trace: &Trace, id: u32) -> (result: bool)
    ensures
        result == (samples_of(trace@, id).len() <= u32::MAX),
{
    match trace.get_event(id) {
        Some(event) => event.occurences().len() <= u32::MAX as usize,
        None => true,
    }
}

/// Whether filters can be applied to the trace.
pub fn can_filter(trace: &Trace) -> (result: bool)
    ensures
        result == countable(trace@),
{
    trace.root_frame().ends_fit() && event_countable(trace, DataCollectionError::ID)
        && event_countable(trace, TraceInterrupted::ID)
}

/// Whether the trace passes the filter.
pub fn passes_filter(trace: &Trace, filter: &Filter) -> (result: bool)
    requires
        countable(trace@),
    ensures
        result == passes(trace@, filter@),
{
    let frames = target_frames(trace.root_frame(), &filter.target);
    run_filter(&frames, filter, trace)
}

/// The models of a list of traces.
pub open spec fn trace_models(traces: Seq<Trace>) -> Seq<TraceModel> {
    Seq::new(traces.len(), |i: int| traces[i]@)
}

/// The trace passes the filter.
pub open spec fn passing(filter: FilterModel) -> spec_fn(TraceModel) -> bool {
    |trace: TraceModel| passes(trace, filter)
}

/// For each trace, whether it passes the filter.
pub fn filter_bitmap(traces: &Vec<Trace>, filter: &Filter) -> (result: Vec<bool>)
    requires
        forall|i: int| 0 <= i < traces.len() ==> countable((#[trigger] traces@[i])@),
    ensures
        result.len() == traces.len(),
        forall|i: int| 0 <= i < traces.len() ==> #[trigger] result@[i] == passes(traces@[i]@, filter@),
{
    let mut result: Vec<bool> = Vec::new();
    let mut i: usize = 0;
    while i < traces.len()
        invariant
            i <= traces.len(),
            result.len() == i,
            forall|k: int| 0 <= k < traces.len() ==> countable((#[trigger] traces@[k])@),
            forall|k: int| 0 <= k < i ==> #[trigger] result@[k] == passes(traces@[k]@, filter@),
        decreases traces.len() - i,
    {
        assert(countable(traces@[i as int]@));
        result.push(passes_filter(&traces[i], filter));
        i += 1;
    }
    result
}

/// The traces that pass the filter, in their order.
pub fn filter_traces(traces: Vec<Trace>, filter: &Filter) -> (result: Vec<Trace>)
    requires
        forall|i: int| 0 <= i < traces.len() ==> countable((#[trigger] traces@[i])@),
    ensures
        trace_models(result@) == trace_models(traces@).filter(passing(filter@)),
{
    let ghost all = trace_models(traces@);
    let ghost pred = passing(filter@);
    let mut left = traces;
    let mut i: usize = 0;
    let ghost mut at: int = 0;
    proof {
        reveal(Seq::filter);
        assert(all.take(0).filter(pred) =~= Seq::empty());
        assert(trace_models(left@).take(0) =~= Seq::empty());
        assert(all.skip(0) =~= trace_models(left@).skip(0));
        assert forall|k: int| 0 <= k < all.len() implies countable(#[trigger] all[k]) by {
            assert(all[k] == traces@[k]@);
        }
    }
    while i < left.len()
        invariant
            i <= left.len(),
            0 <= at <= all.len(),
            pred == passing(filter@),
            forall|k: int| 0 <= k < all.len() ==> countable(#[trigger] all[k]),
            trace_models(left@).take(i as int) == all.take(at).filter(pred),
            trace_models(left@).skip(i as int) == all.skip(at),
        decreases left.len() - i,
    {
        let ghost now = trace_models(left@);
        proof {
            assert(now.skip(i as int)[0] == left@[i as int]@);
            assert(all.skip(at).len() > 0);
            assert(all.skip(at)[0] == all[at]);
            assert(all[at] == left@[i as int]@);
            assert(all.take(at + 1).drop_last() =~= all.take(at));
            assert(all.take(at + 1).last() == all[at]);
            assert(all.skip(at).drop_first() =~= all.skip(at + 1));
            reveal(Seq::filter);
        }
        if passes_filter(&left[i], filter) {
            proof {
                assert(now.take(i + 1) =~= now.take(i as int).push(now[i as int]));
                assert(now.skip(i + 1) =~= now.skip(i as int).drop_first());
            }
            i += 1;
        } else {
            let dropped = left.remove(i);
            proof {
                let after = trace_models(left@);
                assert(after.take(i as int) =~= now.take(i as int));
                assert(after.skip(i as int) =~= now.skip(i as int).drop_first());
            }
        }
        proof {
            at = at + 1;
        }
    }
    proof {
        let end = trace_models(left@);
        assert(end.skip(i as int).len() == 0);
        assert(all.skip(at).len() == 0);
        assert(all.take(at) =~= all);
        assert(end.take(i as int) =~= end);
    }
    left
}

/// All filters together keep what passes each of them, in whatever order they are applied.
pub proof fn filters_commute(traces: Seq<TraceModel>, a: FilterModel, b: FilterModel)
    ensures
        traces.filter(passing(a)).filter(passing(b)) == traces.filter(passing(b)).filter(
            passing(a),
        ),
    decreases traces.len(),
{
    reveal(Seq::filter);
    if traces.len() > 0 {
        filters_commute(traces.drop_last(), a, b);
        let last = traces.last();
        let rest = traces.drop_last();
        let by_a = rest.filter(passing(a));
        let by_b = rest.filter(passing(b));
        assert(by_a.push(last).drop_last() =~= by_a);
        assert(by_b.push(last).drop_last() =~= by_b);
        assert(by_a.push(last).last() == last);
        assert(by_b.push(last).last() == last);
    }
}

} // verus!

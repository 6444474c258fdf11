//! What filters keep, and which frames and samples they look at.
use crate::analysis::filter::{
    count_in, countable, filter_of, in_range, named, no_filter, one_frame_counts_all, passes,
    samples_of, scanned, scanned_bounds, targets, with_option, with_options, FilterModel,
};
use crate::analysis::finder::{all_among, all_frames};
use crate::analysis::histogram::{all_datapoints, datapoints, half_way, Action};
use crate::pattern::{regex_fault, regex_matches};
use crate::text::{self, decimal, number, pieces, place_of, trimmed};
use crate::trace::event::sorted_by_time;
use crate::trace::frame::{ends_fit, in_order, in_order_rest, FrameModel, StoredModel};
use crate::trace::metrics::{total, Metrics, MetricsRange};
use crate::trace::record::TraceModel;
use crate::trace::trace_error::{DataCollectionError, TraceInterrupted};
use vstd::prelude::*;

verus! {

/// The sample is not before the start of the frame, and before its end.
pub open spec fn happens_in(frame: FrameModel) -> spec_fn(Metrics) -> bool {
    |sample: Metrics|
        frame.metrics.start.ts <= sample.ts < frame.metrics.start.ts + frame.metrics.ts_incr
}

/// How many of the samples happen in the frame.
pub open spec fn happening(samples: Seq<Metrics>, frame: FrameModel) -> nat {
    samples.filter(happens_in(frame)).len()
}

proof fn samples_alike(
    samples: Seq<Metrics>,
    a: spec_fn(Metrics) -> bool,
    b: spec_fn(Metrics) -> bool,
)
    requires
        forall|i: int| 0 <= i < samples.len() ==> a(#[trigger] samples[i]) == b(samples[i]),
    ensures
        samples.filter(a) == samples.filter(b),
    decreases samples.len(),
{
    reveal(Seq::filter);
    if samples.len() > 0 {
        let rest = samples.drop_last();
        assert forall|i: int| 0 <= i < rest.len() implies a(#[trigger] rest[i]) == b(rest[i]) by {
            assert(rest[i] == samples[i]);
        }
        samples_alike(rest, a, b);
        assert(samples.last() == samples[samples.len() - 1]);
    }
}

proof fn count_is_happening(samples: Seq<Metrics>, frame: FrameModel)
    requires
        sorted_by_time(samples),
        frame.metrics.fits(),
    ensures
        count_in(samples, 0, seq![frame]) == happening(samples, frame),
{
    one_frame_counts_all(samples, frame);
    samples_alike(samples, in_range(frame.metrics), happens_in(frame));
}

/// A trace passes a filter if and only if each frame that the filter applies to keeps every bound
/// that is given, whatever the others are: it lasts no less than the least latency and no more than
/// the greatest, and no fewer errors and interrupts happen in it than the least number, and no more
/// than the greatest.
pub proof fn filter_bounds_every_target(trace: TraceModel, filter: FilterModel)
    requires
        countable(trace),
        sorted_by_time(samples_of(trace, DataCollectionError::ID)),
        sorted_by_time(samples_of(trace, TraceInterrupted::ID)),
    ensures
        passes(trace, filter) <==> forall|i: int|
            0 <= i < targets(trace.root, filter.target).len() ==> keeps_bounds(
                trace,
                filter,
                #[trigger] targets(trace.root, filter.target)[i],
            ),
{
    let frames = targets(trace.root, filter.target);
    let errors = samples_of(trace, DataCollectionError::ID);
    let interrupts = samples_of(trace, TraceInterrupted::ID);
    assert forall|i: int| 0 <= i < frames.len() implies {
        &&& (#[trigger] frames[i]).metrics.fits()
        &&& count_in(errors, 0, seq![frames[i]]) == happening(errors, frames[i])
        &&& count_in(interrupts, 0, seq![frames[i]]) == happening(interrupts, frames[i])
    } by {
        targets_are_in_tree(trace.root, filter.target, i);
        tree_fits(trace.root, frames[i]);
        count_is_happening(errors, frames[i]);
        count_is_happening(interrupts, frames[i]);
    }
}

/// The frame keeps every bound of the filter.
pub open spec fn keeps_bounds(trace: TraceModel, filter: FilterModel, frame: FrameModel) -> bool {
    let errors = happening(samples_of(trace, DataCollectionError::ID), frame);
    let interrupts = happening(samples_of(trace, TraceInterrupted::ID), frame);
    &&& filter.min_latency is Some ==> frame.metrics.ts_incr >= filter.min_latency->0
    &&& filter.max_latency is Some ==> frame.metrics.ts_incr <= filter.max_latency->0
    &&& filter.min_errors is Some ==> errors >= filter.min_errors->0
    &&& filter.max_errors is Some ==> errors <= filter.max_errors->0
    &&& filter.min_interrupts is Some ==> interrupts >= filter.min_interrupts->0
    &&& filter.max_interrupts is Some ==> interrupts <= filter.max_interrupts->0
}

/// Two filters of one target together keep what the filter with the bounds of both keeps.
pub proof fn bounds_hold_each_on_its_own(trace: TraceModel, a: FilterModel, b: FilterModel, both: FilterModel)
    requires
        a.target == both.target,
        b.target == both.target,
        countable(trace),
        sorted_by_time(samples_of(trace, DataCollectionError::ID)),
        sorted_by_time(samples_of(trace, TraceInterrupted::ID)),
        a == (FilterModel {
            max_errors: None,
            max_latency: None,
            max_interrupts: None,
            ..both
        }),
        b == (FilterModel {
            min_errors: None,
            min_latency: None,
            min_interrupts: None,
            ..both
        }),
    ensures
        passes(trace, both) <==> passes(trace, a) && passes(trace, b),
{
    filter_bounds_every_target(trace, a);
    filter_bounds_every_target(trace, b);
    filter_bounds_every_target(trace, both);
    let frames = targets(trace.root, both.target);
    assert forall|i: int| 0 <= i < frames.len() implies keeps_bounds(trace, both, #[trigger] frames[i])
        == (keeps_bounds(trace, a, frames[i]) && keeps_bounds(trace, b, frames[i])) by {}
}

/// A wider filter keeps no less: one whose bounds are no tighter.
pub proof fn wider_filter_keeps_more(trace: TraceModel, narrow: FilterModel, wide: FilterModel)
    requires
        countable(trace),
        sorted_by_time(samples_of(trace, DataCollectionError::ID)),
        sorted_by_time(samples_of(trace, TraceInterrupted::ID)),
        narrow.target == wide.target,
        wide.min_errors is Some ==> narrow.min_errors is Some && narrow.min_errors->0
            >= wide.min_errors->0,
        wide.max_errors is Some ==> narrow.max_errors is Some && narrow.max_errors->0
            <= wide.max_errors->0,
        wide.min_latency is Some ==> narrow.min_latency is Some && narrow.min_latency->0
            >= wide.min_latency->0,
        wide.max_latency is Some ==> narrow.max_latency is Some && narrow.max_latency->0
            <= wide.max_latency->0,
        wide.min_interrupts is Some ==> narrow.min_interrupts is Some && narrow.min_interrupts->0
            >= wide.min_interrupts->0,
        wide.max_interrupts is Some ==> narrow.max_interrupts is Some && narrow.max_interrupts->0
            <= wide.max_interrupts->0,
        passes(trace, narrow),
    ensures
        passes(trace, wide),
{
    filter_bounds_every_target(trace, narrow);
    filter_bounds_every_target(trace, wide);
    let frames = targets(trace.root, wide.target);
    assert forall|i: int| 0 <= i < frames.len() implies keeps_bounds(
        trace,
        wide,
        #[trigger] frames[i],
    ) by {
        assert(keeps_bounds(trace, narrow, frames[i]));
    }
}

/// The frame is the given one or one of the calls in it, at whatever depth.
pub open spec fn in_tree(root: FrameModel, frame: FrameModel) -> bool
    decreases root,
{
    frame == root || exists|i: int|
        0 <= i < root.chunks.len() && match #[trigger] root.chunks[i] {
            StoredModel::Frame(child) => in_tree(child, frame),
            StoredModel::Pause(_) => false,
        }
}

/// All frames of a frame are those of its tree.
pub proof fn all_frames_are_the_tree(root: FrameModel, frame: FrameModel)
    ensures
        all_frames(root).contains(frame) <==> in_tree(root, frame),
    decreases root, 0nat,
{
    let inner = all_among(root.chunks);
    all_among_are_the_trees(root.chunks, frame);
    let all = all_frames(root);
    assert(all[0] == root);
    assert(all.drop_first() =~= inner);
    if inner.contains(frame) {
        let k = choose|k: int| 0 <= k < inner.len() && inner[k] == frame;
        assert(all[k + 1] == frame);
    }
    if all.contains(frame) {
        let k = choose|k: int| 0 <= k < all.len() && all[k] == frame;
        if k > 0 {
            assert(inner[k - 1] == frame);
        }
    }
}

proof fn all_among_are_the_trees(chunks: Seq<StoredModel>, frame: FrameModel)
    ensures
        all_among(chunks).contains(frame) <==> exists|i: int|
            0 <= i < chunks.len() && match #[trigger] chunks[i] {
                StoredModel::Frame(child) => in_tree(child, frame),
                StoredModel::Pause(_) => false,
            },
    decreases chunks, chunks.len(),
{
    if chunks.len() > 0 {
        let rest = chunks.drop_first();
        all_among_are_the_trees(rest, frame);
        let first: Seq<FrameModel> = match chunks[0] {
            StoredModel::Frame(child) => all_frames(child),
            StoredModel::Pause(_) => Seq::empty(),
        };
        if let StoredModel::Frame(child) = chunks[0] {
            all_frames_are_the_tree(child, frame);
        }
        let behind = all_among(rest);
        let all = all_among(chunks);
        assert(all == first + behind);
        if first.contains(frame) {
            let k = choose|k: int| 0 <= k < first.len() && first[k] == frame;
            assert(all[k] == frame);
        }
        if behind.contains(frame) {
            let k = choose|k: int| 0 <= k < behind.len() && behind[k] == frame;
            assert(all[first.len() + k] == frame);
        }
        if all.contains(frame) {
            let k = choose|k: int| 0 <= k < all.len() && all[k] == frame;
            if k < first.len() {
                assert(first[k] == frame);
            } else {
                assert(behind[k - first.len()] == frame);
            }
        }
        if exists|i: int|
            0 <= i < rest.len() && match #[trigger] rest[i] {
                StoredModel::Frame(child) => in_tree(child, frame),
                StoredModel::Pause(_) => false,
            } {
            let i = choose|i: int|
                0 <= i < rest.len() && match #[trigger] rest[i] {
                    StoredModel::Frame(child) => in_tree(child, frame),
                    StoredModel::Pause(_) => false,
                };
            assert(chunks[i + 1] == rest[i]);
        }
        if exists|i: int|
            0 <= i < chunks.len() && match #[trigger] chunks[i] {
                StoredModel::Frame(child) => in_tree(child, frame),
                StoredModel::Pause(_) => false,
            } {
            let i = choose|i: int|
                0 <= i < chunks.len() && match #[trigger] chunks[i] {
                    StoredModel::Frame(child) => in_tree(child, frame),
                    StoredModel::Pause(_) => false,
                };
            if i > 0 {
                assert(rest[i - 1] == chunks[i]);
            }
        }
    }
}

/// A filter with a target applies to all frames of the trace whose name matches, and to no others;
/// one without applies to the outermost frame alone.
pub proof fn targets_are_what_matches(root: FrameModel, pattern: Seq<char>, frame: FrameModel)
    ensures
        targets(root, Some(pattern)).contains(frame) <==> in_tree(root, frame) && regex_matches(
            pattern,
            frame.symbol.name,
        ),
        targets(root, None) == seq![root],
{
    let all = all_frames(root);
    let wanted = named(pattern);
    all_frames_are_the_tree(root, frame);
    all.lemma_filter_len(wanted);
    if targets(root, Some(pattern)).contains(frame) {
        let found = targets(root, Some(pattern));
        let i = choose|i: int| 0 <= i < found.len() && found[i] == frame;
        all.lemma_filter_contains_rev(wanted, frame);
    }
    if all.contains(frame) && wanted(frame) {
        let i = choose|i: int| 0 <= i < all.len() && all[i] == frame;
        all.lemma_filter_contains(wanted, i);
    }
}

proof fn targets_are_in_tree(root: FrameModel, pattern: Option<Seq<char>>, i: int)
    requires
        0 <= i < targets(root, pattern).len(),
    ensures
        in_tree(root, targets(root, pattern)[i]),
{
    if let Some(text) = pattern {
        targets_are_what_matches(root, text, targets(root, pattern)[i]);
        assert(targets(root, pattern).contains(targets(root, pattern)[i]));
    }
}

proof fn tree_fits(root: FrameModel, frame: FrameModel)
    requires
        ends_fit(root),
        in_tree(root, frame),
    ensures
        frame.metrics.fits(),
    decreases root,
{
    if frame != root {
        let i = choose|i: int|
            0 <= i < root.chunks.len() && match #[trigger] root.chunks[i] {
                StoredModel::Frame(child) => in_tree(child, frame),
                StoredModel::Pause(_) => false,
            };
        if let StoredModel::Frame(child) = root.chunks[i] {
            tree_fits(child, frame);
        }
    }
}

/// The samples of an event are the occurences of the first event of the trace with the id; there are
/// none where no event has it.
pub proof fn samples_are_of_the_event(trace: TraceModel, id: u32, e: int)
    requires
        0 <= e <= trace.events.len(),
        forall|k: int| 0 <= k < e ==> (#[trigger] trace.events[k]).id != id,
        e < trace.events.len() ==> trace.events[e].id == id,
    ensures
        e < trace.events.len() ==> samples_of(trace, id) == trace.events[e].occurences,
        e == trace.events.len() ==> samples_of(trace, id) == Seq::<Metrics>::empty(),
    decreases trace.events.len(),
{
    if e > 0 {
        let rest = trace.events.drop_first();
        assert forall|k: int| 0 <= k < e - 1 implies (#[trigger] rest[k]).id != id by {
            assert(rest[k] == trace.events[k + 1]);
        }
        assert(trace.events[0].id != id);
        if e < trace.events.len() {
            assert(rest[e - 1] == trace.events[e]);
        }
        samples_are_of_the_event(TraceModel { events: rest, ..trace }, id, e - 1);
    }
}

/// How many samples happen in each of the frames.
pub open spec fn happening_in_each(samples: Seq<Metrics>, frames: Seq<FrameModel>) -> Seq<int> {
    Seq::new(frames.len(), |i: int| happening(samples, frames[i]) as int)
}

/// In frames one behind the other, the samples that are counted are all that happen in each of them.
pub proof fn counts_add_up(samples: Seq<Metrics>, frames: Seq<FrameModel>)
    requires
        sorted_by_time(samples),
        forall|i: int| 0 <= i < frames.len() ==> (#[trigger] frames[i]).metrics.fits(),
        forall|i: int, j: int|
            0 <= i < j < frames.len() ==> (#[trigger] frames[i]).metrics.start.ts
                + frames[i].metrics.ts_incr <= (#[trigger] frames[j]).metrics.start.ts,
    ensures
        count_in(samples, 0, frames) == total(happening_in_each(samples, frames)),
{
    if frames.len() > 0 {
        counts_add_up_from(samples, 0, frames);
    } else {
        assert(happening_in_each(samples, frames) =~= Seq::empty());
    }
}

proof fn total_from_front(values: Seq<int>)
    requires
        values.len() > 0,
    ensures
        total(values) == values[0] + total(values.drop_first()),
    decreases values.len(),
{
    if values.len() == 1 {
        assert(values.drop_last() =~= Seq::empty());
        assert(values.drop_first() =~= Seq::empty());
        reveal_with_fuel(total, 2);
    } else {
        total_from_front(values.drop_last());
        assert(values.drop_last().drop_first() =~= values.drop_first().drop_last());
        assert(values.drop_first().last() == values.last());
    }
}

proof fn counts_add_up_from(samples: Seq<Metrics>, from: int, frames: Seq<FrameModel>)
    requires
        sorted_by_time(samples),
        0 <= from <= samples.len(),
        forall|i: int| 0 <= i < frames.len() ==> (#[trigger] frames[i]).metrics.fits(),
        forall|i: int, j: int|
            0 <= i < j < frames.len() ==> (#[trigger] frames[i]).metrics.start.ts
                + frames[i].metrics.ts_incr <= (#[trigger] frames[j]).metrics.start.ts,
        forall|k: int, i: int|
            0 <= k < from && 0 <= i < frames.len() ==> (#[trigger] samples[k]).ts < (
            #[trigger] frames[i]).metrics.start.ts,
    ensures
        count_in(samples, from, frames) == total(happening_in_each(samples, frames)),
    decreases frames.len(),
{
    let each = happening_in_each(samples, frames);
    if frames.len() == 0 {
        assert(each =~= Seq::empty());
    } else {
        let first = frames[0];
        let rest = frames.drop_first();
        let (count, next) = scanned(samples, from, first.metrics);
        scanned_bounds(samples, from, first.metrics);
        scan_takes_all(samples, from, first);
        scan_stops_behind(samples, from, first);
        assert forall|i: int| 0 <= i < rest.len() implies (#[trigger] rest[i]).metrics.fits() by {
            assert(rest[i] == frames[i + 1]);
        }
        assert forall|i: int, j: int| 0 <= i < j < rest.len() implies (
        #[trigger] rest[i]).metrics.start.ts + rest[i].metrics.ts_incr <= (
        #[trigger] rest[j]).metrics.start.ts by {
            assert(rest[i] == frames[i + 1] && rest[j] == frames[j + 1]);
        }
        assert forall|k: int, i: int| 0 <= k < next && 0 <= i < rest.len() implies (
        #[trigger] samples[k]).ts < (#[trigger] rest[i]).metrics.start.ts by {
            assert(rest[i] == frames[i + 1]);
            assert(frames[0].metrics.start.ts + frames[0].metrics.ts_incr
                <= frames[i + 1].metrics.start.ts);
            if k < from {
                assert(samples[k].ts < frames[i + 1].metrics.start.ts);
            }
        }
        counts_add_up_from(samples, next, rest);
        total_from_front(each);
        assert(each.drop_first() =~= happening_in_each(samples, rest));
    }
}

proof fn scan_stops_behind(samples: Seq<Metrics>, from: int, frame: FrameModel)
    requires
        0 <= from <= samples.len(),
        frame.metrics.fits(),
    ensures
        forall|k: int|
            from <= k < scanned(samples, from, frame.metrics).1 ==> (#[trigger] samples[k]).ts
                < frame.metrics.start.ts + frame.metrics.ts_incr,
    decreases samples.len() - from,
{
    if from < samples.len() && samples[from].ts < frame.metrics.spec_end().ts {
        scan_stops_behind(samples, from + 1, frame);
    }
}

proof fn scan_takes_all(samples: Seq<Metrics>, from: int, frame: FrameModel)
    requires
        sorted_by_time(samples),
        0 <= from <= samples.len(),
        frame.metrics.fits(),
        forall|k: int| 0 <= k < from ==> (#[trigger] samples[k]).ts < frame.metrics.start.ts,
    ensures
        scanned(samples, from, frame.metrics).0 == happening(samples, frame),
    decreases from,
{
    count_is_happening(samples, frame);
    reveal_with_fuel(count_in, 2);
    assert(seq![frame].drop_first() =~= Seq::empty());
    if from > 0 {
        scan_takes_all(samples, from - 1, frame);
        let before = samples[from - 1];
        assert(before.ts < frame.metrics.start.ts);
        assert(scanned(samples, from - 1, frame.metrics).0 == scanned(
            samples,
            from,
            frame.metrics,
        ).0);
    }
}

/// The datapoints of a trace: for latencies, one for each frame, in order; for errors and
/// interrupts, one, and for a single frame it is how many of them happen in it.
pub proof fn datapoints_of_frames(trace: TraceModel, frames: Seq<FrameModel>, frame: FrameModel)
    requires
        countable(trace),
        frame.metrics.fits(),
        sorted_by_time(samples_of(trace, DataCollectionError::ID)),
        sorted_by_time(samples_of(trace, TraceInterrupted::ID)),
    ensures
        datapoints(trace, frames, Action::Latency).len() == frames.len(),
        forall|i: int|
            0 <= i < frames.len() ==> #[trigger] datapoints(trace, frames, Action::Latency)[i]
                == frames[i].metrics.ts_incr,
        datapoints(trace, seq![frame], Action::Errors).len() == 1,
        datapoints(trace, seq![frame], Action::Errors)[0] == happening(
            samples_of(trace, DataCollectionError::ID),
            frame,
        ),
        datapoints(trace, seq![frame], Action::Interrupts).len() == 1,
        datapoints(trace, seq![frame], Action::Interrupts)[0] == happening(
            samples_of(trace, TraceInterrupted::ID),
            frame,
        ),
{
    let errors = samples_of(trace, DataCollectionError::ID);
    let interrupts = samples_of(trace, TraceInterrupted::ID);
    count_is_happening(errors, frame);
    count_is_happening(interrupts, frame);
    errors.lemma_filter_len(happens_in(frame));
    interrupts.lemma_filter_len(happens_in(frame));
}

/// The datapoints of more traces begin with those of fewer, and go on with those of the others.
pub proof fn datapoints_of_more_traces(
    a: Seq<TraceModel>,
    b: Seq<TraceModel>,
    pattern: Option<Seq<char>>,
    action: Action,
)
    ensures
        all_datapoints(a + b, pattern, action) == all_datapoints(a, pattern, action)
            + all_datapoints(b, pattern, action),
    decreases b.len(),
{
    if b.len() == 0 {
        assert(a + b =~= a);
        assert(all_datapoints(a, pattern, action) + all_datapoints(b, pattern, action)
            =~= all_datapoints(a, pattern, action));
    } else {
        assert((a + b).drop_last() =~= a + b.drop_last());
        datapoints_of_more_traces(a, b.drop_last(), pattern, action);
        assert(all_datapoints(a + b, pattern, action) =~= all_datapoints(a, pattern, action)
            + all_datapoints(b, pattern, action));
    }
}

/// The datapoints of one trace are those of the frames that are looked at.
pub proof fn datapoints_of_one_trace(trace: TraceModel, pattern: Option<Seq<char>>, action: Action)
    ensures
        all_datapoints(seq![trace], pattern, action) == datapoints(
            trace,
            targets(trace.root, pattern),
            action,
        ),
{
    reveal_with_fuel(all_datapoints, 2);
    assert(seq![trace].drop_last() =~= Seq::empty());
    assert(all_datapoints(seq![trace], pattern, action) =~= datapoints(
        trace,
        targets(trace.root, pattern),
        action,
    ));
}

/// What lies half way between two numbers is shown with one decimal place: none left over where
/// their sum is even, a half where it is odd.
pub proof fn half_way_is_half_the_sum(a: u32, b: u32, whole: nat)
    ensures
        a + b == 2 * whole ==> half_way((a, b)) == decimal(whole) + ".0"@,
        a + b == 2 * whole + 1 ==> half_way((a, b)) == decimal(whole) + ".5"@,
{
}

proof fn option_parts(keyword: Seq<char>, value: Seq<char>)
    requires
        forall|i: int| 0 <= i < keyword.len() ==> #[trigger] keyword[i] != '=',
    ensures
        ({
            let part = keyword.push('=') + value;
            &&& place_of(part, '=') == keyword.len()
            &&& part.take(place_of(part, '=')) == keyword
            &&& part.skip(place_of(part, '=') + 1) == value
            &&& part.len() > keyword.len()
        }),
{
    let part = keyword.push('=') + value;
    text::place_is_first(part, '=');
    let p = place_of(part, '=');
    assert(part[keyword.len() as int] == '=');
    if p < keyword.len() {
        assert(part[p] == keyword[p]);
    }
    assert(part.take(p) =~= keyword);
    assert(part.skip(p + 1) =~= value);
}

/// An option sets the bound that it names, to the number that it gives, and leaves all others as
/// they are. Latencies are given in microseconds.
pub proof fn options_set_their_bound(filter: FilterModel, n: nat)
    requires
        n <= u32::MAX,
    ensures
        with_option(filter, "min_errors"@.push('=') + decimal(n)) == Ok::<FilterModel, Seq<char>>(
            FilterModel { min_errors: Some(n as u32), ..filter },
        ),
        with_option(filter, "max_errors"@.push('=') + decimal(n)) == Ok::<FilterModel, Seq<char>>(
            FilterModel { max_errors: Some(n as u32), ..filter },
        ),
        with_option(filter, "min_interrupts"@.push('=') + decimal(n)) == Ok::<
            FilterModel,
            Seq<char>,
        >(FilterModel { min_interrupts: Some(n as u32), ..filter }),
        with_option(filter, "max_interrupts"@.push('=') + decimal(n)) == Ok::<
            FilterModel,
            Seq<char>,
        >(FilterModel { max_interrupts: Some(n as u32), ..filter }),
        with_option(filter, "min_latency"@.push('=') + decimal(n)) == Ok::<FilterModel, Seq<char>>(
            FilterModel { min_latency: Some((1000 * n) as u64), ..filter },
        ),
        with_option(filter, "max_latency"@.push('=') + decimal(n)) == Ok::<FilterModel, Seq<char>>(
            FilterModel { max_latency: Some((1000 * n) as u64), ..filter },
        ),
{
    reveal_strlit("target");
    reveal_strlit("min_errors");
    reveal_strlit("max_errors");
    reveal_strlit("min_latency");
    reveal_strlit("max_latency");
    reveal_strlit("min_interrupts");
    reveal_strlit("max_interrupts");
    text::number_of_decimal(n, u32::MAX as nat);
    text::number_of_decimal(n, u64::MAX as nat);
    option_parts("min_errors"@, decimal(n));
    option_parts("max_errors"@, decimal(n));
    option_parts("min_latency"@, decimal(n));
    option_parts("max_latency"@, decimal(n));
    option_parts("min_interrupts"@, decimal(n));
    option_parts("max_interrupts"@, decimal(n));
    assert("target"@.len() == 6);
    assert("min_errors"@.len() == 10 && "max_errors"@.len() == 10);
    assert("min_latency"@.len() == 11 && "max_latency"@.len() == 11);
    assert("min_interrupts"@.len() == 14 && "max_interrupts"@.len() == 14);
    assert("min_errors"@[1] == 'i' && "max_errors"@[1] == 'a');
    assert("min_latency"@[1] == 'i' && "max_latency"@[1] == 'a');
    assert("min_interrupts"@[1] == 'i' && "max_interrupts"@[1] == 'a');
}

/// An option with a bound sets that bound, whatever the value, to the number that the value stands
/// for; it is refused if the value stands for none that can be held. Counts are of thirty-two bits,
/// latencies are given in microseconds and kept in nanoseconds, of sixty-four bits.
pub proof fn bounds_are_read_as_numbers(filter: FilterModel, value: Seq<char>)
    ensures
        ({
            let count = number(value, u32::MAX as nat);
            let time = number(value, u64::MAX as nat);
            &&& match with_option(filter, "min_errors"@.push('=') + value) {
                Ok(after) => count matches Ok(n) && after == (FilterModel {
                    min_errors: Some(n as u32),
                    ..filter
                }),
                Err(text) => count matches Err(fault) && text == "Invalid number for "@
                    + "min_errors"@ + ": "@ + fault.text(),
            }
            &&& match with_option(filter, "max_errors"@.push('=') + value) {
                Ok(after) => count matches Ok(n) && after == (FilterModel {
                    max_errors: Some(n as u32),
                    ..filter
                }),
                Err(text) => count matches Err(fault) && text == "Invalid number for "@
                    + "max_errors"@ + ": "@ + fault.text(),
            }
            &&& match with_option(filter, "min_interrupts"@.push('=') + value) {
                Ok(after) => count matches Ok(n) && after == (FilterModel {
                    min_interrupts: Some(n as u32),
                    ..filter
                }),
                Err(text) => count matches Err(fault) && text == "Invalid number for "@
                    + "min_interrupts"@ + ": "@ + fault.text(),
            }
            &&& match with_option(filter, "max_interrupts"@.push('=') + value) {
                Ok(after) => count matches Ok(n) && after == (FilterModel {
                    max_interrupts: Some(n as u32),
                    ..filter
                }),
                Err(text) => count matches Err(fault) && text == "Invalid number for "@
                    + "max_interrupts"@ + ": "@ + fault.text(),
            }
            &&& match with_option(filter, "min_latency"@.push('=') + value) {
                Ok(after) => time matches Ok(n) && after.min_latency matches Some(bound) && bound
                    == 1000 * n && after == (FilterModel { min_latency: Some(bound), ..filter }),
                Err(_) => time matches Ok(n) ==> 1000 * n > u64::MAX,
            }
            &&& match with_option(filter, "max_latency"@.push('=') + value) {
                Ok(after) => time matches Ok(n) && after.max_latency matches Some(bound) && bound
                    == 1000 * n && after == (FilterModel { max_latency: Some(bound), ..filter }),
                Err(_) => time matches Ok(n) ==> 1000 * n > u64::MAX,
            }
        }),
{
    reveal_strlit("target");
    reveal_strlit("min_errors");
    reveal_strlit("max_errors");
    reveal_strlit("min_latency");
    reveal_strlit("max_latency");
    reveal_strlit("min_interrupts");
    reveal_strlit("max_interrupts");
    option_parts("min_errors"@, value);
    option_parts("max_errors"@, value);
    option_parts("min_latency"@, value);
    option_parts("max_latency"@, value);
    option_parts("min_interrupts"@, value);
    option_parts("max_interrupts"@, value);
    assert("target"@.len() == 6);
    assert("min_errors"@.len() == 10 && "max_errors"@.len() == 10);
    assert("min_latency"@.len() == 11 && "max_latency"@.len() == 11);
    assert("min_interrupts"@.len() == 14 && "max_interrupts"@.len() == 14);
    assert("min_errors"@[1] == 'i' && "max_errors"@[1] == 'a');
    assert("min_latency"@[1] == 'i' && "max_latency"@[1] == 'a');
    assert("min_interrupts"@[1] == 'i' && "max_interrupts"@[1] == 'a');
}

/// The target is set to any pattern that compiles, all else stays as it is.
pub proof fn target_option_sets_pattern(filter: FilterModel, pattern: Seq<char>)
    requires
        regex_fault(pattern) is None,
    ensures
        with_option(filter, "target"@.push('=') + pattern) == Ok::<FilterModel, Seq<char>>(
            FilterModel { target: Some(pattern), ..filter },
        ),
{
    reveal_strlit("target");
    option_parts("target"@, pattern);
}

/// Without options, every trace passes.
pub proof fn no_filter_keeps_all(trace: TraceModel)
    ensures
        passes(trace, no_filter()),
{
}

/// Options take effect one after the other: those of two lists, put together, do what the second
/// does to what the first has made. The first error is what is told.
pub proof fn options_take_effect_in_turn(
    filter: FilterModel,
    a: Seq<Seq<char>>,
    b: Seq<Seq<char>>,
    part: Seq<char>,
)
    ensures
        with_options(filter, a + b) == (match with_options(filter, a) {
            Ok(next) => with_options(next, b),
            Err(text) => Err(text),
        }),
        with_options(filter, seq![part]) == with_option(filter, trimmed(part)),
        with_options(filter, Seq::empty()) == Ok::<FilterModel, Seq<char>>(filter),
    decreases a.len(),
{
    reveal_with_fuel(with_options, 2);
    assert(seq![part].drop_first() =~= Seq::empty());
    if a.len() == 0 {
        assert(a + b =~= b);
    } else {
        assert((a + b).drop_first() =~= a.drop_first() + b);
        if let Ok(next) = with_option(filter, trimmed(a[0])) {
            options_take_effect_in_turn(next, a.drop_first(), b, part);
        }
    }
}

/// A text stands for a filter by its options, which commas part; where there is no comma, it is one
/// option.
pub proof fn commas_part_options(s: Seq<char>, rest: Seq<char>)
    requires
        !s.contains(','),
    ensures
        filter_of(s) == with_option(no_filter(), trimmed(s)),
        filter_of(s.push(',') + rest) == (match filter_of(s) {
            Ok(next) => with_options(next, pieces(rest, ',')),
            Err(text) => Err(text),
        }),
{
    text::place_is_first(s, ',');
    let p = place_of(s, ',');
    if p < s.len() {
        assert(s.contains(s[p]));
    }
    assert(pieces(s, ',') =~= seq![s]);
    options_take_effect_in_turn(no_filter(), seq![s], pieces(rest, ','), s);
    let whole = s.push(',') + rest;
    text::place_is_first(whole, ',');
    let q = place_of(whole, ',');
    assert(whole[s.len() as int] == ',');
    if q < s.len() {
        assert(whole[q] == s[q]);
        assert(s.contains(s[q]));
    }
    assert(whole.take(q) =~= s);
    assert(whole.skip(q + 1) =~= rest);
    assert(pieces(whole, ',') =~= seq![s] + pieces(rest, ','));
}

/// An option is refused if it has no equals sign, if its keyword is none of those that there are, or
/// if its value is no number that can be held.
pub proof fn options_are_refused(filter: FilterModel, keyword: Seq<char>, value: Seq<char>)
    requires
        forall|i: int| 0 <= i < keyword.len() ==> #[trigger] keyword[i] != '=',
    ensures
        with_option(filter, keyword) is Err,
        keyword != "target"@ && keyword != "min_errors"@ && keyword != "max_errors"@ && keyword
            != "min_latency"@ && keyword != "max_latency"@ && keyword != "min_interrupts"@
            && keyword != "max_interrupts"@ ==> with_option(filter, keyword.push('=') + value)
            == Err::<FilterModel, Seq<char>>("Unknown filter keyword: "@ + keyword),
        keyword != "target"@ && number(value, u64::MAX as nat) is Err ==> with_option(
            filter,
            keyword.push('=') + value,
        ) is Err,
        keyword == "target"@ && regex_fault(value) is Some ==> with_option(
            filter,
            keyword.push('=') + value,
        ) is Err,
{
    option_parts(keyword, value);
    text::place_is_first(keyword, '=');
    let p = place_of(keyword, '=');
    if p < keyword.len() {
        assert(keyword[p] == '=');
    }
    if number(value, u64::MAX as nat) is Err {
        assert(number(value, u32::MAX as nat) is Err);
    }
}

/// How many frames there are in the tree of a frame.
pub open spec fn tree_size(frame: FrameModel) -> nat
    decreases frame, 0nat,
{
    1 + size_among(frame.chunks)
}

/// How many frames there are in the trees of chunks.
pub open spec fn size_among(chunks: Seq<StoredModel>) -> nat
    decreases chunks, chunks.len(),
{
    if chunks.len() == 0 {
        0
    } else {
        size_among(chunks.drop_last()) + match chunks.last() {
            StoredModel::Frame(child) => tree_size(child),
            StoredModel::Pause(_) => 0,
        }
    }
}

proof fn size_among_joined(a: Seq<StoredModel>, b: Seq<StoredModel>)
    ensures
        size_among(a + b) == size_among(a) + size_among(b),
    decreases b.len(),
{
    if b.len() == 0 {
        assert(a + b =~= a);
    } else {
        assert((a + b).drop_last() =~= a + b.drop_last());
        assert((a + b).last() == b.last());
        size_among_joined(a, b.drop_last());
    }
}

/// All frames of a frame are as many as there are in its tree; the frame itself comes first.
pub proof fn all_frames_are_counted(frame: FrameModel)
    ensures
        all_frames(frame).len() == tree_size(frame),
        all_frames(frame)[0] == frame,
    decreases frame, 0nat,
{
    reveal_with_fuel(tree_size, 2);
    all_among_are_counted(frame.chunks);
}

proof fn all_among_are_counted(chunks: Seq<StoredModel>)
    ensures
        all_among(chunks).len() == size_among(chunks),
    decreases chunks, chunks.len(),
{
    reveal_with_fuel(size_among, 2);
    if chunks.len() > 0 {
        let rest = chunks.drop_first();
        all_among_are_counted(rest);
        if let StoredModel::Frame(child) = chunks[0] {
            all_frames_are_counted(child);
        }
        assert(chunks =~= seq![chunks[0]] + rest);
        size_among_joined(seq![chunks[0]], rest);
        assert(seq![chunks[0]].drop_last() =~= Seq::empty());
    }
}

/// The frames stand in the order in which they start.
pub open spec fn by_start(frames: Seq<FrameModel>, from: u64, to: u64) -> bool {
    &&& forall|i: int|
        0 <= i < frames.len() ==> from <= (#[trigger] frames[i]).metrics.start.ts
            && frames[i].metrics.start.ts <= to
    &&& forall|i: int, j: int|
        0 <= i < j < frames.len() ==> (#[trigger] frames[i]).metrics.start.ts <= (
        #[trigger] frames[j]).metrics.start.ts
}

proof fn by_start_joined(a: Seq<FrameModel>, b: Seq<FrameModel>, from: u64, mid: u64, to: u64)
    requires
        from <= mid <= to,
        by_start(a, from, mid),
        by_start(b, mid, to),
    ensures
        by_start(a + b, from, to),
{
    let all = a + b;
    assert forall|i: int| 0 <= i < all.len() implies from <= (#[trigger] all[i]).metrics.start.ts
        && all[i].metrics.start.ts <= to by {
        if i < a.len() {
            assert(all[i] == a[i]);
        } else {
            assert(all[i] == b[i - a.len()]);
        }
    }
    assert forall|i: int, j: int| 0 <= i < j < all.len() implies (
    #[trigger] all[i]).metrics.start.ts <= (#[trigger] all[j]).metrics.start.ts by {
        if j < a.len() {
            assert(all[i] == a[i] && all[j] == a[j]);
        } else if i >= a.len() {
            assert(all[i] == b[i - a.len()] && all[j] == b[j - a.len()]);
        } else {
            assert(all[i] == a[i] && all[j] == b[j - a.len()]);
        }
    }
}

/// All frames of a frame that is ordered in depth are found in the order in which they start.
pub proof fn all_frames_come_in_order(frame: FrameModel)
    requires
        frame.deeply_ordered(),
    ensures
        by_start(all_frames(frame), frame.metrics.start.ts, frame.metrics.spec_end().ts),
    decreases frame, 0nat,
{
    let (from, to) = (frame.metrics.start.ts, frame.metrics.spec_end().ts);
    all_among_come_in_order(frame.metrics, frame.chunks);
    by_start_joined(seq![frame], all_among(frame.chunks), from, from, to);
}

proof fn all_among_come_in_order(range: MetricsRange, chunks: Seq<StoredModel>)
    requires
        in_order(range, chunks),
        forall|i: int|
            0 <= i < chunks.len() ==> match #[trigger] chunks[i] {
                StoredModel::Frame(child) => child.deeply_ordered(),
                StoredModel::Pause(_) => true,
            },
    ensures
        by_start(all_among(chunks), range.start.ts, range.spec_end().ts),
    decreases chunks, chunks.len(),
{
    if chunks.len() > 0 {
        let place = chunks[0].range();
        let first: Seq<FrameModel> = match chunks[0] {
            StoredModel::Frame(child) => all_frames(child),
            StoredModel::Pause(_) => Seq::empty(),
        };
        if let StoredModel::Frame(child) = chunks[0] {
            all_frames_come_in_order(child);
        }
        assert(range.includes(place));
        assert(by_start(first, range.start.ts, place.spec_end().ts));
        in_order_rest(range, chunks);
        let left = chunks.drop_first();
        assert forall|i: int| 0 <= i < left.len() implies match #[trigger] left[i] {
            StoredModel::Frame(child) => child.deeply_ordered(),
            StoredModel::Pause(_) => true,
        } by {
            assert(left[i] == chunks[i + 1]);
        }
        let rest = MetricsRange::between(place.spec_end(), range.spec_end());
        all_among_come_in_order(rest, left);
        by_start_joined(
            first,
            all_among(left),
            range.start.ts,
            place.spec_end().ts,
            range.spec_end().ts,
        );
    }
}

} // verus!

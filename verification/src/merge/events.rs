//! Merging of the events of several traces.
use crate::trace::event::{self, first_with_id, sorted_by_time, Event, EventModel};
use crate::trace::metrics::{Metrics, MetricsRange};
use crate::trace::record::{Trace, TraceModel};
use vstd::multiset::Multiset;
use vstd::prelude::*;

verus! {

/// A counter in the first range carried over to the second, in proportion.
pub open spec fn carried(value: u64, start: u64, length: u32, new_start: u64, new_length: u32) -> int {
    new_length * (value - start) / (length as int) + new_start
}

/// A sample of a range carried over to another range, in proportion.
pub open spec fn scaled(sample: Metrics, from: MetricsRange, to: MetricsRange) -> Metrics {
    Metrics::of(
        carried(sample.ts, from.start.ts, from.ts_incr, to.start.ts, to.ts_incr),
        carried(
            sample.cycles,
            from.start.cycles,
            from.cycles_incr,
            to.start.cycles,
            to.cycles_incr,
        ),
        carried(
            sample.insn_count,
            from.start.insn_count,
            from.insn_incr,
            to.start.insn_count,
            to.insn_incr,
        ),
    )
}

/// A sample can be carried over: it is not before the range, the range is not empty in any
/// counter, and what comes out can be held.
pub open spec fn scales(sample: Metrics, from: MetricsRange, to: MetricsRange) -> bool {
    &&& from.start.le_all(sample)
    &&& from.ts_incr > 0 && from.cycles_incr > 0 && from.insn_incr > 0
    &&& Metrics::fit(
        carried(sample.ts, from.start.ts, from.ts_incr, to.start.ts, to.ts_incr),
        carried(
            sample.cycles,
            from.start.cycles,
            from.cycles_incr,
            to.start.cycles,
            to.cycles_incr,
        ),
        carried(
            sample.insn_count,
            from.start.insn_count,
            from.insn_incr,
            to.start.insn_count,
            to.insn_incr,
        ),
    )
}

pub open spec fn all_scaled(samples: Seq<Metrics>, from: MetricsRange, to: MetricsRange) -> Seq<
    Metrics,
> {
    Seq::new(samples.len(), |i: int| scaled(samples[i], from, to))
}

/// The occurences of an event can be carried over.
pub open spec fn event_scales(event: EventModel, from: MetricsRange, to: MetricsRange) -> bool {
    &&& sorted_by_time(event.occurences)
    &&& forall|i: int|
        0 <= i < event.occurences.len() ==> scales(#[trigger] event.occurences[i], from, to)
}

/// The occurences of the events with the id, of each trace that has one, carried over.
pub open spec fn scaled_lists(traces: Seq<TraceModel>, id: u32, to: MetricsRange) -> Seq<Seq<Metrics>>
    decreases traces.len(),
{
    if traces.len() == 0 {
        Seq::empty()
    } else {
        let shorter = scaled_lists(traces.drop_last(), id, to);
        match first_with_id(traces.last().events, id) {
            Some(event) => shorter.push(
                all_scaled(event.occurences, traces.last().root.metrics, to),
            ),
            None => shorter,
        }
    }
}

/// The number of samples that are left in the lists from the given places on.
pub open spec fn left_in(lists: Seq<Seq<Metrics>>, at: Seq<int>, upto: int) -> int
    decreases upto,
{
    if upto <= 0 {
        0
    } else {
        left_in(lists, at, upto - 1) + if at[upto - 1] < lists[upto - 1].len() {
            lists[upto - 1].len() - at[upto - 1]
        } else {
            0
        }
    }
}

/// Which of the first `upto` lists has the earliest next sample; the first of those with the same
/// time.
pub open spec fn earliest(lists: Seq<Seq<Metrics>>, at: Seq<int>, upto: int) -> Option<int>
    decreases upto,
{
    if upto <= 0 {
        None
    } else {
        let before = earliest(lists, at, upto - 1);
        let here = upto - 1;
        if at[here] >= lists[here].len() {
            before
        } else {
            match before {
                Some(k) => if lists[here][at[here]].ts < lists[k][at[k]].ts {
                    Some(here)
                } else {
                    Some(k)
                },
                None => Some(here),
            }
        }
    }
}

/// The samples of the lists from the given places on, always the earliest next one first.
pub open spec fn zipped(lists: Seq<Seq<Metrics>>, at: Seq<int>) -> Seq<Metrics>
    decreases left_in(lists, at, lists.len() as int),
{
    match earliest(lists, at, lists.len() as int) {
        Some(k) if at.len() == lists.len() => {
            proof {
                less_is_left(lists, at, k);
            }
            seq![lists[k][at[k]]] + zipped(lists, at.update(k, at[k] + 1))
        },
        _ => Seq::empty(),
    }
}

/// Before the first sample of each list.
pub open spec fn at_start(lists: Seq<Seq<Metrics>>) -> Seq<int> {
    Seq::new(lists.len(), |k: int| 0)
}

/// The event of the merged trace that stands for the events with the id of the given one.
pub open spec fn merged_event(traces: Seq<TraceModel>, event: EventModel, to: MetricsRange) -> EventModel {
    let lists = scaled_lists(traces, event.id, to);
    EventModel { occurences: zipped(lists, at_start(lists)), ..event }
}

/// An event with the id is among the events.
pub open spec fn has_id(events: Seq<EventModel>, id: u32) -> bool {
    exists|i: int| 0 <= i < events.len() && (#[trigger] events[i]).id == id
}

/// The events of all traces, one after the other.
pub open spec fn events_in_turn(traces: Seq<TraceModel>) -> Seq<EventModel>
    decreases traces.len(),
{
    if traces.len() == 0 {
        Seq::empty()
    } else {
        events_in_turn(traces.drop_last()) + traces.last().events
    }
}

/// The merged events for the given ones: one for each id, in the order in which ids come up.
pub open spec fn merged_events_for(
    traces: Seq<TraceModel>,
    events: Seq<EventModel>,
    to: MetricsRange,
) -> Seq<EventModel>
    decreases events.len(),
{
    if events.len() == 0 {
        Seq::empty()
    } else {
        let shorter = merged_events_for(traces, events.drop_last(), to);
        if has_id(shorter, events.last().id) {
            shorter
        } else {
            shorter.push(merged_event(traces, events.last(), to))
        }
    }
}

/// The merged events of the traces.
pub open spec fn merged_events(traces: Seq<TraceModel>, to: MetricsRange) -> Seq<EventModel> {
    merged_events_for(traces, events_in_turn(traces), to)
}

/// The events that are merged can be carried over.
pub open spec fn events_scale(traces: Seq<TraceModel>, to: MetricsRange) -> bool {
    forall|t: int, id: u32|
        0 <= t < traces.len() ==> match #[trigger] first_with_id(traces[t].events, id) {
            Some(event) => event_scales(event, traces[t].root.metrics, to),
            None => true,
        }
}

/// What `earliest` finds.
proof fn earliest_is_earliest(lists: Seq<Seq<Metrics>>, at: Seq<int>, upto: int)
    requires
        0 <= upto <= lists.len(),
    ensures
        match earliest(lists, at, upto) {
            Some(k) => {
                &&& 0 <= k < upto
                &&& at[k] < lists[k].len()
                &&& forall|j: int|
                    0 <= j < upto && #[trigger] at[j] < lists[j].len() ==> lists[k][at[k]].ts
                        <= lists[j][at[j]].ts
            },
            None => forall|j: int| 0 <= j < upto ==> #[trigger] at[j] >= lists[j].len(),
        },
    decreases upto,
{
    if upto > 0 {
        earliest_is_earliest(lists, at, upto - 1);
    }
}

proof fn left_without(lists: Seq<Seq<Metrics>>, at: Seq<int>, k: int, upto: int)
    requires
        0 <= k < at.len(),
        at.len() == lists.len(),
        0 <= upto <= lists.len(),
        at[k] < lists[k].len(),
    ensures
        left_in(lists, at.update(k, at[k] + 1), upto) == left_in(lists, at, upto) - if k < upto {
            1int
        } else {
            0int
        },
        left_in(lists, at, upto) >= 0,
    decreases upto,
{
    if upto > 0 {
        left_without(lists, at, k, upto - 1);
    }
}

/// Taking the earliest sample leaves less.
pub proof fn less_is_left(lists: Seq<Seq<Metrics>>, at: Seq<int>, k: int)
    requires
        at.len() == lists.len(),
        earliest(lists, at, lists.len() as int) == Some(k),
    ensures
        0 <= left_in(lists, at.update(k, at[k] + 1), lists.len() as int) < left_in(
            lists,
            at,
            lists.len() as int,
        ),
{
    earliest_is_earliest(lists, at, lists.len() as int);
    left_without(lists, at, k, lists.len() as int);
    let moved = at.update(k, at[k] + 1);
    left_not_negative(lists, moved, lists.len() as int);
}

proof fn left_not_negative(lists: Seq<Seq<Metrics>>, at: Seq<int>, upto: int)
    ensures
        0 <= left_in(lists, at, upto),
    decreases upto,
{
    if upto > 0 {
        left_not_negative(lists, at, upto - 1);
    }
}

/// The samples left of a list.
pub open spec fn rest_of(lists: Seq<Seq<Metrics>>, at: Seq<int>, k: int) -> Seq<Metrics> {
    lists[k].skip(at[k])
}

/// The samples left in the lists, as a multiset.
pub open spec fn samples_left(lists: Seq<Seq<Metrics>>, at: Seq<int>, upto: int) -> Multiset<Metrics>
    decreases upto,
{
    if upto <= 0 {
        Multiset::empty()
    } else {
        samples_left(lists, at, upto - 1).add(rest_of(lists, at, upto - 1).to_multiset())
    }
}

proof fn samples_without(lists: Seq<Seq<Metrics>>, at: Seq<int>, k: int, upto: int)
    requires
        at.len() == lists.len(),
        0 <= k < lists.len(),
        0 <= at[k] < lists[k].len(),
        0 <= upto <= lists.len(),
    ensures
        samples_left(lists, at, upto) == if k < upto {
            samples_left(lists, at.update(k, at[k] + 1), upto).insert(lists[k][at[k]])
        } else {
            samples_left(lists, at.update(k, at[k] + 1), upto)
        },
    decreases upto,
{
    let moved = at.update(k, at[k] + 1);
    if upto > 0 {
        samples_without(lists, at, k, upto - 1);
        if upto - 1 == k {
            let rest = rest_of(lists, at, k);
            assert(rest.remove(0) =~= rest_of(lists, moved, k));
            rest.to_multiset_ensures();
            assert(rest[0] == lists[k][at[k]]);
            assert(rest.to_multiset() =~= rest_of(lists, moved, k).to_multiset().insert(rest[0]));
            assert(samples_left(lists, at, upto) =~= samples_left(lists, moved, upto).insert(
                rest[0],
            ));
        } else if k < upto {
            assert(rest_of(lists, moved, upto - 1) == rest_of(lists, at, upto - 1));
            assert(samples_left(lists, at, upto) =~= samples_left(lists, moved, upto).insert(
                lists[k][at[k]],
            ));
        }
    }
}

/// No sample that is left is earlier.
spec fn none_earlier(lists: Seq<Seq<Metrics>>, at: Seq<int>, ts: int) -> bool {
    forall|k: int, i: int|
        0 <= k < lists.len() && at[k] <= i < lists[k].len() ==> (#[trigger] lists[k][i]).ts >= ts
}

spec fn places_in(lists: Seq<Seq<Metrics>>, at: Seq<int>) -> bool {
    &&& at.len() == lists.len()
    &&& forall|k: int| 0 <= k < lists.len() ==> 0 <= #[trigger] at[k] <= lists[k].len()
}

spec fn all_sorted(lists: Seq<Seq<Metrics>>) -> bool {
    forall|k: int| 0 <= k < lists.len() ==> sorted_by_time(#[trigger] lists[k])
}

proof fn zipped_sorts(lists: Seq<Seq<Metrics>>, at: Seq<int>, ts: int)
    requires
        places_in(lists, at),
        all_sorted(lists),
        none_earlier(lists, at, ts),
    ensures
        sorted_by_time(zipped(lists, at)),
        forall|i: int| 0 <= i < zipped(lists, at).len() ==> (#[trigger] zipped(lists, at)[i]).ts >= ts,
        zipped(lists, at).to_multiset() == samples_left(lists, at, lists.len() as int),
    decreases left_in(lists, at, lists.len() as int),
{
    let n = lists.len() as int;
    earliest_is_earliest(lists, at, n);
    match earliest(lists, at, n) {
        Some(k) => {
            less_is_left(lists, at, k);
            let moved = at.update(k, at[k] + 1);
            let first = lists[k][at[k]];
            assert(sorted_by_time(lists[k]));
            assert forall|j: int, i: int| 0 <= j < n && moved[j] <= i < lists[j].len() implies (
            #[trigger] lists[j][i]).ts >= first.ts by {
                assert(sorted_by_time(lists[j]));
                if j != k {
                    assert(at[j] < lists[j].len());
                    assert(lists[j][at[j]].ts >= first.ts);
                    if i > at[j] {
                        assert(lists[j][at[j]].ts <= lists[j][i].ts);
                    }
                } else {
                    assert(lists[k][at[k]].ts <= lists[k][i].ts);
                }
            }
            zipped_sorts(lists, moved, first.ts as int);
            let rest = zipped(lists, moved);
            let all = zipped(lists, at);
            assert(all == seq![first] + rest);
            assert forall|i: int, j: int| 0 <= i < j < all.len() implies #[trigger] all[i].ts
                <= #[trigger] all[j].ts by {
                assert(all[j] == rest[j - 1]);
                if i > 0 {
                    assert(all[i] == rest[i - 1]);
                }
            }
            assert forall|i: int| 0 <= i < all.len() implies (#[trigger] all[i]).ts >= ts by {
                if i > 0 {
                    assert(all[i] == rest[i - 1]);
                }
            }
            samples_without(lists, at, k, n);
            all.to_multiset_ensures();
            assert(all.remove(0) =~= rest);
            assert(all[0] == first);
            assert(all.to_multiset() =~= rest.to_multiset().insert(first));
        },
        None => {
            nothing_left(lists, at, n);
            assert(zipped(lists, at) =~= Seq::empty());
            zipped(lists, at).to_multiset_ensures();
            assert(zipped(lists, at).to_multiset() =~= Multiset::empty());
        },
    }
}

proof fn nothing_left(lists: Seq<Seq<Metrics>>, at: Seq<int>, upto: int)
    requires
        places_in(lists, at),
        0 <= upto <= lists.len(),
        forall|j: int| 0 <= j < upto ==> #[trigger] at[j] >= lists[j].len(),
    ensures
        samples_left(lists, at, upto) == Multiset::<Metrics>::empty(),
    decreases upto,
{
    if upto > 0 {
        nothing_left(lists, at, upto - 1);
        let rest = rest_of(lists, at, upto - 1);
        assert(at[upto - 1] == lists[upto - 1].len());
        assert(rest =~= Seq::empty());
        rest.to_multiset_ensures();
        assert(samples_left(lists, at, upto) =~= Multiset::empty());
    }
}

/// Zipping sorted lists of samples makes one sorted list of all the samples in them.
pub proof fn zipped_is_sorted(lists: Seq<Seq<Metrics>>)
    requires
        forall|k: int| 0 <= k < lists.len() ==> sorted_by_time(#[trigger] lists[k]),
    ensures
        sorted_by_time(zipped(lists, at_start(lists))),
        zipped(lists, at_start(lists)).to_multiset() == samples_left(
            lists,
            at_start(lists),
            lists.len() as int,
        ),
{
    zipped_sorts(lists, at_start(lists), 0);
}

/// Samples carried over stand in the same order of time.
proof fn scaling_keeps_order(samples: Seq<Metrics>, from: MetricsRange, to: MetricsRange)
    requires
        sorted_by_time(samples),
        forall|i: int| 0 <= i < samples.len() ==> scales(#[trigger] samples[i], from, to),
    ensures
        sorted_by_time(all_scaled(samples, from, to)),
{
    let after = all_scaled(samples, from, to);
    assert forall|i: int, j: int| 0 <= i < j < after.len() implies #[trigger] after[i].ts
        <= #[trigger] after[j].ts by {
        assert(scales(samples[i], from, to));
        assert(scales(samples[j], from, to));
        assert(samples[i].ts <= samples[j].ts);
        let (a, b) = (samples[i].ts - from.start.ts, samples[j].ts - from.start.ts);
        let (n, d) = (to.ts_incr as int, from.ts_incr as int);
        assert(n * a <= n * b) by (nonlinear_arith)
            requires
                a <= b,
                n >= 0,
        ;
        vstd::arithmetic::div_mod::lemma_div_is_ordered(n * a, n * b, d);
    }
}

pub proof fn scaled_lists_sorted(traces: Seq<TraceModel>, id: u32, to: MetricsRange)
    requires
        events_scale(traces, to),
    ensures
        forall|k: int|
            0 <= k < scaled_lists(traces, id, to).len() ==> sorted_by_time(
                #[trigger] scaled_lists(traces, id, to)[k],
            ),
    decreases traces.len(),
{
    if traces.len() > 0 {
        let rest = traces.drop_last();
        assert(events_scale(rest, to)) by {
            assert forall|t: int, i: u32| 0 <= t < rest.len() implies match #[trigger] first_with_id(
                rest[t].events,
                i,
            ) {
                Some(event) => event_scales(event, rest[t].root.metrics, to),
                None => true,
            } by {
                assert(rest[t] == traces[t]);
            }
        }
        scaled_lists_sorted(rest, id, to);
        let last = traces.last();
        assert(last == traces[traces.len() - 1]);
        if let Some(event) = first_with_id(last.events, id) {
            assert(event_scales(event, last.root.metrics, to));
            scaling_keeps_order(event.occurences, last.root.metrics, to);
        }
        let shorter = scaled_lists(rest, id, to);
        let all = scaled_lists(traces, id, to);
        assert forall|k: int| 0 <= k < all.len() implies sorted_by_time(#[trigger] all[k]) by {
            if k < shorter.len() {
                assert(all[k] == shorter[k]);
            }
        }
    }
}

/// The occurences of a merged event are sorted by time.
pub proof fn merged_event_is_sorted(traces: Seq<TraceModel>, event: EventModel, to: MetricsRange)
    requires
        events_scale(traces, to),
    ensures
        sorted_by_time(merged_event(traces, event, to).occurences),
{
    scaled_lists_sorted(traces, event.id, to);
    zipped_is_sorted(scaled_lists(traces, event.id, to));
}

/// The occurences of merged events are sorted by time.
pub proof fn merged_events_sorted(
    traces: Seq<TraceModel>,
    events: Seq<EventModel>,
    to: MetricsRange,
)
    requires
        events_scale(traces, to),
    ensures
        forall|i: int|
            0 <= i < merged_events_for(traces, events, to).len() ==> sorted_by_time(
                (#[trigger] merged_events_for(traces, events, to)[i]).occurences,
            ),
    decreases events.len(),
{
    if events.len() > 0 {
        merged_events_sorted(traces, events.drop_last(), to);
        merged_event_is_sorted(traces, events.last(), to);
        let shorter = merged_events_for(traces, events.drop_last(), to);
        let all = merged_events_for(traces, events, to);
        assert forall|i: int| 0 <= i < all.len() implies sorted_by_time(
            (#[trigger] all[i]).occurences,
        ) by {
            if i < shorter.len() {
                assert(all[i] == shorter[i]);
            }
        }
    }
}

proof fn ids_are_kept(traces: Seq<TraceModel>, events: Seq<EventModel>, to: MetricsRange)
    ensures
        forall|i: int|
            0 <= i < events.len() ==> has_id(
                merged_events_for(traces, events, to),
                (#[trigger] events[i]).id,
            ),
        forall|i: int, j: int|
            0 <= i < j < merged_events_for(traces, events, to).len() ==> (
            #[trigger] merged_events_for(traces, events, to)[i]).id != (
            #[trigger] merged_events_for(traces, events, to)[j]).id,
    decreases events.len(),
{
    if events.len() > 0 {
        let rest = events.drop_last();
        ids_are_kept(traces, rest, to);
        let shorter = merged_events_for(traces, rest, to);
        let all = merged_events_for(traces, events, to);
        assert forall|i: int| 0 <= i < events.len() implies has_id(
            all,
            (#[trigger] events[i]).id,
        ) by {
            if i < rest.len() {
                assert(rest[i] == events[i]);
                let k = choose|k: int| 0 <= k < shorter.len() && (#[trigger] shorter[k]).id
                    == events[i].id;
                assert(all[k] == shorter[k]);
            } else if !has_id(shorter, events[i].id) {
                assert(all[shorter.len() as int].id == events[i].id);
            }
        }
        assert forall|i: int, j: int| 0 <= i < j < all.len() implies (#[trigger] all[i]).id != (
        #[trigger] all[j]).id by {
            assert(all[i] == shorter[i]);
            if j < shorter.len() {
                assert(all[j] == shorter[j]);
            }
        }
    }
}

/// Each id of an event of the traces stands in the merged events, and none stands there twice.
pub proof fn merged_events_cover(traces: Seq<TraceModel>, to: MetricsRange, t: int, e: int)
    requires
        0 <= t < traces.len(),
        0 <= e < traces[t].events.len(),
    ensures
        has_id(merged_events(traces, to), traces[t].events[e].id),
        forall|i: int, j: int|
            0 <= i < j < merged_events(traces, to).len() ==> (
            #[trigger] merged_events(traces, to)[i]).id != (
            #[trigger] merged_events(traces, to)[j]).id,
{
    ids_are_kept(traces, events_in_turn(traces), to);
    let i = events_are_in_turn(traces, t, e);
}

proof fn events_are_in_turn(traces: Seq<TraceModel>, t: int, e: int) -> (i: int)
    requires
        0 <= t < traces.len(),
        0 <= e < traces[t].events.len(),
    ensures
        0 <= i < events_in_turn(traces).len(),
        events_in_turn(traces)[i] == traces[t].events[e],
    decreases traces.len(),
{
    let rest = events_in_turn(traces.drop_last());
    if t < traces.len() - 1 {
        events_are_in_turn(traces.drop_last(), t, e)
    } else {
        rest.len() + e
    }
}

fn carry(value: u64, start: u64, length: u32, new_start: u64, new_length: u32) -> (result: u64)
    requires
        start <= value,
        length > 0,
        0 <= carried(value, start, length, new_start, new_length) <= u64::MAX,
    ensures
        result == carried(value, start, length, new_start, new_length),
{
    let way: u128 = (value - start) as u128;
    proof {
        assert(new_length * way <= u32::MAX * u64::MAX) by (nonlinear_arith)
            requires
                new_length <= u32::MAX,
                way <= u64::MAX,
        ;
        assert(0 <= (new_length * way) / (length as int)) by (nonlinear_arith)
            requires
                length > 0,
                new_length >= 0,
                way >= 0,
        ;
    }
    let share: u128 = (new_length as u128 * way) / length as u128;
    share as u64 + new_start
}

/// Carries a sample of one range over to another, in proportion.
pub fn scale(sample: &Metrics, from: &MetricsRange, to: &MetricsRange) -> (result: Metrics)
    requires
        scales(*sample, *from, *to),
    ensures
        result == scaled(*sample, *from, *to),
{
    Metrics {
        ts: carry(sample.ts, from.start.ts, from.ts_incr, to.start.ts, to.ts_incr),
        cycles: carry(
            sample.cycles,
            from.start.cycles,
            from.cycles_incr,
            to.start.cycles,
            to.cycles_incr,
        ),
        insn_count: carry(
            sample.insn_count,
            from.start.insn_count,
            from.insn_incr,
            to.start.insn_count,
            to.insn_incr,
        ),
    }
}

/// The models of lists of samples.
pub open spec fn sample_lists(lists: Seq<Vec<Metrics>>) -> Seq<Seq<Metrics>> {
    Seq::new(lists.len(), |k: int| lists[k]@)
}

spec fn places(at: Seq<usize>) -> Seq<int> {
    Seq::new(at.len(), |k: int| at[k] as int)
}

fn find_earliest(lists: &[Vec<Metrics>], at: &Vec<usize>) -> (result: Option<usize>)
    requires
        at.len() == lists.len(),
    ensures
        match result {
            Some(k) => earliest(sample_lists(lists@), places(at@), lists@.len() as int) == Some(
                k as int,
            ),
            None => earliest(sample_lists(lists@), places(at@), lists@.len() as int) is None,
        },
{
    let ghost all = sample_lists(lists@);
    let ghost ats = places(at@);
    let mut found: Option<usize> = None;
    let mut k: usize = 0;
    while k < lists.len()
        invariant
            k <= lists.len(),
            at.len() == lists.len(),
            all == sample_lists(lists@),
            ats == places(at@),
            match found {
                Some(f) => {
                    &&& earliest(all, ats, k as int) == Some(f as int)
                    &&& f < k
                    &&& ats[f as int] < all[f as int].len()
                },
                None => earliest(all, ats, k as int) is None,
            },
        decreases lists.len() - k,
    {
        assert(all[k as int] == lists@[k as int]@);
        assert(ats[k as int] == at@[k as int]);
        if at[k] < lists[k].len() {
            found = match found {
                Some(f) => {
                    assert(all[f as int] == lists@[f as int]@);
                    assert(ats[f as int] == at@[f as int]);
                    if lists[k][at[k]].ts < lists[f][at[f]].ts {
                        Some(k)
                    } else {
                        Some(f)
                    }
                },
                None => Some(k),
            };
        }
        k += 1;
    }
    found
}

/// The event that has the occurences of all lists, always the earliest next one first.
pub fn zip_events(id: u32, name: &str, desc: &str, lists: &[Vec<Metrics>]) -> (result: Event)
    requires
        forall|k: int| 0 <= k < lists.len() ==> sorted_by_time((#[trigger] lists@[k])@),
    ensures
        result@ == (EventModel {
            id,
            occurences: zipped(sample_lists(lists@), at_start(sample_lists(lists@))),
            name: name@,
            description: desc@,
        }),
        sorted_by_time(result@.occurences),
{
    let ghost all = sample_lists(lists@);
    let mut at: Vec<usize> = Vec::new();
    while at.len() < lists.len()
        invariant
            at.len() <= lists.len(),
            forall|k: int| 0 <= k < at.len() ==> #[trigger] at@[k] == 0,
        decreases lists.len() - at.len(),
    {
        at.push(0);
    }
    let mut occurences: Vec<Metrics> = Vec::new();
    let ghost whole = zipped(all, at_start(all));
    proof {
        assert(places(at@) =~= at_start(all));
        assert(occurences@ + whole =~= whole);
    }
    loop
        invariant
            at.len() == lists.len(),
            all == sample_lists(lists@),
            forall|k: int| 0 <= k < at.len() ==> #[trigger] at@[k] <= lists@[k]@.len(),
            whole == zipped(all, at_start(all)),
            whole == occurences@ + zipped(all, places(at@)),
        ensures
            whole == occurences@,
        decreases left_in(all, places(at@), all.len() as int),
    {
        let ghost ats = places(at@);
        proof {
            earliest_is_earliest(all, ats, all.len() as int);
        }
        match find_earliest(lists, &at) {
            Some(k) => {
                proof {
                    less_is_left(all, ats, k as int);
                    assert(all[k as int] == lists@[k as int]@);
                    assert(ats[k as int] == at@[k as int]);
                }
                let list = &lists[k];
                let place: usize = at[k];
                assert(place < list.len());
                occurences.push(list[place]);
                let moved: usize = place + 1;
                at.set(k, moved);
                proof {
                    assert(places(at@) =~= ats.update(k as int, ats[k as int] + 1));
                    assert(whole =~= occurences@ + zipped(all, places(at@)));
                }
            },
            None => {
                assert(whole =~= occurences@);
                break;
            },
        }
    }
    proof {
        assert forall|k: int| 0 <= k < all.len() implies sorted_by_time(#[trigger] all[k]) by {
            assert(all[k] == lists@[k]@);
        }
        zipped_is_sorted(all);
    }
    Event { id, occurences, name: name.to_string(), description: desc.to_string() }
}

/// The models of traces that are held by reference.
pub open spec fn trace_models(traces: Seq<&Trace>) -> Seq<TraceModel> {
    Seq::new(traces.len(), |t: int| traces[t]@)
}

/// The occurences of the events with the id, of each trace that has one, carried over.
fn scale_lists(traces: &[&Trace], id: u32, to: &MetricsRange) -> (result: Vec<Vec<Metrics>>)
    requires
        events_scale(trace_models(traces@), *to),
    ensures
        sample_lists(result@) == scaled_lists(trace_models(traces@), id, *to),
{
    let ghost models = trace_models(traces@);
    let mut lists: Vec<Vec<Metrics>> = Vec::new();
    let mut t: usize = 0;
    assert(sample_lists(lists@) =~= scaled_lists(models.take(0), id, *to));
    while t < traces.len()
        invariant
            t <= traces.len(),
            models == trace_models(traces@),
            events_scale(models, *to),
            sample_lists(lists@) == scaled_lists(models.take(t as int), id, *to),
        decreases traces.len() - t,
    {
        let trace = traces[t];
        proof {
            assert(models[t as int] == trace@);
            assert(models.take(t + 1).drop_last() =~= models.take(t as int));
            assert(models.take(t + 1).last() == trace@);
        }
        if let Some(event) = trace.get_event(id) {
            assert(first_with_id(models[t as int].events, id) == Some(event@));
            assert(event_scales(event@, trace@.root.metrics, *to));
            let from = trace.root_frame().metrics;
            let samples = event.occurences();
            let ghost wanted = all_scaled(samples@, from, *to);
            let mut list: Vec<Metrics> = Vec::new();
            let mut i: usize = 0;
            while i < samples.len()
                invariant
                    i <= samples.len(),
                    wanted == all_scaled(samples@, from, *to),
                    forall|k: int| 0 <= k < samples.len() ==> scales(#[trigger] samples@[k], from, *to),
                    list@ == wanted.take(i as int),
                decreases samples.len() - i,
            {
                list.push(scale(&samples[i], &from, to));
                assert(list@ =~= wanted.take(i + 1));
                i += 1;
            }
            assert(list@ =~= wanted);
            let ghost before = sample_lists(lists@);
            lists.push(list);
            assert(sample_lists(lists@) =~= before.push(wanted));
        }
        t += 1;
    }
    assert(models.take(t as int) =~= models);
    lists
}

fn holds_id(events: &Vec<Event>, id: u32) -> (result: bool)
    ensures
        result == has_id(event::event_models(events@), id),
{
    let ghost models = event::event_models(events@);
    let mut i: usize = 0;
    while i < events.len()
        invariant
            i <= events.len(),
            models == event::event_models(events@),
            forall|k: int| 0 <= k < i ==> (#[trigger] models[k]).id != id,
        decreases events.len() - i,
    {
        assert(models[i as int] == events@[i as int]@);
        if events[i].id == id {
            return true;
        }
        i += 1;
    }
    false
}

/// The events of the traces, one for each id, with their occurences carried over to the range.
pub fn merge_events(traces: &[&Trace], new_range: &MetricsRange) -> (result: Vec<Event>)
    requires
        events_scale(trace_models(traces@), *new_range),
    ensures
        event::event_models(result@) == merged_events(trace_models(traces@), *new_range),
{
    let ghost models = trace_models(traces@);
    let mut merged: Vec<Event> = Vec::new();
    let mut t: usize = 0;
    assert(event::event_models(merged@) =~= merged_events_for(
        models,
        events_in_turn(models.take(0)),
        *new_range,
    ));
    while t < traces.len()
        invariant
            t <= traces.len(),
            models == trace_models(traces@),
            events_scale(models, *new_range),
            event::event_models(merged@) == merged_events_for(
                models,
                events_in_turn(models.take(t as int)),
                *new_range,
            ),
        decreases traces.len() - t,
    {
        let ghost before = events_in_turn(models.take(t as int));
        let events = traces[t].events();
        let ghost here = event::event_models(events@);
        proof {
            assert(models[t as int].events == here);
            assert(models.take(t + 1).drop_last() =~= models.take(t as int));
            assert(models.take(t + 1).last() == models[t as int]);
            assert(before + here.take(0) =~= before);
        }
        let mut e: usize = 0;
        while e < events.len()
            invariant
                e <= events.len(),
                models == trace_models(traces@),
                events_scale(models, *new_range),
                here == event::event_models(events@),
                event::event_models(merged@) == merged_events_for(
                    models,
                    before + here.take(e as int),
                    *new_range,
                ),
            decreases events.len() - e,
        {
            let event = &events[e];
            let ghost longer = before + here.take(e + 1);
            let ghost so_far = event::event_models(merged@);
            proof {
                assert(here[e as int] == event@);
                assert(longer.drop_last() =~= before + here.take(e as int));
                assert(longer.last() == event@);
                scaled_lists_sorted(models, event.id, *new_range);
            }
            if !holds_id(&merged, event.id) {
                let lists = scale_lists(traces, event.id, new_range);
                proof {
                    assert forall|k: int| 0 <= k < lists.len() implies sorted_by_time(
                        (#[trigger] lists@[k])@,
                    ) by {
                        assert(sample_lists(lists@)[k] == lists@[k]@);
                    }
                }
                let zipped_event = zip_events(
                    event.id,
                    event.name.as_str(),
                    event.description.as_str(),
                    lists.as_slice(),
                );
                assert(zipped_event@ == merged_event(models, event@, *new_range));
                merged.push(zipped_event);
                assert(event::event_models(merged@) =~= so_far.push(
                    merged_event(models, event@, *new_range),
                ));
            }
            e += 1;
        }
        assert(before + here.take(e as int) =~= events_in_turn(models.take(t + 1)));
        t += 1;
    }
    assert(models.take(t as int) =~= models);
    merged
}

} // verus!

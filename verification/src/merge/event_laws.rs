//! What becomes of events when traces are merged.
use crate::analysis::filter::samples_of;
use crate::merge::children::{merge_all, MAX_LEVELS};
use crate::merge::events::{
    self, at_start, earliest, events_in_turn, events_scale, has_id, merged_event, merged_events,
    merged_events_for, rest_of, samples_left, scaled, scaled_lists, scales, zipped,
};
use crate::merge::traces::{
    frequent_frame_thresh, lost_frames, merged_root_range, merged_trace, roots,
};
use crate::trace::event::{
    self, first_with_id, in_time_order, sorted_by_time, with_sample, EventModel,
};
use crate::trace::laws::{growth, reading, Counter};
use crate::trace::metrics::{total, Metrics, MetricsRange};
use crate::trace::record::TraceModel;
use vstd::multiset::Multiset;
use vstd::prelude::*;

verus! {

/// A sample that is carried over lies as far into the new range, in every counter, as it did into
/// the old one, in proportion and rounded down. So the start of the range comes to the start, and
/// the end to the end.
pub proof fn samples_are_carried_in_proportion(
    sample: Metrics,
    from: MetricsRange,
    to: MetricsRange,
    c: Counter,
)
    requires
        scales(sample, from, to),
    ensures
        ({
            let (old_length, new_length) = (growth(from, c), growth(to, c));
            let way = reading(sample, c) - reading(from.start, c);
            let new_way = reading(scaled(sample, from, to), c) - reading(to.start, c);
            &&& 0 < old_length && 0 <= way && 0 <= new_way
            &&& new_way * old_length <= new_length * way < (new_way + 1) * old_length
            &&& way == 0 ==> new_way == 0
            &&& way == old_length ==> new_way == new_length
            &&& way <= old_length ==> new_way <= new_length
        }),
{
    let (d, n) = (growth(from, c), growth(to, c));
    let way = reading(sample, c) - reading(from.start, c);
    let v = n * way / d;
    vstd::arithmetic::div_mod::lemma_fundamental_div_mod(n * way, d);
    vstd::arithmetic::div_mod::lemma_mod_bound(n * way, d);
    assert(n * way >= 0) by (nonlinear_arith)
        requires
            n >= 0,
            way >= 0,
    ;
    assert(v * d <= n * way < (v + 1) * d) by (nonlinear_arith)
        requires
            n * way == d * v + (n * way) % d,
            0 <= (n * way) % d < d,
    ;
    assert(v >= 0) by (nonlinear_arith)
        requires
            0 <= n * way < (v + 1) * d,
            d > 0,
    ;
    assert(way == 0 ==> v == 0) by (nonlinear_arith)
        requires
            v * d <= n * way,
            v >= 0,
            d > 0,
    ;
    assert(way == d ==> v == n) by (nonlinear_arith)
        requires
            v * d <= n * way < (v + 1) * d,
            d > 0,
    ;
    assert(way <= d ==> v <= n) by (nonlinear_arith)
        requires
            v * d <= n * way,
            n >= 0,
            d > 0,
    ;
}

/// A sample cannot be carried over if and only if it is before the range, the range is empty in some
/// counter, or a counter would pass its limit.
pub proof fn samples_that_are_carried(sample: Metrics, from: MetricsRange, to: MetricsRange)
    ensures
        scales(sample, from, to) <==> forall|c: Counter|
            {
                &&& growth(from, c) > 0
                &&& reading(from.start, c) <= #[trigger] reading(sample, c)
                &&& growth(to, c) * (reading(sample, c) - reading(from.start, c)) / growth(from, c)
                    + reading(to.start, c) <= u64::MAX
            },
{
    if scales(sample, from, to) {
        assert forall|c: Counter|
            growth(from, c) > 0 && reading(from.start, c) <= #[trigger] reading(sample, c)
                && growth(to, c) * (reading(sample, c) - reading(from.start, c)) / growth(from, c)
                + reading(to.start, c) <= u64::MAX by {
            match c {
                Counter::Time => {},
                Counter::Cycles => {},
                Counter::Instructions => {},
            }
        }
    }
    let (t, y, i) = (Counter::Time, Counter::Cycles, Counter::Instructions);
    assert(reading(sample, t) == sample.ts && reading(sample, y) == sample.cycles && reading(
        sample,
        i,
    ) == sample.insn_count);
    not_negative(to.ts_incr as int, sample.ts - from.start.ts, from.ts_incr as int);
    not_negative(to.cycles_incr as int, sample.cycles - from.start.cycles, from.cycles_incr as int);
    not_negative(to.insn_incr as int, sample.insn_count - from.start.insn_count, from.insn_incr as int);
}

proof fn not_negative(n: int, way: int, d: int)
    requires
        n >= 0,
    ensures
        way >= 0 && d > 0 ==> n * way / d >= 0,
{
    if way >= 0 && d > 0 {
        assert(n * way >= 0) by (nonlinear_arith)
            requires
                n >= 0,
                way >= 0,
        ;
        vstd::arithmetic::div_mod::lemma_div_pos_is_pos(n * way, d);
    }
}

/// The samples of the event of each trace, each carried over from the trace's range.
pub open spec fn carried_from_all(traces: Seq<TraceModel>, id: u32, to: MetricsRange) -> Multiset<
    Metrics,
>
    decreases traces.len(),
{
    if traces.len() == 0 {
        Multiset::empty()
    } else {
        let last = traces.last();
        let samples = samples_of(last, id);
        carried_from_all(traces.drop_last(), id, to).add(
            Seq::new(
                samples.len(),
                |i: int| scaled(samples[i], last.root.metrics, to),
            ).to_multiset(),
        )
    }
}

proof fn left_of_front(a: Seq<Seq<Metrics>>, b: Seq<Seq<Metrics>>, upto: int)
    requires
        0 <= upto <= a.len(),
        upto <= b.len(),
        forall|k: int| 0 <= k < upto ==> #[trigger] a[k] == b[k],
    ensures
        samples_left(a, at_start(a), upto) == samples_left(b, at_start(b), upto),
    decreases upto,
{
    if upto > 0 {
        left_of_front(a, b, upto - 1);
        assert(rest_of(a, at_start(a), upto - 1) == rest_of(b, at_start(b), upto - 1)) by {
            assert(a[upto - 1] == b[upto - 1]);
        }
    }
}

proof fn lists_hold_all(traces: Seq<TraceModel>, id: u32, to: MetricsRange)
    ensures
        ({
            let lists = scaled_lists(traces, id, to);
            samples_left(lists, at_start(lists), lists.len() as int) == carried_from_all(
                traces,
                id,
                to,
            )
        }),
    decreases traces.len(),
{
    if traces.len() > 0 {
        let front = traces.drop_last();
        let last = traces.last();
        lists_hold_all(front, id, to);
        let shorter = scaled_lists(front, id, to);
        let all = scaled_lists(traces, id, to);
        let samples = samples_of(last, id);
        let carried = Seq::new(
            samples.len(),
            |i: int| scaled(samples[i], last.root.metrics, to),
        );
        let before = carried_from_all(front, id, to);
        match first_with_id(last.events, id) {
            Some(event) => {
                let n = shorter.len() as int;
                assert(all[n] =~= carried);
                left_of_front(all, shorter, n);
                assert(rest_of(all, at_start(all), n) =~= all[n]);
                assert(samples_left(all, at_start(all), n + 1) == samples_left(
                    all,
                    at_start(all),
                    n,
                ).add(carried.to_multiset()));
            },
            None => {
                assert(carried =~= Seq::empty());
                carried.to_multiset_ensures();
                assert(carried.to_multiset() =~= Multiset::empty());
                assert(before.add(carried.to_multiset()) =~= before);
            },
        }
    }
}

/// The occurences of a merged event are those of the event in all traces, each carried over: none is
/// lost, none is added, and they are sorted by time.
pub proof fn merged_event_has_all_occurences(
    traces: Seq<TraceModel>,
    event: EventModel,
    to: MetricsRange,
)
    requires
        events_scale(traces, to),
    ensures
        merged_event(traces, event, to).occurences.to_multiset() == carried_from_all(
            traces,
            event.id,
            to,
        ),
        sorted_by_time(merged_event(traces, event, to).occurences),
        merged_event(traces, event, to).id == event.id,
        merged_event(traces, event, to).name == event.name,
        merged_event(traces, event, to).description == event.description,
        merged_event(traces, event, to).occurences.len() == total(counts(traces, event.id)),
{
    let lists = scaled_lists(traces, event.id, to);
    events::scaled_lists_sorted(traces, event.id, to);
    events::zipped_is_sorted(lists);
    lists_hold_all(traces, event.id, to);
    zipped(lists, at_start(lists)).to_multiset_ensures();
    carried_is_counted(traces, event.id, to);
}

/// How often the event occurs in each trace.
pub open spec fn counts(traces: Seq<TraceModel>, id: u32) -> Seq<int> {
    Seq::new(traces.len(), |t: int| samples_of(traces[t], id).len() as int)
}

proof fn carried_is_counted(traces: Seq<TraceModel>, id: u32, to: MetricsRange)
    ensures
        carried_from_all(traces, id, to).len() == total(counts(traces, id)),
    decreases traces.len(),
{
    if traces.len() > 0 {
        carried_is_counted(traces.drop_last(), id, to);
        assert(counts(traces, id).drop_last() =~= counts(traces.drop_last(), id));
        let last = traces.last();
        let samples = samples_of(last, id);
        Seq::new(
            samples.len(),
            |i: int| scaled(samples[i], last.root.metrics, to),
        ).to_multiset_ensures();
    } else {
        assert(counts(traces, id) =~= Seq::empty());
    }
}

/// The merged events stand for the events of the traces: the event at `i` for the first one, as
/// `from` tells, that has its id.
pub open spec fn stand_for_firsts(
    traces: Seq<TraceModel>,
    events: Seq<EventModel>,
    merged: Seq<EventModel>,
    to: MetricsRange,
    from: Seq<int>,
) -> bool {
    &&& from.len() == merged.len()
    &&& forall|i: int|
        0 <= i < merged.len() ==> {
            &&& 0 <= #[trigger] from[i] < events.len()
            &&& merged[i] == merged_event(traces, events[from[i]], to)
            &&& forall|j: int| 0 <= j < from[i] ==> (#[trigger] events[j]).id != events[from[i]].id
        }
    &&& forall|i: int, j: int| 0 <= i < j < from.len() ==> #[trigger] from[i] < #[trigger] from[j]
}

/// The merged events stand for the first events of their ids, in the order in which ids come up.
pub proof fn merged_events_stand_for_firsts(
    traces: Seq<TraceModel>,
    events: Seq<EventModel>,
    to: MetricsRange,
) -> (from: Seq<int>)
    ensures
        stand_for_firsts(traces, events, merged_events_for(traces, events, to), to, from),
    decreases events.len(),
{
    if events.len() == 0 {
        Seq::empty()
    } else {
        let rest = events.drop_last();
        let before = merged_events_stand_for_firsts(traces, rest, to);
        let shorter = merged_events_for(traces, rest, to);
        let all = merged_events_for(traces, events, to);
        let last = events.last();
        assert forall|i: int| 0 <= i < shorter.len() implies {
            &&& 0 <= #[trigger] before[i] < rest.len()
            &&& shorter[i] == merged_event(traces, events[before[i]], to)
            &&& forall|j: int|
                0 <= j < before[i] ==> (#[trigger] events[j]).id != events[before[i]].id
        } by {
            assert(rest[before[i]] == events[before[i]]);
            assert forall|j: int| 0 <= j < before[i] implies (#[trigger] events[j]).id
                != events[before[i]].id by {
                assert(rest[j] == events[j]);
            }
        }
        if has_id(shorter, last.id) {
            before
        } else {
            let from = before.push(rest.len() as int);
            assert forall|j: int| 0 <= j < rest.len() implies (#[trigger] events[j]).id
                != last.id by {
                assert(rest[j] == events[j]);
                if rest[j].id == last.id {
                    ids_stay(traces, rest, to, j);
                }
            }
            assert forall|i: int| 0 <= i < all.len() implies {
                &&& 0 <= #[trigger] from[i] < events.len()
                &&& all[i] == merged_event(traces, events[from[i]], to)
                &&& forall|j: int|
                    0 <= j < from[i] ==> (#[trigger] events[j]).id != events[from[i]].id
            } by {
                if i < shorter.len() {
                    assert(from[i] == before[i]);
                    assert(all[i] == shorter[i]);
                } else {
                    assert(events[from[i]] == last);
                }
            }
            from
        }
    }
}

proof fn ids_stay(traces: Seq<TraceModel>, events: Seq<EventModel>, to: MetricsRange, e: int)
    requires
        0 <= e < events.len(),
    ensures
        has_id(merged_events_for(traces, events, to), events[e].id),
    decreases events.len(),
{
    let rest = events.drop_last();
    let shorter = merged_events_for(traces, rest, to);
    let all = merged_events_for(traces, events, to);
    if e < rest.len() {
        ids_stay(traces, rest, to, e);
        let k = choose|k: int| 0 <= k < shorter.len() && (#[trigger] shorter[k]).id == rest[e].id;
        assert(all[k] == shorter[k]);
    } else if !has_id(shorter, events[e].id) {
        assert(all[shorter.len() as int].id == events[e].id);
    }
}

/// The events of all traces, in turn, are just those of the traces.
pub proof fn events_in_turn_are_all(a: Seq<TraceModel>, b: Seq<TraceModel>, trace: TraceModel)
    ensures
        events_in_turn(a + b) == events_in_turn(a) + events_in_turn(b),
        events_in_turn(seq![trace]) == trace.events,
    decreases b.len(),
{
    reveal_with_fuel(events_in_turn, 2);
    assert(seq![trace].drop_last() =~= Seq::empty());
    assert(events_in_turn(seq![trace]) =~= trace.events);
    if b.len() == 0 {
        assert(a + b =~= a);
        assert(events_in_turn(a) + events_in_turn(b) =~= events_in_turn(a));
    } else {
        assert((a + b).drop_last() =~= a + b.drop_last());
        events_in_turn_are_all(a, b.drop_last(), trace);
        assert(events_in_turn(a + b) =~= events_in_turn(a) + events_in_turn(b));
    }
}

/// A merged trace has the merged events, carried over to its own range, and behind them one that
/// tells of all chunks that found no place; that one is there only if there are such.
pub proof fn merged_trace_tells_of_lost_chunks(traces: Seq<TraceModel>)
    requires
        traces.len() > 1,
    ensures
        ({
            let events = merged_trace(traces).events;
            let plain = merged_events_for(
                traces,
                events_in_turn(traces),
                merged_trace(traces).root.metrics,
            );
            let lost = merge_all(
                MAX_LEVELS as nat,
                merged_trace(traces).root.metrics,
                roots(traces),
                frequent_frame_thresh(),
                seq![traces[0].root.symbol],
                Seq::empty(),
            ).lost;
            &&& events.take(plain.len() as int) == plain
            &&& lost.len() == 0 ==> events.len() == plain.len()
            &&& lost.len() > 0 ==> {
                &&& events.len() == plain.len() + 1
                &&& events.last().id == 555740177
                &&& events.last().occurences.len() == lost.len()
                &&& events.last().occurences.to_multiset() == lost.to_multiset()
                &&& sorted_by_time(events.last().occurences)
            }
        }),
{
    let range = merged_root_range(traces);
    let plain = merged_events(traces, range);
    let lost = merge_all(
        MAX_LEVELS as nat,
        range,
        roots(traces),
        frequent_frame_thresh(),
        seq![traces[0].root.symbol],
        Seq::empty(),
    ).lost;
    event::in_time_order_sorts(lost);
    let events = merged_trace(traces).events;
    assert(events == plain + lost_frames(lost));
    assert(events.take(plain.len() as int) =~= plain);
}

/// The sample is of the time.
pub open spec fn at_time(ts: u64) -> spec_fn(Metrics) -> bool {
    |sample: Metrics| sample.ts == ts
}

/// The samples of a time that are left in the first lists, one list after the other.
pub open spec fn left_at(lists: Seq<Seq<Metrics>>, at: Seq<int>, ts: u64, upto: int) -> Seq<Metrics>
    decreases upto,
{
    if upto <= 0 {
        Seq::empty()
    } else {
        left_at(lists, at, ts, upto - 1) + lists[upto - 1].skip(at[upto - 1]).filter(at_time(ts))
    }
}

proof fn filter_front(first: Metrics, rest: Seq<Metrics>, p: spec_fn(Metrics) -> bool)
    ensures
        (seq![first] + rest).filter(p) == if p(first) {
            seq![first] + rest.filter(p)
        } else {
            rest.filter(p)
        },
    decreases rest.len(),
{
    reveal(Seq::filter);
    let all = seq![first] + rest;
    if rest.len() == 0 {
        assert(all.drop_last() =~= Seq::empty());
        assert(all.last() == first);
        assert(all.drop_last().filter(p) =~= Seq::empty());
        if p(first) {
            assert(Seq::<Metrics>::empty().push(first) =~= seq![first] + rest.filter(p));
        }
    } else {
        assert(all.drop_last() =~= seq![first] + rest.drop_last());
        assert(all.last() == rest.last());
        filter_front(first, rest.drop_last(), p);
        if p(first) {
            assert(all.filter(p) =~= seq![first] + rest.filter(p));
        }
    }
}

proof fn filter_of_later(samples: Seq<Metrics>, ts: u64)
    requires
        forall|i: int| 0 <= i < samples.len() ==> (#[trigger] samples[i]).ts != ts,
    ensures
        samples.filter(at_time(ts)) == Seq::<Metrics>::empty(),
    decreases samples.len(),
{
    reveal(Seq::filter);
    if samples.len() > 0 {
        let front = samples.drop_last();
        assert forall|i: int| 0 <= i < front.len() implies (#[trigger] front[i]).ts != ts by {
            assert(front[i] == samples[i]);
        }
        filter_of_later(front, ts);
        assert(samples.last() == samples[samples.len() - 1]);
    } else {
        assert(samples.filter(at_time(ts)) =~= Seq::<Metrics>::empty());
    }
}

proof fn first_of_earliest(lists: Seq<Seq<Metrics>>, at: Seq<int>, upto: int)
    requires
        0 <= upto <= lists.len(),
    ensures
        match earliest(lists, at, upto) {
            Some(k) => {
                &&& 0 <= k < upto
                &&& at[k] < lists[k].len()
                &&& forall|j: int|
                    0 <= j < k && #[trigger] at[j] < lists[j].len() ==> lists[k][at[k]].ts
                        < lists[j][at[j]].ts
            },
            None => forall|j: int| 0 <= j < upto ==> #[trigger] at[j] >= lists[j].len(),
        },
    decreases upto,
{
    if upto > 0 {
        first_of_earliest(lists, at, upto - 1);
        earliest_is_least(lists, at, upto - 1);
    }
}

proof fn earliest_is_least(lists: Seq<Seq<Metrics>>, at: Seq<int>, upto: int)
    requires
        0 <= upto <= lists.len(),
    ensures
        earliest(lists, at, upto) matches Some(k) ==> forall|j: int|
            0 <= j < upto && #[trigger] at[j] < lists[j].len() ==> lists[k][at[k]].ts
                <= lists[j][at[j]].ts,
        earliest(lists, at, upto) is None ==> forall|j: int|
            0 <= j < upto ==> #[trigger] at[j] >= lists[j].len(),
    decreases upto,
{
    if upto > 0 {
        earliest_is_least(lists, at, upto - 1);
    }
}

/// The places are in the lists, which are sorted by time.
pub open spec fn are_in(lists: Seq<Seq<Metrics>>, at: Seq<int>) -> bool {
    &&& at.len() == lists.len()
    &&& forall|k: int|
        0 <= k < lists.len() ==> 0 <= #[trigger] at[k] <= lists[k].len() && sorted_by_time(lists[k])
}

proof fn left_without_first(lists: Seq<Seq<Metrics>>, at: Seq<int>, ts: u64, k: int, upto: int)
    requires
        are_in(lists, at),
        0 <= upto <= lists.len(),
        0 <= k < lists.len(),
        at[k] < lists[k].len(),
        lists[k][at[k]].ts == ts ==> forall|j: int|
            0 <= j < k && #[trigger] at[j] < lists[j].len() ==> ts < lists[j][at[j]].ts,
    ensures
        left_at(lists, at, ts, upto) == if k < upto && lists[k][at[k]].ts == ts {
            seq![lists[k][at[k]]] + left_at(lists, at.update(k, at[k] + 1), ts, upto)
        } else {
            left_at(lists, at.update(k, at[k] + 1), ts, upto)
        },
        lists[k][at[k]].ts == ts && upto <= k ==> left_at(lists, at, ts, upto).len() == 0,
    decreases upto,
{
    let moved = at.update(k, at[k] + 1);
    let x = lists[k][at[k]];
    if upto > 0 {
        let h = upto - 1;
        left_without_first(lists, at, ts, k, h);
        if h == k {
            let rest = lists[k].skip(at[k] + 1);
            assert(lists[k].skip(at[k]) =~= seq![x] + rest);
            filter_front(x, rest, at_time(ts));
            assert(moved[k] == at[k] + 1);
            if x.ts == ts {
                let before = left_at(lists, at, ts, h);
                assert(before =~= Seq::empty());
                assert(left_at(lists, moved, ts, h) =~= Seq::empty());
                assert(left_at(lists, at, ts, upto) =~= seq![x] + left_at(lists, moved, ts, upto));
            }
        } else {
            assert(moved[h] == at[h]);
            if x.ts == ts && h < k {
                let rest = lists[h].skip(at[h]);
                assert(sorted_by_time(lists[h])) by {
                    assert(at[h] >= 0);
                }
                assert forall|i: int| 0 <= i < rest.len() implies (#[trigger] rest[i]).ts
                    != ts by {
                    assert(at[h] < lists[h].len());
                    assert(rest[i] == lists[h][at[h] + i]);
                    if i > 0 {
                        assert(lists[h][at[h]].ts <= lists[h][at[h] + i].ts);
                    }
                }
                filter_of_later(rest, ts);
            }
            if x.ts == ts && k < h {
                assert(left_at(lists, at, ts, upto) =~= seq![x] + left_at(lists, moved, ts, upto));
            }
        }
    }
}

proof fn zipped_keeps_order_of_lists(lists: Seq<Seq<Metrics>>, at: Seq<int>, ts: u64)
    requires
        are_in(lists, at),
    ensures
        zipped(lists, at).filter(at_time(ts)) == left_at(lists, at, ts, lists.len() as int),
    decreases events::left_in(lists, at, lists.len() as int),
{
    let n = lists.len() as int;
    first_of_earliest(lists, at, n);
    match earliest(lists, at, n) {
        Some(k) => {
            events::less_is_left(lists, at, k);
            let moved = at.update(k, at[k] + 1);
            let x = lists[k][at[k]];
            assert(at[k] >= 0);
            assert forall|j: int| 0 <= j < lists.len() implies 0 <= #[trigger] moved[j]
                <= lists[j].len() && sorted_by_time(lists[j]) by {
                assert(at[j] >= 0);
            }
            zipped_keeps_order_of_lists(lists, moved, ts);
            filter_front(x, zipped(lists, moved), at_time(ts));
            left_without_first(lists, at, ts, k, n);
        },
        None => {
            filter_of_later(zipped(lists, at), ts);
            nothing_is_left_at(lists, at, ts, n);
        },
    }
}

proof fn nothing_is_left_at(lists: Seq<Seq<Metrics>>, at: Seq<int>, ts: u64, upto: int)
    requires
        are_in(lists, at),
        0 <= upto <= lists.len(),
        forall|j: int| 0 <= j < upto ==> #[trigger] at[j] >= lists[j].len(),
    ensures
        left_at(lists, at, ts, upto) == Seq::<Metrics>::empty(),
    decreases upto,
{
    if upto > 0 {
        nothing_is_left_at(lists, at, ts, upto - 1);
        let rest = lists[upto - 1].skip(at[upto - 1]);
        assert(at[upto - 1] == lists[upto - 1].len());
        filter_of_later(rest, ts);
        assert(left_at(lists, at, ts, upto) =~= Seq::empty());
    }
}

/// The samples of a time in all lists, one list after the other.
pub open spec fn all_at(lists: Seq<Seq<Metrics>>, ts: u64) -> Seq<Metrics>
    decreases lists.len(),
{
    if lists.len() == 0 {
        Seq::empty()
    } else {
        all_at(lists.drop_last(), ts) + lists.last().filter(at_time(ts))
    }
}

proof fn all_are_left_at(lists: Seq<Seq<Metrics>>, ts: u64, upto: int)
    requires
        0 <= upto <= lists.len(),
    ensures
        left_at(lists, at_start(lists), ts, upto) == all_at(lists.take(upto), ts),
    decreases upto,
{
    if upto > 0 {
        all_are_left_at(lists, ts, upto - 1);
        assert(lists.take(upto).drop_last() =~= lists.take(upto - 1));
        assert(lists.take(upto).last() == lists[upto - 1]);
        assert(lists[upto - 1].skip(0) =~= lists[upto - 1]);
    } else {
        assert(lists.take(0) =~= Seq::empty());
    }
}

/// Samples of one time from different lists stand in the order of the lists, and those of one list
/// in their own order. With them being sorted by time, that leaves no other order.
pub proof fn zipping_is_stable(lists: Seq<Seq<Metrics>>, ts: u64)
    requires
        forall|k: int| 0 <= k < lists.len() ==> sorted_by_time(#[trigger] lists[k]),
    ensures
        zipped(lists, at_start(lists)).filter(at_time(ts)) == all_at(lists, ts),
{
    let at = at_start(lists);
    assert forall|k: int| 0 <= k < lists.len() implies 0 <= #[trigger] at[k] <= lists[k].len()
        && sorted_by_time(lists[k]) by {}
    zipped_keeps_order_of_lists(lists, at, ts);
    all_are_left_at(lists, ts, lists.len() as int);
    assert(lists.take(lists.len() as int) =~= lists);
}

proof fn filter_joined(a: Seq<Metrics>, b: Seq<Metrics>, p: spec_fn(Metrics) -> bool)
    ensures
        (a + b).filter(p) == a.filter(p) + b.filter(p),
    decreases b.len(),
{
    reveal(Seq::filter);
    if b.len() == 0 {
        assert(a + b =~= a);
        assert(a.filter(p) + b.filter(p) =~= a.filter(p));
    } else {
        assert((a + b).drop_last() =~= a + b.drop_last());
        filter_joined(a, b.drop_last(), p);
        assert((a + b).filter(p) =~= a.filter(p) + b.filter(p));
    }
}

proof fn sample_goes_behind_its_like(samples: Seq<Metrics>, sample: Metrics, ts: u64)
    requires
        sorted_by_time(samples),
    ensures
        with_sample(samples, sample).filter(at_time(ts)) == if sample.ts == ts {
            samples.filter(at_time(ts)).push(sample)
        } else {
            samples.filter(at_time(ts))
        },
{
    event::slot_in_time_splits(samples, sample.ts);
    let at = event::slot_in_time(samples, sample.ts);
    let (a, b) = (samples.take(at), samples.skip(at));
    let p = at_time(ts);
    assert(samples =~= a + b);
    assert(with_sample(samples, sample) =~= a + (seq![sample] + b));
    filter_joined(a, b, p);
    filter_joined(a, seq![sample] + b, p);
    filter_front(sample, b, p);
    if sample.ts == ts {
        assert forall|i: int| 0 <= i < b.len() implies (#[trigger] b[i]).ts != ts by {
            assert(b[i] == samples[at + i]);
        }
        filter_of_later(b, ts);
        assert(a.filter(p) + (seq![sample] + b.filter(p)) =~= samples.filter(p).push(sample));
    }
}

/// Samples that are put in the order of their times keep the order they had among those of the same
/// time.
pub proof fn time_order_is_stable(samples: Seq<Metrics>, ts: u64)
    ensures
        in_time_order(samples).filter(at_time(ts)) == samples.filter(at_time(ts)),
    decreases samples.len(),
{
    reveal(Seq::filter);
    if samples.len() > 0 {
        let rest = samples.drop_last();
        time_order_is_stable(rest, ts);
        event::in_time_order_sorts(rest);
        sample_goes_behind_its_like(in_time_order(rest), samples.last(), ts);
    } else {
        assert(in_time_order(samples) =~= samples);
    }
}

} // verus!

//! Events: things that occur at points in time of a trace.
use crate::trace::error::Error;
use crate::trace::metrics::Metrics;
use vstd::prelude::*;

verus! {

/// Something that can occur any number of times in a trace.
#[derive(Debug, PartialEq, Eq, Hash)]
pub struct Event {
    pub id: u32,
    /// Sorted by time in every event that is made by `new` or `from_occurences`.
    pub occurences: Vec<Metrics>,
    pub name: String,
    pub description: String,
}

pub struct EventModel {
    pub id: u32,
    pub occurences: Seq<Metrics>,
    pub name: Seq<char>,
    pub description: Seq<char>,
}

/// The samples stand in the order of their times.
pub open spec fn sorted_by_time(samples: Seq<Metrics>) -> bool {
    forall|i: int, j: int| 0 <= i < j < samples.len() ==> #[trigger] samples[i].ts <= #[trigger] samples[j].ts
}

/// How many of the first samples are not later than `ts`: where a sample of that time goes.
pub open spec fn slot_in_time(samples: Seq<Metrics>, ts: u64) -> int
    decreases samples.len(),
{
    if samples.len() == 0 {
        0
    } else if samples.last().ts <= ts {
        samples.len() as int
    } else {
        slot_in_time(samples.drop_last(), ts)
    }
}

/// The samples with one more, behind all those that are not later.
pub open spec fn with_sample(samples: Seq<Metrics>, sample: Metrics) -> Seq<Metrics> {
    samples.insert(slot_in_time(samples, sample.ts), sample)
}

/// What `slot_in_time` finds in sorted samples.
pub proof fn slot_in_time_splits(samples: Seq<Metrics>, ts: u64)
    requires
        sorted_by_time(samples),
    ensures
        0 <= slot_in_time(samples, ts) <= samples.len(),
        forall|i: int| 0 <= i < slot_in_time(samples, ts) ==> #[trigger] samples[i].ts <= ts,
        forall|i: int| slot_in_time(samples, ts) <= i < samples.len() ==> #[trigger] samples[i].ts > ts,
    decreases samples.len(),
{
    if samples.len() > 0 && samples.last().ts > ts {
        let rest = samples.drop_last();
        assert(forall|i: int| 0 <= i < rest.len() ==> rest[i] == samples[i]);
        slot_in_time_splits(rest, ts);
        assert forall|i: int| 0 <= i < slot_in_time(samples, ts) implies #[trigger] samples[i].ts
            <= ts by {
            assert(rest[i] == samples[i]);
        }
        assert forall|i: int|
            slot_in_time(samples, ts) <= i < samples.len() implies #[trigger] samples[i].ts > ts by {
            if i < rest.len() {
                assert(rest[i] == samples[i]);
            }
        }
    }
}

/// A sample added to sorted samples leaves them sorted, and takes none away.
pub proof fn with_sample_keeps_order(samples: Seq<Metrics>, sample: Metrics)
    requires
        sorted_by_time(samples),
    ensures
        sorted_by_time(with_sample(samples, sample)),
        with_sample(samples, sample).to_multiset() == samples.to_multiset().insert(sample),
{
    slot_in_time_splits(samples, sample.ts);
    let at = slot_in_time(samples, sample.ts);
    let after = with_sample(samples, sample);
    after.to_multiset_ensures();
    assert(after[at] == sample);
    assert(after.remove(at) =~= samples);
    assert(after.to_multiset().remove(sample).insert(sample) =~= after.to_multiset());
    assert forall|i: int, j: int| 0 <= i < j < after.len() implies #[trigger] after[i].ts
        <= #[trigger] after[j].ts by {
        if i < at {
            assert(after[i] == samples[i]);
        } else if i > at {
            assert(after[i] == samples[i - 1]);
        }
        if j < at {
            assert(after[j] == samples[j]);
        } else if j > at {
            assert(after[j] == samples[j - 1]);
        }
    }
}

/// The samples in the order of their times; those of one time keep their order.
pub open spec fn in_time_order(samples: Seq<Metrics>) -> Seq<Metrics>
    decreases samples.len(),
{
    if samples.len() == 0 {
        Seq::empty()
    } else {
        with_sample(in_time_order(samples.drop_last()), samples.last())
    }
}

/// Putting samples in the order of their times sorts them, and neither loses nor adds any.
pub proof fn in_time_order_sorts(samples: Seq<Metrics>)
    ensures
        sorted_by_time(in_time_order(samples)),
        in_time_order(samples).to_multiset() == samples.to_multiset(),
        in_time_order(samples).len() == samples.len(),
    decreases samples.len(),
{
    samples.to_multiset_ensures();
    in_time_order(samples).to_multiset_ensures();
    if samples.len() > 0 {
        let rest = samples.drop_last();
        in_time_order_sorts(rest);
        with_sample_keeps_order(in_time_order(rest), samples.last());
        slot_in_time_splits(in_time_order(rest), samples.last().ts);
        rest.to_multiset_ensures();
        assert(rest.push(samples.last()) =~= samples);
    } else {
        assert(in_time_order(samples) =~= samples);
    }
}

impl View for Event {
    type V = EventModel;

    open spec fn view(&self) -> EventModel {
        EventModel {
            id: self.id,
            occurences: self.occurences@,
            name: self.name@,
            description: self.description@,
        }
    }
}

/// The models of a list of events.
pub open spec fn event_models(events: Seq<Event>) -> Seq<EventModel> {
    Seq::new(events.len(), |i: int| events[i]@)
}

/// The first event with the given id.
pub open spec fn first_with_id(events: Seq<EventModel>, id: u32) -> Option<EventModel>
    decreases events.len(),
{
    if events.len() == 0 {
        None
    } else if events[0].id == id {
        Some(events[0])
    } else {
        first_with_id(events.drop_first(), id)
    }
}

impl Event {
    pub fn new(id: u32, name: String, description: String) -> (result: Self)
        ensures
            result@ == (EventModel {
                id,
                occurences: Seq::empty(),
                name: name@,
                description: description@,
            }),
            sorted_by_time(result@.occurences),
    {
        let result = Self { id, occurences: Vec::new(), name, description };
        assert(result@.occurences =~= Seq::empty());
        result
    }

    /// The event with the given occurences, which must be sorted by time.
    pub fn from_occurences(
        id: u32,
        name: String,
        description: String,
        occurences: Vec<Metrics>,
    ) -> (result: Result<Self, Error>)
        ensures
            match result {
                Ok(event) => {
                    &&& sorted_by_time(occurences@)
                    &&& event@ == (EventModel {
                        id,
                        occurences: occurences@,
                        name: name@,
                        description: description@,
                    })
                },
                Err(error) => !sorted_by_time(occurences@) && error == Error::NotSorted,
            },
    {
        let mut i: usize = 1;
        while i < occurences.len()
            invariant
                1 <= i,
                occurences.len() > 0 ==> i <= occurences.len(),
                sorted_by_time(occurences@.take(if i <= occurences.len() { i as int } else { 0 })),
            decreases occurences.len() - i,
        {
            if occurences[i].ts < occurences[i - 1].ts {
                assert(occurences@[i - 1].ts > occurences@[i as int].ts);
                return Err(Error::NotSorted);
            }
            proof {
                let longer = occurences@.take(i + 1);
                let shorter = occurences@.take(i as int);
                assert forall|a: int, b: int| 0 <= a < b < longer.len() implies #[trigger] longer[a].ts
                    <= #[trigger] longer[b].ts by {
                    assert(longer[a] == shorter[a]);
                    if b < i {
                        assert(longer[b] == shorter[b]);
                    } else {
                        assert(shorter[i - 1].ts <= longer[b].ts);
                    }
                }
            }
            i += 1;
        }
        assert(occurences.len() > 0 ==> occurences@.take(i as int) =~= occurences@);
        Ok(Self { id, occurences, name, description })
    }

    /// Adds an occurence where it belongs in time, behind those of the same time.
    pub fn add_occurence(&mut self, occurence: Metrics)
        requires
            sorted_by_time(old(self).occurences@),
        ensures
            final(self)@ == (EventModel {
                occurences: with_sample(old(self).occurences@, occurence),
                ..old(self)@
            }),
            sorted_by_time(final(self).occurences@),
    {
        let ghost before = self.occurences@;
        let mut low: usize = 0;
        let mut high: usize = self.occurences.len();
        proof {
            slot_in_time_splits(before, occurence.ts);
        }
        while low < high
            invariant
                before == self.occurences@,
                sorted_by_time(before),
                0 <= low <= slot_in_time(before, occurence.ts) <= high <= before.len(),
                forall|i: int|
                    0 <= i < slot_in_time(before, occurence.ts) ==> #[trigger] before[i].ts
                        <= occurence.ts,
                forall|i: int|
                    slot_in_time(before, occurence.ts) <= i < before.len()
                        ==> #[trigger] before[i].ts > occurence.ts,
            decreases high - low,
        {
            let mid: usize = low + (high - low) / 2;
            if self.occurences[mid].ts <= occurence.ts {
                assert(before[mid as int].ts <= occurence.ts);
                low = mid + 1;
            } else {
                assert(before[mid as int].ts > occurence.ts);
                high = mid;
            }
        }
        self.occurences.insert(low, occurence);
        proof {
            with_sample_keeps_order(before, occurence);
        }
    }

    pub fn occurences(&self) -> (result: &[Metrics])
        ensures
            result@ == self@.occurences,
    {
        self.occurences.as_slice()
    }
}

impl Clone for Event {
    fn clone(&self) -> (result: Self)
        ensures
            result@ == self@,
    {
        let occurences = self.occurences.clone();
        assert(occurences@ =~= self.occurences@);
        Event {
            id: self.id,
            occurences,
            name: self.name.clone(),
            description: self.description.clone(),
        }
    }
}

/// Copies of the events.
pub fn clone_events(events: &Vec<Event>) -> (result: Vec<Event>)
    ensures
        event_models(result@) == event_models(events@),
{
    let mut copy: Vec<Event> = Vec::new();
    let mut i: usize = 0;
    while i < events.len()
        invariant
            i <= events.len(),
            copy.len() == i,
            forall|k: int| 0 <= k < i ==> copy@[k]@ == events@[k]@,
        decreases events.len() - i,
    {
        copy.push(events[i].clone());
        i += 1;
    }
    assert(event_models(copy@) =~= event_models(events@));
    copy
}

/// The samples in the order of their times; those of one time keep their order.
pub fn sort_by_time(samples: &Vec<Metrics>) -> (result: Vec<Metrics>)
    ensures
        result@ == in_time_order(samples@),
        sorted_by_time(result@),
{
    let mut sorted = Event::new(0, String::new(), String::new());
    let mut i: usize = 0;
    while i < samples.len()
        invariant
            i <= samples.len(),
            sorted.occurences@ == in_time_order(samples@.take(i as int)),
            sorted_by_time(sorted.occurences@),
        decreases samples.len() - i,
    {
        sorted.add_occurence(samples[i]);
        proof {
            let longer = samples@.take(i + 1);
            assert(longer.drop_last() =~= samples@.take(i as int));
        }
        i += 1;
    }
    assert(samples@.take(i as int) =~= samples@);
    sorted.occurences
}

} // verus!

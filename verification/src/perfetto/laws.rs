//! What a reader of the packets sees.
use crate::perfetto::converter::{
    all_event_packets, begun_slice, before_notes, chunks_packets, closed_slice, closing_packets,
    ended_slice, event_packets, frame_packets, header_packets, notes, nothing_shown, pause_packets,
    stepped, trace_packets, ConverterModel, OpenModel, Shown, PAUSE_BLOCK_NAME,
};
use crate::perfetto::intern::{
    converted, converted_entries, converted_list, iid_of, news, noting_name, text_place_is_first,
    with_text, Noting,
};
use crate::perfetto::packet::{
    ChildTracksOrdering, DataModel, DebugModel, DebugValue, EventType, NameModel, PacketModel,
};
use crate::trace::annotation::AnnotationModel;
use crate::trace::event::EventModel;
use crate::trace::frame::{ends_fit, FrameModel, StoredModel};
use crate::trace::record::TraceModel;
use crate::trace::metrics::MetricsRange;
use vstd::prelude::*;

verus! {

/// A slice that has begun: its name, its annotations, and since when.
#[verifier::ext_equal]
pub struct Running {
    pub name: Option<NameModel>,
    pub notes: Seq<DebugModel>,
    pub since: u64,
}

/// A slice that has ended.
#[verifier::ext_equal]
pub struct Past {
    pub name: Option<NameModel>,
    pub notes: Seq<DebugModel>,
    pub since: u64,
    pub until: u64,
    /// How many slices it lies in.
    pub depth: nat,
}

/// The running slices after a packet: a beginning adds one, an end takes off the innermost.
pub open spec fn running_after(running: Seq<Running>, packet: PacketModel) -> Seq<Running> {
    match packet.data {
        DataModel::TrackEvent(event) => match event.event_type {
            EventType::SliceBegin => running.push(
                Running {
                    name: event.name_field,
                    notes: event.debug_annotations,
                    since: packet.timestamp,
                },
            ),
            EventType::SliceEnd => running.drop_last(),
            EventType::Instant => running,
        },
        DataModel::TrackDescriptor(_) => running,
    }
}

/// The running slices after packets, one after the other.
pub open spec fn running_after_all(running: Seq<Running>, packets: Seq<PacketModel>) -> Seq<Running>
    decreases packets.len(),
{
    if packets.len() == 0 {
        running
    } else {
        running_after(running_after_all(running, packets.drop_last()), packets.last())
    }
}

/// The slices that end with packets, in the order in which they do.
pub open spec fn past_after_all(running: Seq<Running>, packets: Seq<PacketModel>) -> Seq<Past>
    decreases packets.len(),
{
    if packets.len() == 0 {
        Seq::empty()
    } else {
        let before = running_after_all(running, packets.drop_last());
        past_after_all(running, packets.drop_last()) + ended_by(before, packets.last())
    }
}

/// The slice that ends with a packet.
pub open spec fn ended_by(running: Seq<Running>, packet: PacketModel) -> Seq<Past> {
    match packet.data {
        DataModel::TrackEvent(event) if event.event_type is SliceEnd => {
            let slice = running.last();
            seq![
                Past {
                    name: slice.name,
                    notes: slice.notes,
                    since: slice.since,
                    until: packet.timestamp,
                    depth: (running.len() - 1) as nat,
                },
            ]
        },
        _ => Seq::empty(),
    }
}

proof fn running_joined(running: Seq<Running>, a: Seq<PacketModel>, b: Seq<PacketModel>)
    ensures
        running_after_all(running, a + b) == running_after_all(running_after_all(running, a), b),
        past_after_all(running, a + b) == past_after_all(running, a) + past_after_all(
            running_after_all(running, a),
            b,
        ),
    decreases b.len(),
{
    if b.len() == 0 {
        assert(a + b =~= a);
        assert(past_after_all(running, a) + Seq::<Past>::empty() =~= past_after_all(running, a));
    } else {
        assert((a + b).drop_last() =~= a + b.drop_last());
        running_joined(running, a, b.drop_last());
        let mid = running_after_all(running, a);
        assert(past_after_all(running, a + b) =~= past_after_all(running, a) + past_after_all(
            mid,
            b,
        ));
    }
}

proof fn running_one(running: Seq<Running>, packet: PacketModel)
    ensures
        running_after_all(running, seq![packet]) == running_after(running, packet),
        past_after_all(running, seq![packet]) == ended_by(running, packet),
{
    reveal_with_fuel(running_after_all, 2);
    reveal_with_fuel(past_after_all, 2);
    assert(seq![packet].drop_last() =~= Seq::empty());
    assert(Seq::<Past>::empty() + ended_by(running, packet) =~= ended_by(running, packet));
}

/// The names and annotations of the running slices are those of the slices that are to be open,
/// from the outside in.
pub open spec fn runs(running: Seq<Running>, open: Seq<(u64, Seq<DebugModel>)>) -> bool {
    &&& running.len() == open.len()
    &&& forall|i: int|
        0 <= i < open.len() ==> (#[trigger] running[i]).name == Some(NameModel::NameIid(open[i].0))
            && running[i].notes == open[i].1
}

/// Only since when they run may differ.
pub open spec fn alike(a: Seq<Running>, b: Seq<Running>) -> bool {
    &&& a.len() == b.len()
    &&& forall|i: int|
        0 <= i < a.len() ==> (#[trigger] a[i]).name == b[i].name && a[i].notes == b[i].notes
}

proof fn ends_take_all(running: Seq<Running>, packets: Seq<PacketModel>)
    requires
        packets.len() <= running.len(),
        forall|i: int|
            0 <= i < packets.len() ==> match (#[trigger] packets[i]).data {
                DataModel::TrackEvent(event) => event.event_type is SliceEnd,
                DataModel::TrackDescriptor(_) => false,
            },
    ensures
        running_after_all(running, packets) == running.take(running.len() - packets.len()),
    decreases packets.len(),
{
    if packets.len() == 0 {
        assert(running.take(running.len() as int) =~= running);
    } else {
        let front = packets.drop_last();
        assert forall|i: int| 0 <= i < front.len() implies match (#[trigger] front[i]).data {
            DataModel::TrackEvent(event) => event.event_type is SliceEnd,
            DataModel::TrackDescriptor(_) => false,
        } by {
            assert(front[i] == packets[i]);
        }
        ends_take_all(running, front);
        assert(packets.last() == packets[packets.len() - 1]);
        assert(running.take(running.len() - front.len()).drop_last() =~= running.take(
            running.len() - packets.len(),
        ));
    }
}

proof fn beginnings_add_all(
    running: Seq<Running>,
    packets: Seq<PacketModel>,
    open: Seq<(u64, Seq<DebugModel>)>,
)
    requires
        running.len() == 0,
        packets.len() <= open.len(),
        forall|i: int|
            0 <= i < packets.len() ==> match (#[trigger] packets[i]).data {
                DataModel::TrackEvent(event) => event.event_type is SliceBegin && event.name_field
                    == Some(NameModel::NameIid(open[i].0)) && event.debug_annotations == open[i].1,
                DataModel::TrackDescriptor(_) => false,
            },
    ensures
        runs(running_after_all(running, packets), open.take(packets.len() as int)),
    decreases packets.len(),
{
    if packets.len() > 0 {
        let front = packets.drop_last();
        assert forall|i: int| 0 <= i < front.len() implies match (#[trigger] front[i]).data {
            DataModel::TrackEvent(event) => event.event_type is SliceBegin && event.name_field
                == Some(NameModel::NameIid(open[i].0)) && event.debug_annotations == open[i].1,
            DataModel::TrackDescriptor(_) => false,
        } by {
            assert(front[i] == packets[i]);
        }
        beginnings_add_all(running, front, open);
        let n = front.len() as int;
        assert(packets.last() == packets[n]);
        let before = running_after_all(running, front);
        let after = running_after_all(running, packets);
        assert forall|i: int| 0 <= i <= n implies (#[trigger] after[i]).name == Some(
            NameModel::NameIid(open.take(n + 1)[i].0),
        ) && after[i].notes == open.take(n + 1)[i].1 by {
            if i < n {
                assert(after[i] == before[i]);
                assert(open.take(n)[i] == open[i]);
            }
        }
    }
}

/// Behind the packets of a gap, the slices that run are those that ran before it, in the same order
/// from the outside in, with their names and annotations. None runs after the first half of the
/// packets, which are ends at the start of the gap; the second half begins the open slices anew at
/// its end, the outermost first.
pub proof fn gap_goes_on_with_same_slices(
    pause: MetricsRange,
    shown: Shown,
    running: Seq<Running>,
)
    requires
        pause.fits(),
        runs(running, shown.open),
    ensures
        ({
            let packets = pause_packets(true, pause, shown).0;
            let after = running_after_all(running, packets);
            let n = shown.open.len() as int;
            &&& packets.len() == 2 * n
            &&& running_after_all(running, packets.take(n)).len() == 0
            &&& alike(after, running)
            &&& runs(after, shown.open)
            &&& forall|i: int| 0 <= i < n ==> (#[trigger] after[i]).since == pause.start.ts
                + pause.ts_incr
            &&& forall|i: int| 0 <= i < n ==> (#[trigger] packets[i]).timestamp == pause.start.ts
            &&& forall|i: int| 0 <= i < 2 * n ==> (#[trigger] packets[i]).interned_data is None
            &&& forall|i: int|
                n <= i < 2 * n ==> match (#[trigger] packets[i]).data {
                    DataModel::TrackEvent(event) => {
                        &&& event.event_type is SliceBegin
                        &&& event.name_field == Some(NameModel::NameIid(shown.open[i - n].0))
                        &&& event.debug_annotations == shown.open[i - n].1
                    },
                    DataModel::TrackDescriptor(_) => false,
                }
            &&& pause_packets(true, pause, shown).1 == shown
        }),
{
    let packets = pause_packets(true, pause, shown).0;
    let n = shown.open.len() as int;
    let (a, b) = (packets.take(n), packets.skip(n));
    assert(packets =~= a + b);
    ends_take_all(running, a);
    let none = running_after_all(running, a);
    assert(none =~= Seq::empty());
    running_joined(running, a, b);
    assert forall|i: int| 0 <= i < n implies #[trigger] b[i] == packets[n + i] by {}
    beginnings_add_all(none, b, shown.open);
    assert(shown.open.take(n) =~= shown.open);
    beginnings_since(none, b, (pause.start.ts + pause.ts_incr) as u64);
}

proof fn beginnings_since(running: Seq<Running>, packets: Seq<PacketModel>, time: u64)
    requires
        running.len() == 0,
        forall|i: int|
            0 <= i < packets.len() ==> (#[trigger] packets[i]).timestamp == time
                && match packets[i].data {
                DataModel::TrackEvent(event) => event.event_type is SliceBegin,
                DataModel::TrackDescriptor(_) => false,
            },
    ensures
        forall|i: int|
            0 <= i < running_after_all(running, packets).len() ==> (#[trigger] running_after_all(
                running,
                packets,
            )[i]).since == time,
    decreases packets.len(),
{
    if packets.len() > 0 {
        let front = packets.drop_last();
        assert forall|i: int| 0 <= i < front.len() implies (#[trigger] front[i]).timestamp == time
            && match front[i].data {
            DataModel::TrackEvent(event) => event.event_type is SliceBegin,
            DataModel::TrackDescriptor(_) => false,
        } by {
            assert(front[i] == packets[i]);
        }
        beginnings_since(running, front, time);
        let before = running_after_all(running, front);
        let after = running_after_all(running, packets);
        assert(packets.last() == packets[packets.len() - 1]);
        assert forall|i: int| 0 <= i < after.len() implies (#[trigger] after[i]).since == time by {
            if i < before.len() {
                assert(after[i] == before[i]);
            }
        }
    }
}

/// A block leaves the running slices as they are, and is a slice in them that lasts as long as the
/// pause.
pub proof fn block_is_a_slice(pause: MetricsRange, shown: Shown, running: Seq<Running>)
    requires
        pause.fits(),
    ensures
        ({
            let packets = pause_packets(false, pause, shown).0;
            let past = past_after_all(running, packets);
            &&& running_after_all(running, packets) == running
            &&& past.len() == 1
            &&& past[0].since == pause.start.ts
            &&& past[0].until == pause.start.ts + pause.ts_incr
            &&& past[0].depth == running.len()
            &&& past[0].notes.len() == 0
        }),
{
    let packets = pause_packets(false, pause, shown).0;
    assert(packets =~= seq![packets[0]] + seq![packets[1]]);
    running_joined(running, seq![packets[0]], seq![packets[1]]);
    running_one(running, packets[0]);
    let mid = running_after(running, packets[0]);
    running_one(mid, packets[1]);
    assert(mid.drop_last() =~= running);
    assert(past_after_all(running, packets) =~= ended_by(mid, packets[1]));
}

/// Behind the packets of a frame, the slices that run are those that ran before it, in the same
/// order, with their names and annotations.
pub proof fn frame_leaves_same_slices(
    gaps: bool,
    frame: FrameModel,
    shown: Shown,
    running: Seq<Running>,
)
    requires
        ends_fit(frame),
        runs(running, shown.open),
    ensures
        alike(running_after_all(running, frame_packets(gaps, frame, shown).0), running),
        runs(
            running_after_all(running, frame_packets(gaps, frame, shown).0),
            frame_packets(gaps, frame, shown).1.open,
        ),
    decreases frame, 0nat,
{
    reveal_with_fuel(frame_packets, 2);
    let (begin, opened) = begun_slice(frame, shown);
    let (inner, after) = chunks_packets(gaps, frame.chunks, opened);
    let end = ended_slice(frame);
    running_one(running, begin);
    let now = running_after(running, begin);
    assert(runs(now, opened.open)) by {
        assert forall|i: int| 0 <= i < now.len() implies (#[trigger] now[i]).name == Some(
            NameModel::NameIid(opened.open[i].0),
        ) && now[i].notes == opened.open[i].1 by {
            if i < running.len() {
                assert(now[i] == running[i]);
            }
        }
    }
    chunks_leave_same_slices(gaps, frame.chunks, opened, now);
    let then = running_after_all(now, inner);
    running_joined(running, seq![begin], inner);
    running_joined(running, seq![begin] + inner, seq![end]);
    running_one(then, end);
    let last = then.drop_last();
    assert forall|i: int| 0 <= i < last.len() implies (#[trigger] last[i]).name == running[i].name
        && last[i].notes == running[i].notes by {
        assert(last[i] == then[i]);
        assert(then[i].name == now[i].name);
        assert(now[i] == running[i]);
    }
    assert forall|i: int| 0 <= i < last.len() implies (#[trigger] last[i]).name == Some(
        NameModel::NameIid(after.open.drop_last()[i].0),
    ) && last[i].notes == after.open.drop_last()[i].1 by {
        assert(last[i] == then[i]);
    }
}

proof fn chunks_leave_same_slices(
    gaps: bool,
    chunks: Seq<StoredModel>,
    shown: Shown,
    running: Seq<Running>,
)
    requires
        forall|i: int|
            0 <= i < chunks.len() ==> match #[trigger] chunks[i] {
                StoredModel::Frame(child) => ends_fit(child),
                StoredModel::Pause(pause) => pause.fits(),
            },
        runs(running, shown.open),
    ensures
        alike(running_after_all(running, chunks_packets(gaps, chunks, shown).0), running),
        runs(
            running_after_all(running, chunks_packets(gaps, chunks, shown).0),
            chunks_packets(gaps, chunks, shown).1.open,
        ),
    decreases chunks, chunks.len(),
{
    reveal_with_fuel(chunks_packets, 2);
    if chunks.len() > 0 {
        let (first, mid) = match chunks[0] {
            StoredModel::Frame(child) => frame_packets(gaps, child, shown),
            StoredModel::Pause(pause) => pause_packets(gaps, pause, shown),
        };
        match chunks[0] {
            StoredModel::Frame(child) => {
                frame_leaves_same_slices(gaps, child, shown, running);
            },
            StoredModel::Pause(pause) => {
                if gaps {
                    gap_goes_on_with_same_slices(pause, shown, running);
                } else {
                    block_is_a_slice(pause, shown, running);
                }
            },
        }
        let now = running_after_all(running, first);
        let left = chunks.drop_first();
        assert forall|i: int| 0 <= i < left.len() implies match #[trigger] left[i] {
            StoredModel::Frame(child) => ends_fit(child),
            StoredModel::Pause(pause) => pause.fits(),
        } by {
            assert(left[i] == chunks[i + 1]);
        }
        chunks_leave_same_slices(gaps, left, mid, now);
        let rest = chunks_packets(gaps, left, mid).0;
        running_joined(running, first, rest);
        let then = running_after_all(now, rest);
        assert forall|i: int| 0 <= i < then.len() implies (#[trigger] then[i]).name
            == running[i].name && then[i].notes == running[i].notes by {
            assert(then[i].name == now[i].name);
            assert(now[i].name == running[i].name);
        }
    }
}

/// The number stands for the text: texts are numbered from one on.
pub open spec fn numbered(table: Seq<Seq<char>>, iid: u64, text: Seq<char>) -> bool {
    exists|k: int| 0 <= k < table.len() && #[trigger] table[k] == text && iid == (k + 1) as u64
}

/// The one table is the beginning of the other.
pub open spec fn begins(shorter: Seq<Seq<char>>, longer: Seq<Seq<char>>) -> bool {
    &&& shorter.len() <= longer.len()
    &&& forall|k: int| 0 <= k < shorter.len() ==> #[trigger] longer[k] == shorter[k]
}

/// A reader who knows the texts of one table, and is told the pairs, knows those of the other: the
/// pairs are the texts that are new, with their numbers.
pub open spec fn teaches(
    before: Seq<Seq<char>>,
    pairs: Seq<(u64, Seq<char>)>,
    after: Seq<Seq<char>>,
) -> bool {
    &&& begins(before, after)
    &&& after.len() == before.len() + pairs.len()
    &&& forall|k: int|
        0 <= k < pairs.len() ==> (#[trigger] pairs[k]).0 == (before.len() + k + 1) as u64
            && pairs[k].1 == after[before.len() + k]
}

/// No text is in the table twice.
pub open spec fn told_once(table: Seq<Seq<char>>) -> bool {
    table.no_duplicates()
}

proof fn numbered_stays(shorter: Seq<Seq<char>>, longer: Seq<Seq<char>>, iid: u64, text: Seq<char>)
    requires
        begins(shorter, longer),
        numbered(shorter, iid, text),
    ensures
        numbered(longer, iid, text),
{
    let k = choose|k: int|
        0 <= k < shorter.len() && #[trigger] shorter[k] == text && iid == (k + 1) as u64;
    assert(longer[k] == text);
}

/// Interning a text gives it a number that a reader can look up, and tells the reader of texts that
/// are new, once.
pub proof fn interning_teaches(table: Seq<Seq<char>>, text: Seq<char>)
    ensures
        numbered(with_text(table, text), iid_of(with_text(table, text), text) as u64, text),
        teaches(table, news(table, text), with_text(table, text)),
        told_once(table) ==> told_once(with_text(table, text)),
{
    let after = with_text(table, text);
    text_place_is_first(after, text);
    assert(after.contains(text)) by {
        if !table.contains(text) {
            assert(after[table.len() as int] == text);
        }
    }
    let k = iid_of(after, text) - 1;
    assert(after[k] == text);
    if told_once(table) && !table.contains(text) {
        assert forall|i: int, j: int| 0 <= i < after.len() && 0 <= j < after.len() && i != j implies after[i]
            != after[j] by {
            if i == table.len() {
                assert(table.contains(table[j]));
            } else if j == table.len() {
                assert(table.contains(table[i]));
            }
        }
    }
}

/// The annotation of a packet has the name.
pub open spec fn has_name(names: Seq<Seq<char>>, shown: DebugModel, name: Seq<char>) -> bool {
    match shown.name_iid {
        Some(iid) => numbered(names, iid, name),
        None => false,
    }
}

/// The annotation of a packet says what the annotation of a frame does, to a reader who knows the
/// names and the values.
pub open spec fn says(
    names: Seq<Seq<char>>,
    values: Seq<Seq<char>>,
    shown: DebugModel,
    annotation: AnnotationModel,
) -> bool
    decreases annotation,
{
    match annotation {
        AnnotationModel::Bool(b) => shown.value == Some(DebugValue::BoolValue(b))
            && shown.dict_entries.len() == 0 && shown.array_values.len() == 0,
        AnnotationModel::Uint64(i) => shown.value == Some(DebugValue::UintValue(i))
            && shown.dict_entries.len() == 0 && shown.array_values.len() == 0,
        AnnotationModel::Int64(i) => shown.value == Some(DebugValue::IntValue(i))
            && shown.dict_entries.len() == 0 && shown.array_values.len() == 0,
        AnnotationModel::Double(d) => shown.value == Some(DebugValue::DoubleValue(d))
            && shown.dict_entries.len() == 0 && shown.array_values.len() == 0,
        AnnotationModel::Pointer(p) => shown.value == Some(DebugValue::PointerValue(p))
            && shown.dict_entries.len() == 0 && shown.array_values.len() == 0,
        AnnotationModel::String(s) => {
            &&& shown.value matches Some(DebugValue::StringValueIid(iid)) && numbered(
                values,
                iid,
                s,
            )
            &&& shown.dict_entries.len() == 0 && shown.array_values.len() == 0
        },
        AnnotationModel::Array(list) => {
            &&& shown.value is None && shown.dict_entries.len() == 0
            &&& shown.array_values.len() == list.len()
            &&& forall|i: int|
                0 <= i < list.len() ==> says(
                    names,
                    values,
                    #[trigger] shown.array_values[i],
                    list[i],
                ) && shown.array_values[i].name_iid is None
        },
        AnnotationModel::Dict(entries) => {
            &&& shown.value is None && shown.array_values.len() == 0
            &&& shown.dict_entries.len() == entries.len()
            &&& forall|i: int|
                0 <= i < entries.len() ==> says(
                    names,
                    values,
                    shown.dict_entries[i],
                    (#[trigger] entries[i]).1,
                ) && has_name(names, shown.dict_entries[i], entries[i].0)
        },
    }
}

/// The annotations of a packet say what those of a frame do, name by name and in the same order.
pub open spec fn say_all(
    names: Seq<Seq<char>>,
    values: Seq<Seq<char>>,
    shown: Seq<DebugModel>,
    entries: Seq<(Seq<char>, AnnotationModel)>,
) -> bool {
    &&& shown.len() == entries.len()
    &&& forall|i: int|
        0 <= i < entries.len() ==> says(names, values, shown[i], (#[trigger] entries[i]).1)
            && has_name(names, shown[i], entries[i].0)
}

/// The same of annotations without names.
pub open spec fn say_list(
    names: Seq<Seq<char>>,
    values: Seq<Seq<char>>,
    shown: Seq<DebugModel>,
    list: Seq<AnnotationModel>,
) -> bool {
    &&& shown.len() == list.len()
    &&& forall|i: int|
        0 <= i < list.len() ==> says(names, values, #[trigger] shown[i], list[i])
            && shown[i].name_iid is None
}

proof fn says_of_list(
    names: Seq<Seq<char>>,
    values: Seq<Seq<char>>,
    shown: DebugModel,
    list: Seq<AnnotationModel>,
)
    ensures
        says(names, values, shown, AnnotationModel::Array(list)) <==> shown.value is None
            && shown.dict_entries.len() == 0 && say_list(names, values, shown.array_values, list),
{
    let whole = AnnotationModel::Array(list);
    if says(names, values, shown, whole) {
        assert forall|i: int| 0 <= i < list.len() implies says(
            names,
            values,
            #[trigger] shown.array_values[i],
            list[i],
        ) && shown.array_values[i].name_iid is None by {}
    }
}

proof fn says_of_entries(
    names: Seq<Seq<char>>,
    values: Seq<Seq<char>>,
    shown: DebugModel,
    entries: Seq<(Seq<char>, AnnotationModel)>,
)
    ensures
        says(names, values, shown, AnnotationModel::Dict(entries)) <==> shown.value is None
            && shown.array_values.len() == 0 && say_all(names, values, shown.dict_entries, entries),
{
    let whole = AnnotationModel::Dict(entries);
    if says(names, values, shown, whole) {
        assert forall|i: int| 0 <= i < entries.len() implies says(
            names,
            values,
            shown.dict_entries[i],
            (#[trigger] entries[i]).1,
        ) && has_name(names, shown.dict_entries[i], entries[i].0) by {}
    }
}

proof fn says_stays(
    names: Seq<Seq<char>>,
    values: Seq<Seq<char>>,
    more_names: Seq<Seq<char>>,
    more_values: Seq<Seq<char>>,
    shown: DebugModel,
    annotation: AnnotationModel,
)
    requires
        begins(names, more_names),
        begins(values, more_values),
        says(names, values, shown, annotation),
    ensures
        says(more_names, more_values, shown, annotation),
    decreases annotation,
{
    match annotation {
        AnnotationModel::String(s) => {
            if let Some(DebugValue::StringValueIid(iid)) = shown.value {
                numbered_stays(values, more_values, iid, s);
            }
        },
        AnnotationModel::Array(list) => {
            let parts = shown.array_values;
            says_of_list(names, values, shown, list);
            says_of_list(more_names, more_values, shown, list);
            assert forall|i: int| 0 <= i < list.len() implies says(
                more_names,
                more_values,
                #[trigger] parts[i],
                list[i],
            ) && parts[i].name_iid is None by {
                says_stays(names, values, more_names, more_values, parts[i], list[i]);
            }
        },
        AnnotationModel::Dict(entries) => {
            let parts = shown.dict_entries;
            says_of_entries(names, values, shown, entries);
            says_of_entries(more_names, more_values, shown, entries);
            assert forall|i: int| 0 <= i < entries.len() implies says(
                more_names,
                more_values,
                parts[i],
                (#[trigger] entries[i]).1,
            ) && has_name(more_names, parts[i], entries[i].0) by {
                says_stays(names, values, more_names, more_values, parts[i], entries[i].1);
                numbered_stays(names, more_names, parts[i].name_iid->0, entries[i].0);
            }
        },
        _ => {},
    }
}

/// What has been noted since: tables have only grown, and all that is new is introduced.
pub open spec fn noted_since(before: Noting, after: Noting) -> bool {
    &&& after.introduced.event_names == before.introduced.event_names
    &&& begins(before.names, after.names)
    &&& begins(before.values, after.values)
    &&& after.introduced.annotation_names.len() - before.introduced.annotation_names.len()
        == after.names.len() - before.names.len()
    &&& after.introduced.string_values.len() - before.introduced.string_values.len()
        == after.values.len() - before.values.len()
    &&& forall|k: int|
        0 <= k < before.introduced.annotation_names.len()
            ==> #[trigger] after.introduced.annotation_names[k]
            == before.introduced.annotation_names[k]
    &&& forall|k: int|
        0 <= k < before.introduced.string_values.len()
            ==> #[trigger] after.introduced.string_values[k] == before.introduced.string_values[k]
    &&& forall|k: int|
        before.introduced.annotation_names.len() <= k < after.introduced.annotation_names.len() ==> {
            let at = before.names.len() + k - before.introduced.annotation_names.len();
            (#[trigger] after.introduced.annotation_names[k]).0 == (at + 1) as u64
                && after.introduced.annotation_names[k].1 == after.names[at]
        }
    &&& forall|k: int|
        before.introduced.string_values.len() <= k < after.introduced.string_values.len() ==> {
            let at = before.values.len() + k - before.introduced.string_values.len();
            (#[trigger] after.introduced.string_values[k]).0 == (at + 1) as u64
                && after.introduced.string_values[k].1 == after.values[at]
        }
}

proof fn noted_in_turn(a: Noting, b: Noting, c: Noting)
    requires
        noted_since(a, b),
        noted_since(b, c),
    ensures
        noted_since(a, c),
{
    assert forall|k: int| 0 <= k < a.introduced.annotation_names.len() implies
        #[trigger] c.introduced.annotation_names[k] == a.introduced.annotation_names[k] by {
        assert(b.introduced.annotation_names[k] == a.introduced.annotation_names[k]);
    }
    assert forall|k: int| 0 <= k < a.introduced.string_values.len() implies
        #[trigger] c.introduced.string_values[k] == a.introduced.string_values[k] by {
        assert(b.introduced.string_values[k] == a.introduced.string_values[k]);
    }
    assert forall|k: int|
        a.introduced.annotation_names.len() <= k < c.introduced.annotation_names.len() implies {
        let at = a.names.len() + k - a.introduced.annotation_names.len();
        (#[trigger] c.introduced.annotation_names[k]).0 == (at + 1) as u64
            && c.introduced.annotation_names[k].1 == c.names[at]
    } by {
        if k < b.introduced.annotation_names.len() {
            assert(c.introduced.annotation_names[k] == b.introduced.annotation_names[k]);
            let at = a.names.len() + k - a.introduced.annotation_names.len();
            assert(c.names[at] == b.names[at]);
        }
    }
    assert forall|k: int|
        a.introduced.string_values.len() <= k < c.introduced.string_values.len() implies {
        let at = a.values.len() + k - a.introduced.string_values.len();
        (#[trigger] c.introduced.string_values[k]).0 == (at + 1) as u64
            && c.introduced.string_values[k].1 == c.values[at]
    } by {
        if k < b.introduced.string_values.len() {
            assert(c.introduced.string_values[k] == b.introduced.string_values[k]);
            let at = a.values.len() + k - a.introduced.string_values.len();
            assert(c.values[at] == b.values[at]);
        }
    }
}

/// An annotation in the form of packets says what it did, and what a reader needs to know for that
/// and did not yet is introduced.
pub proof fn converted_says(annotation: AnnotationModel, st: Noting)
    ensures
        ({
            let (shown, after) = converted(annotation, st);
            &&& says(after.names, after.values, shown, annotation)
            &&& shown.name_iid is None
            &&& noted_since(st, after)
        }),
    decreases annotation, 0nat,
{
    reveal_with_fuel(converted, 2);
    match annotation {
        AnnotationModel::String(s) => {
            interning_teaches(st.values, s);
        },
        AnnotationModel::Array(list) => {
            converted_list_says(list, st);
        },
        AnnotationModel::Dict(entries) => {
            converted_entries_say(entries, st);
        },
        _ => {},
    }
}

proof fn converted_list_says(list: Seq<AnnotationModel>, st: Noting)
    ensures
        ({
            let (shown, after) = converted_list(list, st);
            &&& say_list(after.names, after.values, shown, list)
            &&& noted_since(st, after)
        }),
    decreases list, list.len(),
{
    reveal_with_fuel(converted_list, 2);
    if list.len() > 0 {
        let (front, mid) = converted_list(list.drop_last(), st);
        let (value, after) = converted(list.last(), mid);
        converted_list_says(list.drop_last(), st);
        converted_says(list.last(), mid);
        noted_in_turn(st, mid, after);
        let shown = front.push(value);
        assert forall|i: int| 0 <= i < list.len() implies says(
            after.names,
            after.values,
            #[trigger] shown[i],
            list[i],
        ) && shown[i].name_iid is None by {
            if i < front.len() {
                assert(list.drop_last()[i] == list[i]);
                says_stays(mid.names, mid.values, after.names, after.values, front[i], list[i]);
            }
        }
    }
}

/// The annotations of a frame in the form of packets say what they did, and what a reader needs to
/// know for that and did not yet is introduced.
pub proof fn converted_entries_say(entries: Seq<(Seq<char>, AnnotationModel)>, st: Noting)
    ensures
        ({
            let (shown, after) = converted_entries(entries, st);
            &&& say_all(after.names, after.values, shown, entries)
            &&& noted_since(st, after)
        }),
    decreases entries, entries.len(),
{
    reveal_with_fuel(converted_entries, 2);
    if entries.len() > 0 {
        let (front, mid) = converted_entries(entries.drop_last(), st);
        let last = entries.last();
        let named = noting_name(mid, last.0);
        let (value, after) = converted(last.1, named);
        converted_entries_say(entries.drop_last(), st);
        interning_teaches(mid.names, last.0);
        assert(noted_since(mid, named));
        converted_says(last.1, named);
        noted_in_turn(st, mid, named);
        noted_in_turn(st, named, after);
        noted_in_turn(mid, named, after);
        let iid = iid_of(named.names, last.0) as u64;
        numbered_stays(named.names, after.names, iid, last.0);
        let full = DebugModel { name_iid: Some(iid), ..value };
        assert(says(after.names, after.values, full, last.1));
        let shown = front.push(full);
        assert forall|i: int| 0 <= i < entries.len() implies says(
            after.names,
            after.values,
            shown[i],
            (#[trigger] entries[i]).1,
        ) && has_name(after.names, shown[i], entries[i].0) by {
            if i < front.len() {
                assert(entries.drop_last()[i] == entries[i]);
                says_stays(mid.names, mid.values, after.names, after.values, front[i], entries[i].1);
                numbered_stays(mid.names, after.names, front[i].name_iid->0, entries[i].0);
            }
        }
    }
}

/// What a reader knows before a packet and after it: the packet introduces all texts that are new.
pub open spec fn packet_teaches(before: Shown, packet: PacketModel, after: Shown) -> bool {
    match packet.interned_data {
        Some(data) => {
            &&& teaches(before.event_names, data.event_names, after.event_names)
            &&& teaches(before.annotation_names, data.annotation_names, after.annotation_names)
            &&& teaches(before.annotation_values, data.string_values, after.annotation_values)
        },
        None => {
            &&& after.event_names == before.event_names
            &&& after.annotation_names == before.annotation_names
            &&& after.annotation_values == before.annotation_values
        },
    }
}

/// The packet that begins the slice of a frame: it comes when the frame starts, a reader can look up
/// the name of the frame's function and all that its annotations say, and it introduces for that
/// whatever is new.
pub proof fn slice_shows_its_frame(frame: FrameModel, shown: Shown)
    ensures
        ({
            let (packet, after) = begun_slice(frame, shown);
            &&& packet.timestamp == frame.metrics.start.ts
            &&& packet_teaches(shown, packet, after)
            &&& packet.data matches DataModel::TrackEvent(event) && {
                &&& event.event_type is SliceBegin
                &&& event.name_field matches Some(NameModel::NameIid(iid)) && numbered(
                    after.event_names,
                    iid,
                    frame.symbol.name,
                )
                &&& say_all(
                    after.annotation_names,
                    after.annotation_values,
                    event.debug_annotations,
                    if let Some(entries) = frame.annotations {
                        entries
                    } else {
                        Seq::empty()
                    },
                )
            }
            &&& after.open.len() == shown.open.len() + 1
            &&& after.open.drop_last() == shown.open
        }),
{
    let (packet, after) = begun_slice(frame, shown);
    interning_teaches(shown.event_names, frame.symbol.name);
    converted_entries_say(notes(frame), before_notes(shown, frame.symbol.name));
    assert(after.open.drop_last() =~= shown.open);
}

/// What is to be seen of a frame, call or pause, at some depth.
pub struct Due {
    pub name: Seq<char>,
    pub notes: Seq<(Seq<char>, AnnotationModel)>,
    pub since: int,
    pub until: int,
    pub depth: nat,
}

/// The slices that are due for a frame and all that is in it: of each call from its start to its
/// end, and of each pause; what is inside ends first.
pub open spec fn dues(frame: FrameModel, depth: nat) -> Seq<Due>
    decreases frame, 0nat,
{
    dues_among(frame.chunks, depth + 1).push(
        Due {
            name: frame.symbol.name,
            notes: if let Some(entries) = frame.annotations {
                entries
            } else {
                Seq::empty()
            },
            since: frame.metrics.start.ts as int,
            until: frame.metrics.start.ts + frame.metrics.ts_incr,
            depth,
        },
    )
}

/// The slices that are due for chunks, one after the other.
pub open spec fn dues_among(chunks: Seq<StoredModel>, depth: nat) -> Seq<Due>
    decreases chunks, chunks.len(),
{
    if chunks.len() == 0 {
        Seq::empty()
    } else {
        (match chunks[0] {
            StoredModel::Frame(child) => dues(child, depth),
            StoredModel::Pause(pause) => seq![
                Due {
                    name: "--pause--"@,
                    notes: Seq::empty(),
                    since: pause.start.ts as int,
                    until: pause.start.ts + pause.ts_incr,
                    depth,
                },
            ],
        }) + dues_among(chunks.drop_first(), depth)
    }
}

/// The slice that was seen is the one that is due.
pub open spec fn is_due(shown: Shown, past: Past, due: Due) -> bool {
    &&& past.since == due.since
    &&& past.until == due.until
    &&& past.depth == due.depth
    &&& past.name matches Some(NameModel::NameIid(iid)) && numbered(
        shown.event_names,
        iid,
        due.name,
    )
    &&& say_all(shown.annotation_names, shown.annotation_values, past.notes, due.notes)
}

/// All slices that were seen are those that are due.
pub open spec fn are_due(shown: Shown, past: Seq<Past>, due: Seq<Due>) -> bool {
    &&& past.len() == due.len()
    &&& forall|i: int| 0 <= i < past.len() ==> is_due(shown, #[trigger] past[i], due[i])
}

/// The tables have only grown.
pub open spec fn knows_more(before: Shown, after: Shown) -> bool {
    &&& begins(before.event_names, after.event_names)
    &&& begins(before.annotation_names, after.annotation_names)
    &&& begins(before.annotation_values, after.annotation_values)
}

proof fn say_all_stays(
    before: Shown,
    after: Shown,
    shown: Seq<DebugModel>,
    entries: Seq<(Seq<char>, AnnotationModel)>,
)
    requires
        knows_more(before, after),
        say_all(before.annotation_names, before.annotation_values, shown, entries),
    ensures
        say_all(after.annotation_names, after.annotation_values, shown, entries),
{
    assert forall|i: int| 0 <= i < entries.len() implies says(
        after.annotation_names,
        after.annotation_values,
        shown[i],
        (#[trigger] entries[i]).1,
    ) && has_name(after.annotation_names, shown[i], entries[i].0) by {
        says_stays(
            before.annotation_names,
            before.annotation_values,
            after.annotation_names,
            after.annotation_values,
            shown[i],
            entries[i].1,
        );
        numbered_stays(
            before.annotation_names,
            after.annotation_names,
            shown[i].name_iid->0,
            entries[i].0,
        );
    }
}

proof fn are_due_stays(before: Shown, after: Shown, past: Seq<Past>, due: Seq<Due>)
    requires
        knows_more(before, after),
        are_due(before, past, due),
    ensures
        are_due(after, past, due),
{
    assert forall|i: int| 0 <= i < past.len() implies is_due(after, #[trigger] past[i], due[i]) by {
        assert(is_due(before, past[i], due[i]));
        numbered_stays(
            before.event_names,
            after.event_names,
            past[i].name->0->NameIid_0,
            due[i].name,
        );
        say_all_stays(before, after, past[i].notes, due[i].notes);
    }
}

/// Where pauses are blocks, the slices that a reader sees among the packets of a frame are the frame,
/// all calls in it and all pauses: each with its name and annotations, from its start to its end,
/// nested as they are in the frame. In the end the slices run that ran before.
pub proof fn blocks_show_the_tree(frame: FrameModel, shown: Shown, running: Seq<Running>)
    requires
        ends_fit(frame),
    ensures
        ({
            let (packets, after) = frame_packets(false, frame, shown);
            &&& running_after_all(running, packets) == running
            &&& are_due(after, past_after_all(running, packets), dues(frame, running.len()))
            &&& knows_more(shown, after)
        }),
    decreases frame, 0nat,
{
    reveal_with_fuel(frame_packets, 2);
    reveal_with_fuel(dues, 2);
    let (begin, opened) = begun_slice(frame, shown);
    let (inner, after) = chunks_packets(false, frame.chunks, opened);
    let end = ended_slice(frame);
    slice_shows_its_frame(frame, shown);
    running_one(running, begin);
    let now = running_after(running, begin);
    blocks_show_chunks(frame.chunks, opened, now);
    running_joined(running, seq![begin], inner);
    running_joined(running, seq![begin] + inner, seq![end]);
    running_one(now, end);
    assert(now.drop_last() =~= running);
    let past = past_after_all(now, inner);
    let packets = frame_packets(false, frame, shown).0;
    let done = closed_slice(after);
    let all = past_after_all(running, packets);
    assert(ended_by(running, begin) =~= Seq::empty());
    assert(all =~= past + ended_by(now, end));
    let due = dues(frame, running.len());
    are_due_stays(after, done, past, dues_among(frame.chunks, running.len() + 1));
    assert forall|i: int| 0 <= i < all.len() implies is_due(done, #[trigger] all[i], due[i]) by {
        if i < past.len() {
            assert(all[i] == past[i]);
            assert(is_due(done, past[i], dues_among(frame.chunks, running.len() + 1)[i]));
        } else {
            assert(all[i] == ended_by(now, end)[0]);
            let iid = now.last().name->0->NameIid_0;
            numbered_stays(opened.event_names, done.event_names, iid, frame.symbol.name);
            say_all_stays(opened, done, now.last().notes, due[i].notes);
        }
    }
}

proof fn blocks_show_chunks(chunks: Seq<StoredModel>, shown: Shown, running: Seq<Running>)
    requires
        forall|i: int|
            0 <= i < chunks.len() ==> match #[trigger] chunks[i] {
                StoredModel::Frame(child) => ends_fit(child),
                StoredModel::Pause(pause) => pause.fits(),
            },
    ensures
        ({
            let (packets, after) = chunks_packets(false, chunks, shown);
            &&& running_after_all(running, packets) == running
            &&& are_due(after, past_after_all(running, packets), dues_among(chunks, running.len()))
            &&& knows_more(shown, after)
        }),
    decreases chunks, chunks.len(),
{
    reveal_with_fuel(chunks_packets, 2);
    reveal_with_fuel(dues_among, 2);
    if chunks.len() > 0 {
        let (first, mid) = match chunks[0] {
            StoredModel::Frame(child) => frame_packets(false, child, shown),
            StoredModel::Pause(pause) => pause_packets(false, pause, shown),
        };
        let due = match chunks[0] {
            StoredModel::Frame(child) => dues(child, running.len()),
            StoredModel::Pause(pause) => seq![
                Due {
                    name: "--pause--"@,
                    notes: Seq::empty(),
                    since: pause.start.ts as int,
                    until: pause.start.ts + pause.ts_incr,
                    depth: running.len(),
                },
            ],
        };
        match chunks[0] {
            StoredModel::Frame(child) => {
                blocks_show_the_tree(child, shown, running);
            },
            StoredModel::Pause(pause) => {
                block_is_a_slice(pause, shown, running);
                interning_teaches(shown.event_names, PAUSE_BLOCK_NAME@);
                assert(first =~= seq![first[0]] + seq![first[1]]);
                running_joined(running, seq![first[0]], seq![first[1]]);
                running_one(running, first[0]);
                let now = running_after(running, first[0]);
                running_one(now, first[1]);
                assert(past_after_all(running, first) =~= ended_by(now, first[1]));
                assert(is_due(mid, past_after_all(running, first)[0], due[0]));
            },
        }
        let left = chunks.drop_first();
        assert forall|i: int| 0 <= i < left.len() implies match #[trigger] left[i] {
            StoredModel::Frame(child) => ends_fit(child),
            StoredModel::Pause(pause) => pause.fits(),
        } by {
            assert(left[i] == chunks[i + 1]);
        }
        blocks_show_chunks(left, mid, running);
        let (rest, after) = chunks_packets(false, left, mid);
        running_joined(running, first, rest);
        let (a, b) = (past_after_all(running, first), past_after_all(running, rest));
        are_due_stays(mid, after, a, due);
        let all = past_after_all(running, first + rest);
        let dues_all = dues_among(chunks, running.len());
        assert(dues_all == due + dues_among(left, running.len()));
        assert forall|i: int| 0 <= i < all.len() implies is_due(
            after,
            #[trigger] all[i],
            dues_all[i],
        ) by {
            if i < a.len() {
                assert(all[i] == a[i]);
            } else {
                assert(all[i] == b[i - a.len()]);
                assert(is_due(after, b[i - a.len()], dues_among(left, running.len())[i - a.len()]));
            }
        }
    }
}

/// The packet is an event on the track, in the sequence.
pub open spec fn on_track(packet: PacketModel, sequence: u32, track: u64) -> bool {
    &&& packet.sequence_id == sequence
    &&& packet.sequence_flags is SeqNeedsIncrementalState
    &&& packet.data matches DataModel::TrackEvent(event) && event.track_uuid == track
}

/// The packet describes a track, and is the first of the sequence.
pub open spec fn describes(packet: PacketModel, sequence: u32, track: u64) -> bool {
    &&& packet.sequence_id == sequence
    &&& packet.sequence_flags is SeqIncrementalStateCleared
    &&& packet.first_packet_on_sequence == Some(true)
    &&& packet.previous_packet_dropped == Some(true)
    &&& packet.data matches DataModel::TrackDescriptor(descriptor) && descriptor.uuid == track
}

/// The track of the whole trace comes first, with one slice on it that lasts as long as the trace;
/// then the track of the calls, which lies under it, and below all others.
pub proof fn header_sets_up_tracks(root: FrameModel)
    requires
        root.metrics.fits(),
    ensures
        ({
            let header = header_packets(root);
            let past = past_after_all(Seq::empty(), header);
            &&& header.len() == 4
            &&& describes(header[0], 1, 10)
            &&& header[0].data matches DataModel::TrackDescriptor(track) && track.parent_uuid
                is None && track.static_name == "Process"@ && track.child_ordering == Some(
                ChildTracksOrdering::Explicit,
            )
            &&& on_track(header[1], 1, 10)
            &&& on_track(header[2], 1, 10)
            &&& past.len() == 1
            &&& past[0].name == Some(NameModel::Name("Overall Latency"@))
            &&& past[0].since == root.metrics.start.ts
            &&& past[0].until == root.metrics.start.ts + root.metrics.ts_incr
            &&& past[0].depth == 0
            &&& running_after_all(Seq::empty(), header).len() == 0
            &&& describes(header[3], 2, 20)
            &&& header[3].data matches DataModel::TrackDescriptor(track) && track.parent_uuid
                == Some(10u64) && track.static_name == "Trace"@ && track.sibling_order_rank == Some(
                i32::MAX,
            )
            &&& header[0].timestamp == root.metrics.start.ts
            &&& header[3].timestamp == root.metrics.start.ts
        }),
{
    let header = header_packets(root);
    let none = Seq::<Running>::empty();
    reveal_with_fuel(running_after_all, 5);
    reveal_with_fuel(past_after_all, 5);
    let c = header.drop_last();
    let b = c.drop_last();
    let a = b.drop_last();
    assert(a.drop_last() =~= Seq::empty());
    assert(c.last() == header[2] && b.last() == header[1] && a.last() == header[0]);
    assert(header.last() == header[3]);
    let running = running_after_all(none, b);
    assert(running =~= none.push(
        Running {
            name: Some(NameModel::Name("Overall Latency"@)),
            notes: Seq::empty(),
            since: root.metrics.start.ts,
        },
    ));
    assert(past_after_all(none, b) =~= Seq::empty());
    assert(past_after_all(none, header) =~= ended_by(running, header[2]));
    assert(running_after_all(none, header) =~= Seq::empty());
}

/// All packets of a frame are events on the track of the calls.
pub proof fn calls_stay_on_their_track(gaps: bool, frame: FrameModel, shown: Shown)
    ensures
        forall|i: int|
            0 <= i < frame_packets(gaps, frame, shown).0.len() ==> on_track(
                #[trigger] frame_packets(gaps, frame, shown).0[i],
                2,
                20,
            ),
    decreases frame, 0nat,
{
    reveal_with_fuel(frame_packets, 2);
    let (begin, opened) = begun_slice(frame, shown);
    let (inner, after) = chunks_packets(gaps, frame.chunks, opened);
    chunks_stay_on_their_track(gaps, frame.chunks, opened);
    let all = frame_packets(gaps, frame, shown).0;
    assert forall|i: int| 0 <= i < all.len() implies on_track(#[trigger] all[i], 2, 20) by {
        if i == 0 {
            assert(all[i] == begin);
        } else if i <= inner.len() {
            assert(all[i] == inner[i - 1]);
        } else {
            assert(all[i] == ended_slice(frame));
        }
    }
}

proof fn chunks_stay_on_their_track(gaps: bool, chunks: Seq<StoredModel>, shown: Shown)
    ensures
        forall|i: int|
            0 <= i < chunks_packets(gaps, chunks, shown).0.len() ==> on_track(
                #[trigger] chunks_packets(gaps, chunks, shown).0[i],
                2,
                20,
            ),
    decreases chunks, chunks.len(),
{
    reveal_with_fuel(chunks_packets, 2);
    if chunks.len() > 0 {
        let (first, mid) = match chunks[0] {
            StoredModel::Frame(child) => frame_packets(gaps, child, shown),
            StoredModel::Pause(pause) => pause_packets(gaps, pause, shown),
        };
        if let StoredModel::Frame(child) = chunks[0] {
            calls_stay_on_their_track(gaps, child, shown);
        }
        chunks_stay_on_their_track(gaps, chunks.drop_first(), mid);
        let rest = chunks_packets(gaps, chunks.drop_first(), mid).0;
        let all = chunks_packets(gaps, chunks, shown).0;
        assert(all == first + rest);
        assert forall|i: int| 0 <= i < all.len() implies on_track(#[trigger] all[i], 2, 20) by {
            if i < first.len() {
                assert(all[i] == first[i]);
            } else {
                assert(all[i] == rest[i - first.len()]);
            }
        }
    }
}

/// An event that occurs has a track of its own under that of the whole trace, with its name and
/// description, which comes before its occurences: one instant for each, at its time, that a reader
/// sees under the description. An event that never occurs has no packets.
pub proof fn events_show_their_occurences(event: EventModel)
    requires
        event.occurences.len() > 0 ==> event.id <= u32::MAX - 3,
    ensures
        ({
            let packets = event_packets(event);
            let n = event.occurences.len() as int;
            let sequence = packets[0].sequence_id;
            &&& n == 0 ==> packets.len() == 0
            &&& n > 0 ==> {
                &&& packets.len() == n + 1
                &&& sequence == event.id + 3
                &&& packets[0].timestamp == event.occurences[0].ts
                &&& packets[0].data matches DataModel::TrackDescriptor(track) && {
                    &&& describes(packets[0], sequence, track.uuid)
                    &&& track.uuid == event.id + 30
                    &&& track.parent_uuid == Some(10u64)
                    &&& track.static_name == event.name
                    &&& track.description == Some(event.description)
                    &&& track.sibling_order_rank matches Some(rank) && rank == event.id
                        - 0x8000_0000 && rank < i32::MAX
                    &&& packets[0].interned_data matches Some(data) && data.event_names == seq![
                        (1u64, event.description),
                    ]
                    &&& forall|i: int|
                        1 <= i <= n ==> {
                            &&& on_track(#[trigger] packets[i], sequence, track.uuid)
                            &&& packets[i].timestamp == event.occurences[i - 1].ts
                            &&& packets[i].data matches DataModel::TrackEvent(shown)
                                && shown.event_type is Instant && shown.name_field == Some(
                                NameModel::NameIid(1),
                            )
                        }
                }
            }
        }),
{
    let packets = event_packets(event);
    let n = event.occurences.len() as int;
    if n > 0 {
        assert(packets[0].interned_data->0.event_names =~= seq![(1u64, event.description)]);
        assert forall|i: int| 1 <= i <= n implies (#[trigger] packets[i]).timestamp
            == event.occurences[i - 1].ts by {}
    }
}

/// The packet ends a slice on the track of the calls, at the time at which the frame ends.
pub open spec fn ends_slice_of(packet: PacketModel, frame: FrameModel) -> bool {
    &&& on_track(packet, 2, 20)
    &&& packet.data matches DataModel::TrackEvent(event) && event.event_type is SliceEnd
    &&& packet.timestamp == frame.metrics.start.ts + frame.metrics.ts_incr
}

/// A conversion that is to stop ends the slice of the innermost open frame, whatever is left of it,
/// and leaves the others open.
pub proof fn stopping_ends_innermost_slice(m: ConverterModel)
    requires
        m.stack.len() > 0,
        m.stack.last().frame.metrics.fits(),
    ensures
        ({
            let (packets, after) = stepped(m, true);
            &&& packets.len() == 1
            &&& ends_slice_of(packets[0], m.stack.last().frame)
            &&& after.stack.len() == m.stack.len() - 1
            &&& forall|i: int|
                0 <= i < after.stack.len() ==> #[trigger] after.stack[i] == m.stack[i]
            &&& after.gaps == m.gaps
            &&& after.shown.event_names == m.shown.event_names
        }),
{
}

/// When a conversion stops, the slices of all open frames end, from the innermost to the outermost,
/// each at the time at which its frame ends.
pub proof fn stopping_ends_all_slices(stack: Seq<OpenModel>)
    requires
        forall|i: int| 0 <= i < stack.len() ==> (#[trigger] stack[i]).frame.metrics.fits(),
    ensures
        closing_packets(stack).len() == stack.len(),
        forall|i: int|
            0 <= i < stack.len() ==> ends_slice_of(
                #[trigger] closing_packets(stack)[i],
                stack[stack.len() - 1 - i].frame,
            ),
    decreases stack.len(),
{
    reveal_with_fuel(closing_packets, 2);
    if stack.len() > 0 {
        let rest = stack.drop_last();
        stopping_ends_all_slices(rest);
        let packets = closing_packets(stack);
        assert forall|i: int| 0 <= i < stack.len() implies ends_slice_of(
            #[trigger] packets[i],
            stack[stack.len() - 1 - i].frame,
        ) by {
            if i > 0 {
                assert(packets[i] == closing_packets(rest)[i - 1]);
                assert(rest[rest.len() - 1 - (i - 1)] == stack[stack.len() - 1 - i]);
            }
        }
    }
}

/// The packets of events come one after the other, none is left out.
pub proof fn events_come_in_turn(a: Seq<EventModel>, b: Seq<EventModel>, event: EventModel)
    ensures
        all_event_packets(a + b) == all_event_packets(a) + all_event_packets(b),
        all_event_packets(seq![event]) == event_packets(event),
    decreases b.len(),
{
    reveal_with_fuel(all_event_packets, 2);
    assert(seq![event].drop_last() =~= Seq::empty());
    assert(all_event_packets(seq![event]) =~= event_packets(event));
    if b.len() == 0 {
        assert(a + b =~= a);
        assert(all_event_packets(a) + all_event_packets(b) =~= all_event_packets(a));
    } else {
        assert((a + b).drop_last() =~= a + b.drop_last());
        events_come_in_turn(a, b.drop_last(), event);
        assert(all_event_packets(a + b) =~= all_event_packets(a) + all_event_packets(b));
    }
}

proof fn events_leave_slices(events: Seq<EventModel>, running: Seq<Running>)
    ensures
        running_after_all(running, all_event_packets(events)) == running,
        past_after_all(running, all_event_packets(events)).len() == 0,
    decreases events.len(),
{
    if events.len() > 0 {
        let front = all_event_packets(events.drop_last());
        let last = event_packets(events.last());
        events_leave_slices(events.drop_last(), running);
        running_joined(running, front, last);
        no_slices(running, last);
    }
}

proof fn no_slices(running: Seq<Running>, packets: Seq<PacketModel>)
    requires
        forall|i: int|
            0 <= i < packets.len() ==> match (#[trigger] packets[i]).data {
                DataModel::TrackEvent(event) => event.event_type is Instant,
                DataModel::TrackDescriptor(_) => true,
            },
    ensures
        running_after_all(running, packets) == running,
        past_after_all(running, packets).len() == 0,
    decreases packets.len(),
{
    if packets.len() > 0 {
        let front = packets.drop_last();
        assert forall|i: int| 0 <= i < front.len() implies match (#[trigger] front[i]).data {
            DataModel::TrackEvent(event) => event.event_type is Instant,
            DataModel::TrackDescriptor(_) => true,
        } by {
            assert(front[i] == packets[i]);
        }
        no_slices(running, front);
        assert(packets.last() == packets[packets.len() - 1]);
    }
}

/// Of a whole trace, a reader sees the slice of the trace and then, where pauses are blocks, the
/// slices of all calls and pauses, each ended; what comes behind them are the packets of the events.
pub proof fn trace_is_seen_whole(trace: TraceModel)
    requires
        ends_fit(trace.root),
    ensures
        ({
            let packets = trace_packets(false, trace);
            let past = past_after_all(Seq::empty(), packets);
            let after = frame_packets(false, trace.root, nothing_shown()).1;
            let events = all_event_packets(trace.events);
            &&& running_after_all(Seq::empty(), packets).len() == 0
            &&& past.len() == 1 + dues(trace.root, 0).len()
            &&& past[0].name == Some(NameModel::Name("Overall Latency"@))
            &&& are_due(after, past.drop_first(), dues(trace.root, 0))
            &&& events.len() <= packets.len()
            &&& packets.skip(packets.len() - events.len()) == events
        }),
{
    let none = Seq::<Running>::empty();
    let header = header_packets(trace.root);
    let calls = frame_packets(false, trace.root, nothing_shown()).0;
    let events = all_event_packets(trace.events);
    header_sets_up_tracks(trace.root);
    assert(running_after_all(none, header) =~= none);
    blocks_show_the_tree(trace.root, nothing_shown(), none);
    events_leave_slices(trace.events, none);
    running_joined(none, header, calls);
    running_joined(none, header + calls, events);
    let past = past_after_all(none, trace_packets(false, trace));
    assert(past.drop_first() =~= past_after_all(none, calls));
    let packets = trace_packets(false, trace);
    assert(packets.skip(packets.len() - events.len()) =~= events);
}

/// The same of gaps: in the end no slice runs.
pub proof fn gaps_end_all_slices(gaps: bool, trace: TraceModel)
    requires
        ends_fit(trace.root),
    ensures
        running_after_all(Seq::empty(), trace_packets(gaps, trace)).len() == 0,
{
    let none = Seq::<Running>::empty();
    let header = header_packets(trace.root);
    let calls = frame_packets(gaps, trace.root, nothing_shown()).0;
    header_sets_up_tracks(trace.root);
    assert(running_after_all(none, header) =~= none);
    frame_leaves_same_slices(gaps, trace.root, nothing_shown(), none);
    assert(running_after_all(none, calls) =~= none);
    events_leave_slices(trace.events, none);
    running_joined(none, header, calls);
    running_joined(none, header + calls, all_event_packets(trace.events));
}

/// The three kinds of texts that packets introduce.
pub enum Texts {
    Names,
    NoteNames,
    NoteValues,
}

/// The texts of a kind that a packet introduces, with their numbers.
pub open spec fn introduced(packet: PacketModel, kind: Texts) -> Seq<(u64, Seq<char>)> {
    match packet.interned_data {
        Some(data) => match kind {
            Texts::Names => data.event_names,
            Texts::NoteNames => data.annotation_names,
            Texts::NoteValues => data.string_values,
        },
        None => Seq::empty(),
    }
}

/// All texts of a kind that packets introduce, one packet after the other.
pub open spec fn all_introduced(packets: Seq<PacketModel>, kind: Texts) -> Seq<(u64, Seq<char>)>
    decreases packets.len(),
{
    if packets.len() == 0 {
        Seq::empty()
    } else {
        all_introduced(packets.drop_last(), kind) + introduced(packets.last(), kind)
    }
}

/// The texts of a kind that have been shown.
pub open spec fn shown_texts(shown: Shown, kind: Texts) -> Seq<Seq<char>> {
    match kind {
        Texts::Names => shown.event_names,
        Texts::NoteNames => shown.annotation_names,
        Texts::NoteValues => shown.annotation_values,
    }
}

proof fn introduced_joined(a: Seq<PacketModel>, b: Seq<PacketModel>, kind: Texts)
    ensures
        all_introduced(a + b, kind) == all_introduced(a, kind) + all_introduced(b, kind),
    decreases b.len(),
{
    if b.len() == 0 {
        assert(a + b =~= a);
        assert(all_introduced(a, kind) + all_introduced(b, kind) =~= all_introduced(a, kind));
    } else {
        assert((a + b).drop_last() =~= a + b.drop_last());
        introduced_joined(a, b.drop_last(), kind);
        assert(all_introduced(a + b, kind) =~= all_introduced(a, kind) + all_introduced(b, kind));
    }
}

proof fn introduced_by_one(packet: PacketModel, kind: Texts)
    ensures
        all_introduced(seq![packet], kind) == introduced(packet, kind),
{
    reveal_with_fuel(all_introduced, 2);
    assert(seq![packet].drop_last() =~= Seq::empty());
    assert(Seq::<(u64, Seq<char>)>::empty() + introduced(packet, kind) =~= introduced(packet, kind));
}

proof fn introduced_by_none(packets: Seq<PacketModel>, kind: Texts)
    requires
        forall|i: int| 0 <= i < packets.len() ==> (#[trigger] packets[i]).interned_data is None,
    ensures
        all_introduced(packets, kind).len() == 0,
    decreases packets.len(),
{
    if packets.len() > 0 {
        let front = packets.drop_last();
        assert forall|i: int| 0 <= i < front.len() implies (
        #[trigger] front[i]).interned_data is None by {
            assert(front[i] == packets[i]);
        }
        introduced_by_none(front, kind);
        assert(packets.last() == packets[packets.len() - 1]);
    }
}

proof fn teaches_in_turn(
    a: Seq<Seq<char>>,
    first: Seq<(u64, Seq<char>)>,
    b: Seq<Seq<char>>,
    second: Seq<(u64, Seq<char>)>,
    c: Seq<Seq<char>>,
)
    requires
        teaches(a, first, b),
        teaches(b, second, c),
    ensures
        teaches(a, first + second, c),
{
    let both = first + second;
    assert forall|k: int| 0 <= k < a.len() implies #[trigger] c[k] == a[k] by {
        assert(b[k] == a[k]);
    }
    assert forall|k: int| 0 <= k < both.len() implies (#[trigger] both[k]).0 == (a.len() + k
        + 1) as u64 && both[k].1 == c[a.len() + k] by {
        if k < first.len() {
            assert(both[k] == first[k]);
            assert(b[a.len() + k] == c[a.len() + k]);
        } else {
            assert(both[k] == second[k - first.len()]);
        }
    }
}

/// The packets of a frame tell a reader of all texts that come up in it and were not told before,
/// each once, with the numbers that they go by.
pub proof fn frame_tells_its_texts(
    gaps: bool,
    frame: FrameModel,
    shown: Shown,
    kind: Texts,
    running: Seq<Running>,
)
    requires
        ends_fit(frame),
        runs(running, shown.open),
    ensures
        teaches(
            shown_texts(shown, kind),
            all_introduced(frame_packets(gaps, frame, shown).0, kind),
            shown_texts(frame_packets(gaps, frame, shown).1, kind),
        ),
    decreases frame, 0nat,
{
    reveal_with_fuel(frame_packets, 2);
    let (begin, opened) = begun_slice(frame, shown);
    let (inner, after) = chunks_packets(gaps, frame.chunks, opened);
    let end = ended_slice(frame);
    slice_shows_its_frame(frame, shown);
    let now = running_after(running, begin);
    assert(runs(now, opened.open)) by {
        assert forall|i: int| 0 <= i < now.len() implies (#[trigger] now[i]).name == Some(
            NameModel::NameIid(opened.open[i].0),
        ) && now[i].notes == opened.open[i].1 by {
            if i < running.len() {
                assert(now[i] == running[i]);
            }
        }
    }
    chunks_tell_their_texts(gaps, frame.chunks, opened, kind, now);
    introduced_by_one(begin, kind);
    introduced_by_one(end, kind);
    introduced_joined(seq![begin], inner, kind);
    introduced_joined(seq![begin] + inner, seq![end], kind);
    teaches_in_turn(
        shown_texts(shown, kind),
        introduced(begin, kind),
        shown_texts(opened, kind),
        all_introduced(inner, kind),
        shown_texts(after, kind),
    );
    let told = introduced(begin, kind) + all_introduced(inner, kind);
    assert(told + introduced(end, kind) =~= told);
}

proof fn chunks_tell_their_texts(
    gaps: bool,
    chunks: Seq<StoredModel>,
    shown: Shown,
    kind: Texts,
    running: Seq<Running>,
)
    requires
        forall|i: int|
            0 <= i < chunks.len() ==> match #[trigger] chunks[i] {
                StoredModel::Frame(child) => ends_fit(child),
                StoredModel::Pause(pause) => pause.fits(),
            },
        runs(running, shown.open),
    ensures
        teaches(
            shown_texts(shown, kind),
            all_introduced(chunks_packets(gaps, chunks, shown).0, kind),
            shown_texts(chunks_packets(gaps, chunks, shown).1, kind),
        ),
    decreases chunks, chunks.len(),
{
    reveal_with_fuel(chunks_packets, 2);
    if chunks.len() > 0 {
        let (first, mid) = match chunks[0] {
            StoredModel::Frame(child) => frame_packets(gaps, child, shown),
            StoredModel::Pause(pause) => pause_packets(gaps, pause, shown),
        };
        let now = running_after_all(running, first);
        match chunks[0] {
            StoredModel::Frame(child) => {
                frame_tells_its_texts(gaps, child, shown, kind, running);
                frame_leaves_same_slices(gaps, child, shown, running);
            },
            StoredModel::Pause(pause) => {
                if gaps {
                    gap_goes_on_with_same_slices(pause, shown, running);
                    introduced_by_none(first, kind);
                } else {
                    block_is_a_slice(pause, shown, running);
                    interning_teaches(shown.event_names, PAUSE_BLOCK_NAME@);
                    introduced_by_one(first[0], kind);
                    introduced_by_one(first[1], kind);
                    assert(first =~= seq![first[0]] + seq![first[1]]);
                    introduced_joined(seq![first[0]], seq![first[1]], kind);
                    assert(all_introduced(first, kind) =~= introduced(first[0], kind));
                }
            },
        }
        let left = chunks.drop_first();
        assert forall|i: int| 0 <= i < left.len() implies match #[trigger] left[i] {
            StoredModel::Frame(child) => ends_fit(child),
            StoredModel::Pause(pause) => pause.fits(),
        } by {
            assert(left[i] == chunks[i + 1]);
        }
        chunks_tell_their_texts(gaps, left, mid, kind, now);
        let (rest, after) = chunks_packets(gaps, left, mid);
        introduced_joined(first, rest, kind);
        teaches_in_turn(
            shown_texts(shown, kind),
            all_introduced(first, kind),
            shown_texts(mid, kind),
            all_introduced(rest, kind),
            shown_texts(after, kind),
        );
    }
}

} // verus!

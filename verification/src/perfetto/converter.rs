//! Conversion of a trace to packets.
use crate::perfetto::intern::{
    converted_entries, iid_of, news, with_text, AnnotationTexts, InternedStrings, Noting,
};
use crate::perfetto::packet::{
    clone_annotations, create_slice_begin, create_slice_end, create_track, debug_models,
    event_packet, packet_models, slice_begin, slice_end, track_packet, ChildTracksOrdering, Data,
    DataModel, DebugAnnotation, DebugModel, EventType, Interned, InternedData, InternedModel,
    NameField, NameModel, PacketModel, SequenceFlags, TracePacket, TrackEvent, TrackEventModel,
    TrackModel,
};
use crate::perfetto::PauseRenderOption;
use crate::trace::annotation::AnnotationModel;
use crate::trace::event::{self, Event, EventModel};
use crate::trace::frame::{self, ends_fit, Frame, FrameModel, StoredChunk, StoredModel};
use crate::trace::metrics::MetricsRange;
use crate::trace::record::{Trace, TraceModel};
use vstd::prelude::*;

verus! {

pub const PAUSE_BLOCK_NAME: &'static str = "--pause--";

pub const GLOBAL_TRACK_ID: u64 = 10;

pub const GLOBAL_SEQUENCE_ID: u32 = 1;

pub const GLOBAL_TRACK_NAME: &'static str = "Process";

pub const OVERALL_SLICE_NAME: &'static str = "Overall Latency";

// These ids are arbitrary but must be used consistently.
pub const TRACE_TRACK_ID: u64 = 20;

pub const TRACE_SEQUENCE_ID: u32 = 2;

pub const TRACE_TRACK_NAME: &'static str = "Trace";

pub const ERROR_TRACK_ID_BASE: u64 = 30;

pub const ERROR_SEQUENCE_ID_BASE: u32 = 3;

/// What has been shown so far: the tables of texts, and the slices that are open.
#[verifier::ext_equal]
pub struct Shown {
    pub event_names: Seq<Seq<char>>,
    pub annotation_names: Seq<Seq<char>>,
    pub annotation_values: Seq<Seq<char>>,
    /// The numbers of the names of the open slices and their annotations, from the outside in.
    pub open: Seq<(u64, Seq<DebugModel>)>,
}

/// A frame whose slice is open, and the next of its chunks.
#[verifier::ext_equal]
pub struct OpenModel {
    pub frame: FrameModel,
    pub next: int,
}

#[verifier::ext_equal]
pub struct ConverterModel {
    pub trace: TraceModel,
    pub gaps: bool,
    pub shown: Shown,
    pub stack: Seq<OpenModel>,
}

/// The annotations of a frame; none are as good as an empty list.
pub open spec fn notes(frame: FrameModel) -> Seq<(Seq<char>, AnnotationModel)> {
    match frame.annotations {
        Some(entries) => entries,
        None => Seq::empty(),
    }
}

/// What is noted before the annotations of a frame: the name of its slice, where it is new.
pub open spec fn before_notes(shown: Shown, name: Seq<char>) -> Noting {
    Noting {
        names: shown.annotation_names,
        values: shown.annotation_values,
        introduced: InternedModel {
            event_names: news(shown.event_names, name),
            annotation_names: Seq::empty(),
            string_values: Seq::empty(),
        },
    }
}

/// The packet that begins the slice of a frame, and what has been shown after it.
pub open spec fn begun_slice(frame: FrameModel, shown: Shown) -> (PacketModel, Shown) {
    let name = frame.symbol.name;
    let event_names = with_text(shown.event_names, name);
    let iid = iid_of(event_names, name) as u64;
    let (annotations, noted) = converted_entries(notes(frame), before_notes(shown, name));
    (
        slice_begin(
            frame.metrics.start.ts,
            TRACE_SEQUENCE_ID,
            TRACE_TRACK_ID,
            NameModel::NameIid(iid),
            annotations,
            Some(noted.introduced),
        ),
        Shown {
            event_names,
            annotation_names: noted.names,
            annotation_values: noted.values,
            open: shown.open.push((iid, annotations)),
        },
    )
}

/// The packet that ends the slice of a frame.
pub open spec fn ended_slice(frame: FrameModel) -> PacketModel {
    slice_end(frame.metrics.spec_end().ts, TRACE_SEQUENCE_ID, TRACE_TRACK_ID)
}

pub open spec fn closed_slice(shown: Shown) -> Shown {
    Shown { open: shown.open.drop_last(), ..shown }
}

/// The packets for a pause, and what has been shown after them.
///
/// For a gap, all open slices end where the pause starts, and begin anew where it ends. Else the
/// pause is a slice of its own.
pub open spec fn pause_packets(gaps: bool, pause: MetricsRange, shown: Shown) -> (
    Seq<PacketModel>,
    Shown,
) {
    let (start, end) = (pause.start.ts, pause.spec_end().ts);
    if gaps {
        (
            Seq::new(
                shown.open.len(),
                |i: int| slice_end(start, TRACE_SEQUENCE_ID, TRACE_TRACK_ID),
            ) + Seq::new(
                shown.open.len(),
                |i: int|
                    slice_begin(
                        end,
                        TRACE_SEQUENCE_ID,
                        TRACE_TRACK_ID,
                        NameModel::NameIid(shown.open[i].0),
                        shown.open[i].1,
                        None,
                    ),
            ),
            shown,
        )
    } else {
        let name = PAUSE_BLOCK_NAME@;
        let event_names = with_text(shown.event_names, name);
        (
            seq![
                slice_begin(
                    start,
                    TRACE_SEQUENCE_ID,
                    TRACE_TRACK_ID,
                    NameModel::NameIid(iid_of(event_names, name) as u64),
                    Seq::empty(),
                    Some(
                        InternedModel {
                            event_names: news(shown.event_names, name),
                            annotation_names: Seq::empty(),
                            string_values: Seq::empty(),
                        },
                    ),
                ),
                slice_end(end, TRACE_SEQUENCE_ID, TRACE_TRACK_ID),
            ],
            Shown { event_names, ..shown },
        )
    }
}

/// The packets for a frame: the beginning of its slice, those for its chunks, the end.
pub open spec fn frame_packets(gaps: bool, frame: FrameModel, shown: Shown) -> (
    Seq<PacketModel>,
    Shown,
)
    decreases frame, 0nat,
{
    let (begin, opened) = begun_slice(frame, shown);
    let (inner, after) = chunks_packets(gaps, frame.chunks, opened);
    (seq![begin] + inner + seq![ended_slice(frame)], closed_slice(after))
}

/// The packets for chunks, one after the other.
pub open spec fn chunks_packets(gaps: bool, chunks: Seq<StoredModel>, shown: Shown) -> (
    Seq<PacketModel>,
    Shown,
)
    decreases chunks, chunks.len(),
{
    if chunks.len() == 0 {
        (Seq::empty(), shown)
    } else {
        let (first, mid) = match chunks[0] {
            StoredModel::Frame(child) => frame_packets(gaps, child, shown),
            StoredModel::Pause(pause) => pause_packets(gaps, pause, shown),
        };
        let (rest, after) = chunks_packets(gaps, chunks.drop_first(), mid);
        (first + rest, after)
    }
}

/// The packets that are left for the open frames.
pub open spec fn packets_left(gaps: bool, stack: Seq<OpenModel>, shown: Shown) -> Seq<PacketModel>
    decreases stack.len(),
{
    if stack.len() == 0 {
        Seq::empty()
    } else {
        let top = stack.last();
        let (inner, after) = chunks_packets(gaps, top.frame.chunks.skip(top.next), shown);
        inner + seq![ended_slice(top.frame)] + packets_left(
            gaps,
            stack.drop_last(),
            closed_slice(after),
        )
    }
}

/// The packets that close the open frames at once.
pub open spec fn closing_packets(stack: Seq<OpenModel>) -> Seq<PacketModel>
    decreases stack.len(),
{
    if stack.len() == 0 {
        Seq::empty()
    } else {
        seq![ended_slice(stack.last().frame)] + closing_packets(stack.drop_last())
    }
}

/// One step of the conversion: the next chunk of the innermost open frame, or its end where there
/// is no further chunk or the conversion is to stop.
pub open spec fn stepped(m: ConverterModel, stop: bool) -> (Seq<PacketModel>, ConverterModel) {
    let top = m.stack.last();
    if stop || top.next >= top.frame.chunks.len() {
        (
            seq![ended_slice(top.frame)],
            ConverterModel {
                shown: closed_slice(m.shown),
                stack: m.stack.drop_last(),
                ..m
            },
        )
    } else {
        let moved = m.stack.update(
            m.stack.len() - 1,
            OpenModel { next: top.next + 1, ..top },
        );
        match top.frame.chunks[top.next] {
            StoredModel::Frame(child) => {
                let (begin, shown) = begun_slice(child, m.shown);
                (
                    seq![begin],
                    ConverterModel {
                        shown,
                        stack: moved.push(OpenModel { frame: child, next: 0 }),
                        ..m
                    },
                )
            },
            StoredModel::Pause(pause) => {
                let (packets, shown) = pause_packets(m.gaps, pause, m.shown);
                (packets, ConverterModel { shown, stack: moved, ..m })
            },
        }
    }
}

/// The packets that come before all calls: the track of the whole trace with one slice, and the
/// track for the calls.
pub open spec fn header_packets(root: FrameModel) -> Seq<PacketModel> {
    let (start, end) = (root.metrics.start.ts, root.metrics.spec_end().ts);
    seq![
        track_packet(
            start,
            GLOBAL_SEQUENCE_ID,
            TrackModel {
                uuid: GLOBAL_TRACK_ID,
                parent_uuid: None,
                static_name: GLOBAL_TRACK_NAME@,
                description: None,
                child_ordering: Some(ChildTracksOrdering::Explicit),
                sibling_order_rank: None,
            },
        ),
        slice_begin(
            start,
            GLOBAL_SEQUENCE_ID,
            GLOBAL_TRACK_ID,
            NameModel::Name(OVERALL_SLICE_NAME@),
            Seq::empty(),
            None,
        ),
        slice_end(end, GLOBAL_SEQUENCE_ID, GLOBAL_TRACK_ID),
        track_packet(
            start,
            TRACE_SEQUENCE_ID,
            TrackModel {
                uuid: TRACE_TRACK_ID,
                parent_uuid: Some(GLOBAL_TRACK_ID),
                static_name: TRACE_TRACK_NAME@,
                description: None,
                child_ordering: None,
                sibling_order_rank: Some(i32::MAX),
            },
        ),
    ]
}

/// The rank of an event's track: ids in their order, moved down to the range of signed numbers.
pub open spec fn scaled_id(id: u32) -> i32 {
    (id - 0x8000_0000) as i32
}

/// Tracks of events stand in the order of the events' ids.
pub proof fn scaled_ids_keep_order(a: u32, b: u32)
    ensures
        a < b <==> scaled_id(a) < scaled_id(b),
        i32::MIN <= a - 0x8000_0000 <= i32::MAX,
{
}

pub open spec fn event_sequence(id: u32) -> u32 {
    (ERROR_SEQUENCE_ID_BASE + id) as u32
}

pub open spec fn event_track(id: u32) -> u64 {
    (ERROR_TRACK_ID_BASE + id) as u64
}

/// The packet for an occurence of an event.
pub open spec fn occurence_packet(id: u32, timestamp: u64) -> PacketModel {
    event_packet(
        timestamp,
        event_sequence(id),
        TrackEventModel {
            event_type: EventType::Instant,
            track_uuid: event_track(id),
            name_field: Some(NameModel::NameIid(1)),
            debug_annotations: Seq::empty(),
        },
        None,
    )
}

/// The packets for an event: a track of its own, then its occurences; none if it never occurs.
pub open spec fn event_packets(event: EventModel) -> Seq<PacketModel> {
    if event.occurences.len() == 0 {
        Seq::empty()
    } else {
        seq![
            PacketModel {
                interned_data: Some(
                    InternedModel {
                        event_names: seq![(1u64, event.description)],
                        annotation_names: Seq::empty(),
                        string_values: Seq::empty(),
                    },
                ),
                ..track_packet(
                    event.occurences[0].ts,
                    event_sequence(event.id),
                    TrackModel {
                        uuid: event_track(event.id),
                        parent_uuid: Some(GLOBAL_TRACK_ID),
                        static_name: event.name,
                        description: Some(event.description),
                        child_ordering: None,
                        sibling_order_rank: Some(scaled_id(event.id)),
                    },
                )
            },
        ] + Seq::new(
            event.occurences.len(),
            |i: int| occurence_packet(event.id, event.occurences[i].ts),
        )
    }
}

/// The packets for events, one after the other.
pub open spec fn all_event_packets(events: Seq<EventModel>) -> Seq<PacketModel>
    decreases events.len(),
{
    if events.len() == 0 {
        Seq::empty()
    } else {
        all_event_packets(events.drop_last()) + event_packets(events.last())
    }
}

/// Nothing has been shown yet.
pub open spec fn nothing_shown() -> Shown {
    Shown {
        event_names: Seq::empty(),
        annotation_names: Seq::empty(),
        annotation_values: Seq::empty(),
        open: Seq::empty(),
    }
}

/// All packets for a trace.
pub open spec fn trace_packets(gaps: bool, trace: TraceModel) -> Seq<PacketModel> {
    header_packets(trace.root) + frame_packets(gaps, trace.root, nothing_shown()).0
        + all_event_packets(trace.events)
}

/// The trace can be shown: its ranges end where samples can be held, and the ids of events leave
/// room for the numbers of their sequences.
pub open spec fn showable(trace: TraceModel) -> bool {
    &&& ends_fit(trace.root)
    &&& forall|i: int|
        0 <= i < trace.events.len() ==> (#[trigger] trace.events[i]).occurences.len() > 0
            ==> trace.events[i].id <= u32::MAX - ERROR_SEQUENCE_ID_BASE
}

/// The open frames and the open slices go together.
pub open spec fn balanced(m: ConverterModel) -> bool {
    &&& m.shown.open.len() == m.stack.len()
    &&& forall|i: int|
        0 <= i < m.stack.len() ==> 0 <= (#[trigger] m.stack[i]).next
            <= m.stack[i].frame.chunks.len() && ends_fit(m.stack[i].frame)
}

/// A step gives the first of the packets that were left, and leaves the others.
pub proof fn step_goes_on(m: ConverterModel)
    requires
        m.stack.len() > 0,
        0 <= m.stack.last().next <= m.stack.last().frame.chunks.len(),
    ensures
        ({
            let (packets, after) = stepped(m, false);
            packets + packets_left(m.gaps, after.stack, after.shown) == packets_left(
                m.gaps,
                m.stack,
                m.shown,
            )
        }),
{
    reveal_with_fuel(chunks_packets, 3);
    reveal_with_fuel(frame_packets, 3);
    let top = m.stack.last();
    let (packets, after) = stepped(m, false);
    let left = top.frame.chunks.skip(top.next);
    if top.next >= top.frame.chunks.len() {
        assert(left =~= Seq::empty());
        assert(packets + packets_left(m.gaps, after.stack, after.shown) =~= packets_left(
            m.gaps,
            m.stack,
            m.shown,
        ));
    } else {
        assert(left[0] == top.frame.chunks[top.next]);
        assert(left.drop_first() =~= top.frame.chunks.skip(top.next + 1));
        let moved = m.stack.update(m.stack.len() - 1, OpenModel { next: top.next + 1, ..top });
        assert(moved.drop_last() =~= m.stack.drop_last());
        match left[0] {
            StoredModel::Frame(child) => {
                assert(after.stack.drop_last() =~= moved);
                assert(child.chunks.skip(0) =~= child.chunks);
                let (begin, opened) = begun_slice(child, m.shown);
                let (inner, mid) = chunks_packets(m.gaps, child.chunks, opened);
                let (rest, done) = chunks_packets(
                    m.gaps,
                    left.drop_first(),
                    closed_slice(mid),
                );
                assert(chunks_packets(m.gaps, left, m.shown) == (
                    (seq![begin] + inner + seq![ended_slice(child)]) + rest,
                    done,
                ));
                assert(packets_left(m.gaps, moved, closed_slice(mid)) =~= rest + seq![
                    ended_slice(top.frame),
                ] + packets_left(m.gaps, m.stack.drop_last(), closed_slice(done)));
                assert(packets + packets_left(m.gaps, after.stack, after.shown)
                    =~= packets_left(m.gaps, m.stack, m.shown));
            },
            StoredModel::Pause(pause) => {
                assert(packets + packets_left(m.gaps, after.stack, after.shown)
                    =~= packets_left(m.gaps, m.stack, m.shown));
            },
        }
    }
}

/// A conversion that stops still ends all open slices, from the inside out.
pub proof fn stop_closes(m: ConverterModel)
    requires
        m.stack.len() > 0,
    ensures
        ({
            let (packets, after) = stepped(m, true);
            packets + closing_packets(after.stack) == closing_packets(m.stack)
        }),
{
}

/// One more slice is open after the beginning of a slice, one less after an end.
pub open spec fn slice_change(packet: PacketModel) -> int {
    match packet.data {
        DataModel::TrackEvent(event) => match event.event_type {
            EventType::SliceBegin => 1,
            EventType::SliceEnd => -1,
            EventType::Instant => 0,
        },
        DataModel::TrackDescriptor(_) => 0,
    }
}

/// How many slices more are open after the packets.
pub open spec fn slices_open(packets: Seq<PacketModel>) -> int
    decreases packets.len(),
{
    if packets.len() == 0 {
        0
    } else {
        slices_open(packets.drop_last()) + slice_change(packets.last())
    }
}

proof fn slices_open_appended(a: Seq<PacketModel>, b: Seq<PacketModel>)
    ensures
        slices_open(a + b) == slices_open(a) + slices_open(b),
    decreases b.len(),
{
    if b.len() == 0 {
        assert(a + b =~= a);
    } else {
        assert((a + b).drop_last() =~= a + b.drop_last());
        slices_open_appended(a, b.drop_last());
    }
}

proof fn slices_open_alike(packets: Seq<PacketModel>, change: int)
    requires
        forall|i: int| 0 <= i < packets.len() ==> slice_change(#[trigger] packets[i]) == change,
    ensures
        slices_open(packets) == packets.len() * change,
    decreases packets.len(),
{
    if packets.len() == 0 {
        assert(packets.len() * change == 0) by (nonlinear_arith)
            requires
                packets.len() == 0,
        ;
    } else {
        slices_open_alike(packets.drop_last(), change);
        let n = packets.len();
        assert((n - 1) * change + change == n * change) by (nonlinear_arith);
    }
}

/// The packets for a pause leave as many slices open as there were.
pub proof fn pause_slices_balance(gaps: bool, pause: MetricsRange, shown: Shown)
    ensures
        slices_open(pause_packets(gaps, pause, shown).0) == 0,
{
    let packets = pause_packets(gaps, pause, shown).0;
    if gaps {
        let n = shown.open.len() as int;
        assert(packets =~= packets.take(n) + packets.skip(n));
        slices_open_appended(packets.take(n), packets.skip(n));
        slices_open_alike(packets.take(n), -1);
        slices_open_alike(packets.skip(n), 1);
    } else {
        reveal_with_fuel(slices_open, 3);
        assert(packets.drop_last() =~= seq![packets[0]]);
        assert(seq![packets[0]].drop_last() =~= Seq::empty());
    }
}

/// As many slices are open in the packets as there are open frames, whether or not the conversion
/// is to stop.
pub proof fn step_keeps_slices(m: ConverterModel, stop: bool)
    requires
        m.stack.len() > 0,
    ensures
        slices_open(stepped(m, stop).0) == stepped(m, stop).1.stack.len() - m.stack.len(),
{
    let top = m.stack.last();
    let (packets, after) = stepped(m, stop);
    if stop || top.next >= top.frame.chunks.len() {
        reveal_with_fuel(slices_open, 2);
    } else {
        match top.frame.chunks[top.next] {
            StoredModel::Frame(child) => {
                reveal_with_fuel(slices_open, 2);
            },
            StoredModel::Pause(pause) => {
                pause_slices_balance(m.gaps, pause, m.shown);
            },
        }
    }
}

/// Every slice that begins among the packets for a frame ends among them.
pub proof fn frame_slices_balance(gaps: bool, frame: FrameModel, shown: Shown)
    ensures
        slices_open(frame_packets(gaps, frame, shown).0) == 0,
    decreases frame, 0nat,
{
    reveal_with_fuel(slices_open, 2);
    reveal_with_fuel(frame_packets, 2);
    let (begin, opened) = begun_slice(frame, shown);
    let (inner, after) = chunks_packets(gaps, frame.chunks, opened);
    chunks_slices_balance(gaps, frame.chunks, opened);
    assert(seq![begin].drop_last() =~= Seq::empty());
    assert(seq![ended_slice(frame)].drop_last() =~= Seq::empty());
    slices_open_appended(seq![begin], inner);
    slices_open_appended(seq![begin] + inner, seq![ended_slice(frame)]);
}

proof fn chunks_slices_balance(gaps: bool, chunks: Seq<StoredModel>, shown: Shown)
    ensures
        slices_open(chunks_packets(gaps, chunks, shown).0) == 0,
    decreases chunks, chunks.len(),
{
    reveal_with_fuel(chunks_packets, 2);
    if chunks.len() > 0 {
        let (first, mid) = match chunks[0] {
            StoredModel::Frame(child) => frame_packets(gaps, child, shown),
            StoredModel::Pause(pause) => pause_packets(gaps, pause, shown),
        };
        match chunks[0] {
            StoredModel::Frame(child) => {
                frame_slices_balance(gaps, child, shown);
            },
            StoredModel::Pause(pause) => {
                pause_slices_balance(gaps, pause, shown);
            },
        }
        chunks_slices_balance(gaps, chunks.drop_first(), mid);
        slices_open_appended(first, chunks_packets(gaps, chunks.drop_first(), mid).0);
    }
}

/// Never, as the packets come, have more slices ended than began, but for so many that were open
/// before.
pub open spec fn never_below(packets: Seq<PacketModel>, before: nat) -> bool {
    forall|k: int|
        0 <= k <= packets.len() ==> slices_open(#[trigger] packets.take(k)) + before >= 0
}

proof fn never_below_joined(a: Seq<PacketModel>, b: Seq<PacketModel>, before: nat, between: nat)
    requires
        never_below(a, before),
        never_below(b, between),
        slices_open(a) + before == between,
    ensures
        never_below(a + b, before),
{
    let all = a + b;
    assert forall|k: int| 0 <= k <= all.len() implies slices_open(#[trigger] all.take(k)) + before
        >= 0 by {
        if k <= a.len() {
            assert(all.take(k) =~= a.take(k));
        } else {
            let rest = b.take(k - a.len());
            assert(all.take(k) =~= a + rest);
            slices_open_appended(a, rest);
        }
    }
}

proof fn single_never_below(packet: PacketModel, before: nat)
    requires
        slice_change(packet) + before >= 0,
    ensures
        never_below(seq![packet], before),
        slices_open(seq![packet]) == slice_change(packet),
{
    reveal_with_fuel(slices_open, 2);
    let one = seq![packet];
    assert(one.drop_last() =~= Seq::empty());
    assert forall|k: int| 0 <= k <= one.len() implies slices_open(#[trigger] one.take(k)) + before
        >= 0 by {
        if k == 0 {
            assert(one.take(k) =~= Seq::empty());
        } else {
            assert(one.take(k) =~= one);
        }
    }
}

proof fn alike_never_below(packets: Seq<PacketModel>, change: int, before: nat)
    requires
        change == 1 || change == -1 && packets.len() <= before,
        forall|i: int| 0 <= i < packets.len() ==> slice_change(#[trigger] packets[i]) == change,
    ensures
        never_below(packets, before),
{
    assert forall|k: int| 0 <= k <= packets.len() implies slices_open(#[trigger] packets.take(k))
        + before >= 0 by {
        slices_open_alike(packets.take(k), change);
    }
}

/// A pause ends no more slices than are open. Where it is a gap, none is open after its first
/// packets, which end all of them where the pause starts; the others come where it ends.
pub proof fn pause_slices_nest(gaps: bool, pause: MetricsRange, shown: Shown)
    ensures
        never_below(pause_packets(gaps, pause, shown).0, shown.open.len()),
        pause_packets(gaps, pause, shown).1.open == shown.open,
        gaps ==> {
            let packets = pause_packets(gaps, pause, shown).0;
            let n = shown.open.len() as int;
            &&& packets.len() == 2 * n
            &&& slices_open(packets.take(n)) + n == 0
            &&& forall|i: int| 0 <= i < n ==> (#[trigger] packets[i]).timestamp == pause.start.ts
            &&& forall|i: int|
                n <= i < 2 * n ==> (#[trigger] packets[i]).timestamp == pause.spec_end().ts
        },
{
    let packets = pause_packets(gaps, pause, shown).0;
    let n = shown.open.len();
    if gaps {
        let (a, b) = (packets.take(n as int), packets.skip(n as int));
        assert(packets =~= a + b);
        alike_never_below(a, -1, n);
        alike_never_below(b, 1, 0);
        slices_open_alike(a, -1);
        never_below_joined(a, b, n, 0);
    } else {
        single_never_below(packets[0], n);
        single_never_below(packets[1], n + 1);
        assert(packets =~= seq![packets[0]] + seq![packets[1]]);
        never_below_joined(seq![packets[0]], seq![packets[1]], n, n + 1);
    }
}

/// Never, as the packets for a frame come, has a slice ended that did not begin, but for those that
/// were open before; and in the end just these are open again.
pub proof fn frame_slices_nest(gaps: bool, frame: FrameModel, shown: Shown)
    ensures
        never_below(frame_packets(gaps, frame, shown).0, shown.open.len()),
        frame_packets(gaps, frame, shown).1.open == shown.open,
    decreases frame, 0nat,
{
    reveal_with_fuel(frame_packets, 2);
    let n = shown.open.len();
    let (begin, opened) = begun_slice(frame, shown);
    let (inner, after) = chunks_packets(gaps, frame.chunks, opened);
    let end = ended_slice(frame);
    chunks_slices_nest(gaps, frame.chunks, opened);
    chunks_slices_balance(gaps, frame.chunks, opened);
    single_never_below(begin, n);
    single_never_below(end, n + 1);
    never_below_joined(seq![begin], inner, n, n + 1);
    slices_open_appended(seq![begin], inner);
    never_below_joined(seq![begin] + inner, seq![end], n, n + 1);
    assert(opened.open.drop_last() =~= shown.open);
}

proof fn chunks_slices_nest(gaps: bool, chunks: Seq<StoredModel>, shown: Shown)
    ensures
        never_below(chunks_packets(gaps, chunks, shown).0, shown.open.len()),
        chunks_packets(gaps, chunks, shown).1.open == shown.open,
    decreases chunks, chunks.len(),
{
    reveal_with_fuel(chunks_packets, 2);
    let n = shown.open.len();
    if chunks.len() == 0 {
        assert forall|k: int|
            0 <= k <= chunks_packets(gaps, chunks, shown).0.len() implies slices_open(
            #[trigger] chunks_packets(gaps, chunks, shown).0.take(k),
        ) + n >= 0 by {
            assert(chunks_packets(gaps, chunks, shown).0.take(k) =~= Seq::empty());
        }
    } else {
        let (first, mid) = match chunks[0] {
            StoredModel::Frame(child) => frame_packets(gaps, child, shown),
            StoredModel::Pause(pause) => pause_packets(gaps, pause, shown),
        };
        match chunks[0] {
            StoredModel::Frame(child) => {
                frame_slices_nest(gaps, child, shown);
                frame_slices_balance(gaps, child, shown);
            },
            StoredModel::Pause(pause) => {
                pause_slices_nest(gaps, pause, shown);
                pause_slices_balance(gaps, pause, shown);
            },
        }
        chunks_slices_nest(gaps, chunks.drop_first(), mid);
        never_below_joined(first, chunks_packets(gaps, chunks.drop_first(), mid).0, n, n);
    }
}

/// How many slices more are open at a time than before the packets.
pub open spec fn slices_at(packets: Seq<PacketModel>, time: u64) -> int
    decreases packets.len(),
{
    if packets.len() == 0 {
        0
    } else {
        slices_at(packets.drop_last(), time) + if packets.last().timestamp <= time {
            slice_change(packets.last())
        } else {
            0
        }
    }
}

proof fn slices_at_appended(a: Seq<PacketModel>, b: Seq<PacketModel>, time: u64)
    ensures
        slices_at(a + b, time) == slices_at(a, time) + slices_at(b, time),
    decreases b.len(),
{
    if b.len() == 0 {
        assert(a + b =~= a);
    } else {
        assert((a + b).drop_last() =~= a + b.drop_last());
        slices_at_appended(a, b.drop_last(), time);
    }
}

/// Packets up to a time all count, packets behind it do not.
proof fn slices_at_bounds(packets: Seq<PacketModel>, from: u64, to: u64, time: u64)
    requires
        timed(packets, from, to),
    ensures
        to <= time ==> slices_at(packets, time) == slices_open(packets),
        time < from ==> slices_at(packets, time) == 0,
    decreases packets.len(),
{
    if packets.len() > 0 {
        let rest = packets.drop_last();
        assert forall|i: int| 0 <= i < rest.len() implies from <= (#[trigger] rest[i]).timestamp
            && rest[i].timestamp <= to by {
            assert(rest[i] == packets[i]);
        }
        assert(timed(rest, from, to)) by {
            assert forall|i: int, j: int| 0 <= i < j < rest.len() implies (
            #[trigger] rest[i]).timestamp <= (#[trigger] rest[j]).timestamp by {
                assert(rest[i] == packets[i] && rest[j] == packets[j]);
            }
        }
        slices_at_bounds(rest, from, to, time);
        assert(packets.last() == packets[packets.len() - 1]);
    }
}

/// The pause is one of the frame or of a call in it.
pub open spec fn holds_pause(frame: FrameModel, pause: MetricsRange) -> bool
    decreases frame,
{
    exists|i: int|
        0 <= i < frame.chunks.len() && match #[trigger] frame.chunks[i] {
            StoredModel::Frame(child) => holds_pause(child, pause),
            StoredModel::Pause(range) => range == pause,
        }
}

/// Where pauses are gaps, no slice is open from the start of a pause up to its end. Of the slices
/// that were open before, all have ended.
pub proof fn no_slice_in_gap(frame: FrameModel, shown: Shown, pause: MetricsRange, time: u64)
    requires
        frame.deeply_ordered(),
        holds_pause(frame, pause),
        pause.start.ts <= time < pause.spec_end().ts,
    ensures
        shown.open.len() + slices_at(frame_packets(true, frame, shown).0, time) == 0,
        frame.metrics.start.ts <= pause.start.ts,
        pause.spec_end().ts <= frame.metrics.spec_end().ts,
    decreases frame, 0nat,
{
    reveal_with_fuel(frame_packets, 2);
    let (begin, opened) = begun_slice(frame, shown);
    let (inner, after) = chunks_packets(true, frame.chunks, opened);
    let end = ended_slice(frame);
    let i = choose|i: int|
        0 <= i < frame.chunks.len() && match #[trigger] frame.chunks[i] {
            StoredModel::Frame(child) => holds_pause(child, pause),
            StoredModel::Pause(range) => range == pause,
        };
    no_slice_in_gap_of(frame.metrics, frame.chunks, opened, pause, time, i);
    slices_at_appended(seq![begin], inner, time);
    slices_at_appended(seq![begin] + inner, seq![end], time);
    reveal_with_fuel(slices_at, 2);
    assert(seq![begin].drop_last() =~= Seq::empty());
    assert(seq![end].drop_last() =~= Seq::empty());
}

proof fn no_slice_in_gap_of(
    range: MetricsRange,
    chunks: Seq<StoredModel>,
    shown: Shown,
    pause: MetricsRange,
    time: u64,
    i: int,
)
    requires
        frame::in_order(range, chunks),
        forall|k: int|
            0 <= k < chunks.len() ==> match #[trigger] chunks[k] {
                StoredModel::Frame(child) => child.deeply_ordered(),
                StoredModel::Pause(_) => true,
            },
        0 <= i < chunks.len(),
        match chunks[i] {
            StoredModel::Frame(child) => holds_pause(child, pause),
            StoredModel::Pause(inner) => inner == pause,
        },
        pause.start.ts <= time < pause.spec_end().ts,
    ensures
        shown.open.len() + slices_at(chunks_packets(true, chunks, shown).0, time) == 0,
        range.start.ts <= pause.start.ts,
        pause.spec_end().ts <= range.spec_end().ts,
    decreases chunks, chunks.len(),
{
    reveal_with_fuel(chunks_packets, 2);
    let place = chunks[0].range();
    let left = chunks.drop_first();
    let (first, mid) = match chunks[0] {
        StoredModel::Frame(child) => frame_packets(true, child, shown),
        StoredModel::Pause(inner) => pause_packets(true, inner, shown),
    };
    let rest = MetricsRange::between(place.spec_end(), range.spec_end());
    assert(range.includes(place));
    frame::in_order_rest(range, chunks);
    assert forall|k: int| 0 <= k < left.len() implies match #[trigger] left[k] {
        StoredModel::Frame(child) => child.deeply_ordered(),
        StoredModel::Pause(_) => true,
    } by {
        assert(left[k] == chunks[k + 1]);
    }
    match chunks[0] {
        StoredModel::Frame(child) => {
            frame_packets_timed(true, child, shown);
            frame_slices_nest(true, child, shown);
            frame_slices_balance(true, child, shown);
        },
        StoredModel::Pause(inner) => {
            pause_slices_nest(true, inner, shown);
            pause_slices_balance(true, inner, shown);
        },
    }
    let behind = chunks_packets(true, left, mid).0;
    slices_at_appended(first, behind, time);
    chunks_packets_timed(true, rest, left, mid);
    slices_at_bounds(behind, place.spec_end().ts, range.spec_end().ts, time);
    if i == 0 {
        match chunks[0] {
            StoredModel::Frame(child) => {
                no_slice_in_gap(child, shown, pause, time);
            },
            StoredModel::Pause(inner) => {
                let n = shown.open.len() as int;
                let (a, b) = (first.take(n), first.skip(n));
                assert(first =~= a + b);
                slices_at_appended(a, b, time);
                assert(timed(a, pause.start.ts, pause.start.ts));
                assert(timed(b, pause.spec_end().ts, pause.spec_end().ts)) by {
                    assert forall|k: int| 0 <= k < b.len() implies (#[trigger] b[k]).timestamp
                        == pause.spec_end().ts by {
                        assert(b[k] == first[n + k]);
                    }
                }
                slices_at_bounds(a, pause.start.ts, pause.start.ts, time);
                slices_at_bounds(b, pause.spec_end().ts, pause.spec_end().ts, time);
            },
        }
    } else {
        assert(left[i - 1] == chunks[i]);
        no_slice_in_gap_of(rest, left, mid, pause, time, i - 1);
        assert(timed(first, place.start.ts, place.spec_end().ts));
        slices_at_bounds(first, place.start.ts, place.spec_end().ts, time);
    }
}

/// The timestamps of the packets lie between the two given ones, and never go back.
pub open spec fn timed(packets: Seq<PacketModel>, from: u64, to: u64) -> bool {
    &&& forall|i: int|
        0 <= i < packets.len() ==> from <= (#[trigger] packets[i]).timestamp && packets[i].timestamp
            <= to
    &&& forall|i: int, j: int|
        0 <= i < j < packets.len() ==> (#[trigger] packets[i]).timestamp <= (
        #[trigger] packets[j]).timestamp
}

proof fn timed_joined(a: Seq<PacketModel>, b: Seq<PacketModel>, from: u64, mid: u64, to: u64)
    requires
        from <= mid <= to,
        timed(a, from, mid),
        timed(b, mid, to),
    ensures
        timed(a + b, from, to),
{
    let all = a + b;
    assert forall|i: int| 0 <= i < all.len() implies from <= (#[trigger] all[i]).timestamp
        && all[i].timestamp <= to by {
        if i < a.len() {
            assert(all[i] == a[i]);
        } else {
            assert(all[i] == b[i - a.len()]);
        }
    }
    assert forall|i: int, j: int| 0 <= i < j < all.len() implies (#[trigger] all[i]).timestamp <= (
    #[trigger] all[j]).timestamp by {
        if j < a.len() {
            assert(all[i] == a[i] && all[j] == a[j]);
        } else if i >= a.len() {
            assert(all[i] == b[i - a.len()] && all[j] == b[j - a.len()]);
        } else {
            assert(all[i] == a[i] && all[j] == b[j - a.len()]);
        }
    }
}

/// The packets for a frame that is ordered in depth lie in the time of the frame, and their
/// timestamps never go back.
pub proof fn frame_packets_timed(gaps: bool, frame: FrameModel, shown: Shown)
    requires
        frame.deeply_ordered(),
    ensures
        timed(
            frame_packets(gaps, frame, shown).0,
            frame.metrics.start.ts,
            frame.metrics.spec_end().ts,
        ),
    decreases frame, 0nat,
{
    reveal_with_fuel(frame_packets, 2);
    let (from, to) = (frame.metrics.start.ts, frame.metrics.spec_end().ts);
    let (begin, opened) = begun_slice(frame, shown);
    let (inner, after) = chunks_packets(gaps, frame.chunks, opened);
    chunks_packets_timed(gaps, frame.metrics, frame.chunks, opened);
    timed_joined(seq![begin], inner, from, from, to);
    timed_joined(seq![begin] + inner, seq![ended_slice(frame)], from, to, to);
}

proof fn chunks_packets_timed(
    gaps: bool,
    range: MetricsRange,
    chunks: Seq<StoredModel>,
    shown: Shown,
)
    requires
        frame::in_order(range, chunks),
        forall|i: int|
            0 <= i < chunks.len() ==> match #[trigger] chunks[i] {
                StoredModel::Frame(child) => child.deeply_ordered(),
                StoredModel::Pause(_) => true,
            },
    ensures
        timed(chunks_packets(gaps, chunks, shown).0, range.start.ts, range.spec_end().ts),
    decreases chunks, chunks.len(),
{
    reveal_with_fuel(chunks_packets, 2);
    if chunks.len() > 0 {
        let place = chunks[0].range();
        let (first, mid) = match chunks[0] {
            StoredModel::Frame(child) => frame_packets(gaps, child, shown),
            StoredModel::Pause(pause) => pause_packets(gaps, pause, shown),
        };
        match chunks[0] {
            StoredModel::Frame(child) => {
                frame_packets_timed(gaps, child, shown);
            },
            StoredModel::Pause(pause) => {},
        }
        assert(timed(first, place.start.ts, place.spec_end().ts));
        assert(range.includes(place));
        assert(timed(first, range.start.ts, place.spec_end().ts));
        frame::in_order_rest(range, chunks);
        let left = chunks.drop_first();
        assert forall|i: int| 0 <= i < left.len() implies match #[trigger] left[i] {
            StoredModel::Frame(child) => child.deeply_ordered(),
            StoredModel::Pause(_) => true,
        } by {
            assert(left[i] == chunks[i + 1]);
        }
        let rest = MetricsRange::between(place.spec_end(), range.spec_end());
        chunks_packets_timed(gaps, rest, left, mid);
        timed_joined(
            first,
            chunks_packets(gaps, left, mid).0,
            range.start.ts,
            place.spec_end().ts,
            range.spec_end().ts,
        );
    }
}

/// How many steps are left for the chunks.
spec fn steps_for(chunks: Seq<StoredModel>) -> nat
    decreases chunks, chunks.len(),
{
    if chunks.len() == 0 {
        0
    } else {
        1 + (match chunks[0] {
            StoredModel::Frame(child) => steps_for(child.chunks) + 1,
            StoredModel::Pause(_) => 0,
        }) + steps_for(chunks.drop_first())
    }
}

/// How many steps are left for the open frames.
spec fn steps_left(stack: Seq<OpenModel>) -> nat
    decreases stack.len(),
{
    if stack.len() == 0 {
        0
    } else {
        steps_for(stack.last().frame.chunks.skip(stack.last().next)) + 1 + steps_left(
            stack.drop_last(),
        )
    }
}

proof fn step_leaves_fewer(m: ConverterModel)
    requires
        balanced(m),
        m.stack.len() > 0,
    ensures
        steps_left(stepped(m, false).1.stack) < steps_left(m.stack),
        balanced(stepped(m, false).1),
{
    reveal_with_fuel(steps_left, 3);
    let top = m.stack.last();
    assert(top == m.stack[m.stack.len() - 1]);
    let (packets, after) = stepped(m, false);
    let left = top.frame.chunks.skip(top.next);
    if top.next < top.frame.chunks.len() {
        assert(left[0] == top.frame.chunks[top.next]);
        assert(left.drop_first() =~= top.frame.chunks.skip(top.next + 1));
        let moved = m.stack.update(m.stack.len() - 1, OpenModel { next: top.next + 1, ..top });
        assert(moved.drop_last() =~= m.stack.drop_last());
        if let StoredModel::Frame(child) = left[0] {
            assert(after.stack.drop_last() =~= moved);
            assert(child.chunks.skip(0) =~= child.chunks);
        }
    }
    step_balanced(m, false);
}

proof fn step_balanced(m: ConverterModel, stop: bool)
    requires
        balanced(m),
        m.stack.len() > 0,
    ensures
        balanced(stepped(m, stop).1),
{
    let top = m.stack.last();
    assert(top == m.stack[m.stack.len() - 1]);
    let (packets, after) = stepped(m, stop);
    assert forall|i: int| 0 <= i < after.stack.len() implies 0 <= (#[trigger] after.stack[i]).next
        <= after.stack[i].frame.chunks.len() && ends_fit(after.stack[i].frame) by {
        if i < m.stack.len() {
            assert(after.stack[i].frame == m.stack[i].frame);
        } else {
            assert(top.frame.chunks[top.next] is Frame);
        }
    }
}

/// A frame whose slice is open.
struct OpenFrame<'a> {
    frame: &'a Frame,
    next: usize,
    iid: u64,
    annotations: Vec<DebugAnnotation>,
}

impl<'a> OpenFrame<'a> {
    spec fn model(self) -> OpenModel {
        OpenModel { frame: self.frame@, next: self.next as int }
    }
}

spec fn open_models<'a>(open: Seq<OpenFrame<'a>>) -> Seq<OpenModel> {
    Seq::new(open.len(), |i: int| open[i].model())
}

spec fn open_slices<'a>(open: Seq<OpenFrame<'a>>) -> Seq<(u64, Seq<DebugModel>)> {
    Seq::new(open.len(), |i: int| (open[i].iid, debug_models(open[i].annotations@)))
}

/// Converts a trace to packets, step by step.
pub struct Converter<'a> {
    trace: &'a Trace,
    interned_events: InternedStrings,
    annotation_texts: AnnotationTexts,
    open: Vec<OpenFrame<'a>>,
    render_pauses: PauseRenderOption,
}

impl<'a> Converter<'a> {
    pub closed spec fn view(&self) -> ConverterModel {
        ConverterModel {
            trace: self.trace@,
            gaps: self.render_pauses is Gap,
            shown: Shown {
                event_names: self.interned_events@,
                annotation_names: self.annotation_texts.names@,
                annotation_values: self.annotation_texts.values@,
                open: open_slices(self.open@),
            },
            stack: open_models(self.open@),
        }
    }

    pub fn new(trace: &'a Trace, render_pauses: PauseRenderOption) -> (result: Self)
        ensures
            result@ == (ConverterModel {
                trace: trace@,
                gaps: render_pauses is Gap,
                shown: nothing_shown(),
                stack: Seq::empty(),
            }),
            balanced(result@),
    {
        let result = Converter {
            trace,
            interned_events: InternedStrings::new(),
            annotation_texts: AnnotationTexts {
                names: InternedStrings::new(),
                values: InternedStrings::new(),
            },
            open: Vec::new(),
            render_pauses,
        };
        proof {
            assert(result@.shown.open =~= Seq::empty());
            assert(result@.stack =~= Seq::empty());
        }
        result
    }

    /// The packets that come before all calls.
    pub fn header(&self) -> (result: Vec<TracePacket>)
        requires
            self@.trace.root.metrics.fits(),
        ensures
            packet_models(result@) == header_packets(self@.trace.root),
    {
        let range = self.trace.root_frame().metrics;
        let start: u64 = range.start.ts;
        let end: u64 = range.end().ts;
        let none: Vec<DebugAnnotation> = Vec::new();
        assert(debug_models(none@) =~= Seq::empty());
        let mut packets: Vec<TracePacket> = Vec::new();
        packets.push(
            create_track(
                start,
                GLOBAL_SEQUENCE_ID,
                GLOBAL_TRACK_ID,
                GLOBAL_TRACK_NAME.to_string(),
                None,
                None,
                Some(ChildTracksOrdering::Explicit),
                None,
            ),
        );
        packets.push(
            create_slice_begin(
                start,
                GLOBAL_SEQUENCE_ID,
                GLOBAL_TRACK_ID,
                NameField::Name(OVERALL_SLICE_NAME.to_string()),
                none,
                None,
            ),
        );
        packets.push(create_slice_end(end, GLOBAL_SEQUENCE_ID, GLOBAL_TRACK_ID));
        packets.push(
            create_track(
                start,
                TRACE_SEQUENCE_ID,
                TRACE_TRACK_ID,
                TRACE_TRACK_NAME.to_string(),
                None,
                Some(GLOBAL_TRACK_ID),
                None,
                Some(i32::MAX),
            ),
        );
        assert(packet_models(packets@) =~= header_packets(self@.trace.root));
        packets
    }

    /// Begins the slice of a frame.
    fn open_frame(&mut self, frame: &'a Frame) -> (result: TracePacket)
        requires
            balanced(old(self)@),
            ends_fit(frame@),
        ensures
            ({
                let (packet, shown) = begun_slice(frame@, old(self)@.shown);
                &&& result@ == packet
                &&& final(self)@ == (ConverterModel {
                    shown,
                    stack: old(self)@.stack.push(OpenModel { frame: frame@, next: 0 }),
                    ..old(self)@
                })
            }),
            balanced(final(self)@),
    {
        let ghost before = self@;
        let ghost name = frame@.symbol.name;
        let (is_new, iid) = self.interned_events.intern_string(&frame.symbol.name);
        let mut intern_data = InternedData {
            event_names: Vec::new(),
            debug_annotation_names: Vec::new(),
            debug_annotation_string_values: Vec::new(),
        };
        if is_new {
            intern_data.event_names.push(Interned { iid, text: frame.symbol.name.clone() });
        }
        proof {
            assert(intern_data@.event_names =~= news(before.shown.event_names, name));
            assert(intern_data@.annotation_names =~= Seq::empty());
            assert(intern_data@.string_values =~= Seq::empty());
            assert(self.annotation_texts.noting(intern_data) =~= before_notes(before.shown, name));
        }
        let annotations = match &frame.annotations {
            Some(entries) => self.annotation_texts.convert_annotation_map(entries, &mut intern_data),
            None => {
                let none: Vec<DebugAnnotation> = Vec::new();
                assert(debug_models(none@) =~= Seq::empty());
                none
            },
        };
        let packet = create_slice_begin(
            frame.metrics.start.ts,
            TRACE_SEQUENCE_ID,
            TRACE_TRACK_ID,
            NameField::NameIid(iid),
            clone_annotations(&annotations),
            Some(intern_data),
        );
        let ghost slice = (iid, debug_models(annotations@));
        self.open.push(OpenFrame { frame, next: 0, iid, annotations });
        proof {
            let after = begun_slice(frame@, before.shown).1;
            assert(self@.shown.open =~= before.shown.open.push(slice));
            assert(self@.stack =~= before.stack.push(OpenModel { frame: frame@, next: 0 }));
            assert(self@.shown =~= after);
            assert forall|i: int| 0 <= i < self@.stack.len() implies 0 <= (
            #[trigger] self@.stack[i]).next <= self@.stack[i].frame.chunks.len() && ends_fit(
                self@.stack[i].frame,
            ) by {
                if i < before.stack.len() {
                    assert(self@.stack[i] == before.stack[i]);
                }
            }
        }
        packet
    }

    /// The packets for a pause.
    fn render_gap(&mut self, pause: &MetricsRange) -> (result: Vec<TracePacket>)
        requires
            pause.fits(),
        ensures
            ({
                let (packets, shown) = pause_packets(
                    old(self)@.gaps,
                    *pause,
                    old(self)@.shown,
                );
                &&& packet_models(result@) == packets
                &&& final(self)@ == (ConverterModel { shown, ..old(self)@ })
            }),
    {
        let ghost before = self@;
        let start: u64 = pause.start.ts;
        let end: u64 = pause.end().ts;
        let mut packets: Vec<TracePacket> = Vec::new();
        match self.render_pauses {
            PauseRenderOption::Gap => {
                let ghost wanted = pause_packets(true, *pause, before.shown).0;
                let mut i: usize = 0;
                while i < self.open.len()
                    invariant
                        i <= self.open.len(),
                        self@ == before,
                        *self == *old(self),
                        before.shown.open.len() == self.open.len(),
                        start == pause.start.ts,
                        wanted == pause_packets(true, *pause, before.shown).0,
                        packet_models(packets@) == wanted.take(i as int),
                    decreases self.open.len() - i,
                {
                    let ghost so_far = packet_models(packets@);
                    packets.push(create_slice_end(start, TRACE_SEQUENCE_ID, TRACE_TRACK_ID));
                    assert(packet_models(packets@) =~= so_far.push(wanted[i as int]));
                    assert(packet_models(packets@) =~= wanted.take(i + 1));
                    i += 1;
                }
                let mut j: usize = 0;
                while j < self.open.len()
                    invariant
                        j <= self.open.len(),
                        self@ == before,
                        *self == *old(self),
                        before.shown.open == open_slices(self.open@),
                        end == pause.spec_end().ts,
                        wanted == pause_packets(true, *pause, before.shown).0,
                        packet_models(packets@) == wanted.take(self.open.len() + j),
                    decreases self.open.len() - j,
                {
                    let ghost so_far = packet_models(packets@);
                    let slice = &self.open[j];
                    assert(before.shown.open[j as int] == (
                        slice.iid,
                        debug_models(slice.annotations@),
                    ));
                    packets.push(
                        create_slice_begin(
                            end,
                            TRACE_SEQUENCE_ID,
                            TRACE_TRACK_ID,
                            NameField::NameIid(slice.iid),
                            clone_annotations(&slice.annotations),
                            None,
                        ),
                    );
                    assert(packet_models(packets@) =~= so_far.push(wanted[self.open.len() + j]));
                    assert(packet_models(packets@) =~= wanted.take(self.open.len() + j + 1));
                    j += 1;
                }
                assert(packet_models(packets@) =~= wanted);
            },
            PauseRenderOption::Block => {
                let name = PAUSE_BLOCK_NAME.to_string();
                let (is_new, iid) = self.interned_events.intern_string(&name);
                let mut intern_data = InternedData {
                    event_names: Vec::new(),
                    debug_annotation_names: Vec::new(),
                    debug_annotation_string_values: Vec::new(),
                };
                if is_new {
                    intern_data.event_names.push(Interned { iid, text: name });
                }
                let none: Vec<DebugAnnotation> = Vec::new();
                proof {
                    assert(debug_models(none@) =~= Seq::empty());
                    assert(intern_data@.event_names =~= news(
                        before.shown.event_names,
                        PAUSE_BLOCK_NAME@,
                    ));
                    assert(intern_data@.annotation_names =~= Seq::empty());
                    assert(intern_data@.string_values =~= Seq::empty());
                }
                packets.push(
                    create_slice_begin(
                        start,
                        TRACE_SEQUENCE_ID,
                        TRACE_TRACK_ID,
                        NameField::NameIid(iid),
                        none,
                        Some(intern_data),
                    ),
                );
                packets.push(create_slice_end(end, TRACE_SEQUENCE_ID, TRACE_TRACK_ID));
                assert(packet_models(packets@) =~= pause_packets(false, *pause, before.shown).0);
            },
        }
        packets
    }

    /// Begins the slice of the outermost frame.
    pub fn open_root(&mut self) -> (result: TracePacket)
        requires
            balanced(old(self)@),
            ends_fit(old(self)@.trace.root),
        ensures
            ({
                let root = old(self)@.trace.root;
                let (packet, shown) = begun_slice(root, old(self)@.shown);
                &&& result@ == packet
                &&& final(self)@ == (ConverterModel {
                    shown,
                    stack: old(self)@.stack.push(OpenModel { frame: root, next: 0 }),
                    ..old(self)@
                })
            }),
            balanced(final(self)@),
    {
        let trace: &'a Trace = self.trace;
        self.open_frame(trace.root_frame())
    }

    /// Whether no slice is open.
    pub fn finished(&self) -> (result: bool)
        ensures
            result == (self@.stack.len() == 0),
    {
        self.open.len() == 0
    }

    /// Goes on with the next chunk of the innermost open frame. Where there is none, or where the
    /// conversion is to stop, the frame's slice ends.
    pub fn step(&mut self, stop: bool) -> (result: Vec<TracePacket>)
        requires
            balanced(old(self)@),
            old(self)@.stack.len() > 0,
        ensures
            (packet_models(result@), final(self)@) == stepped(old(self)@, stop),
            balanced(final(self)@),
    {
        let ghost before = self@;
        let ghost top = before.stack.last();
        proof {
            step_balanced(before, stop);
            assert(top == before.stack[before.stack.len() - 1]);
        }
        let last: usize = self.open.len() - 1;
        let frame: &'a Frame = self.open[last].frame;
        let next: usize = self.open[last].next;
        proof {
            frame::frame_view(frame);
            assert(top.frame == frame@);
            assert(top.next == next);
        }
        if stop || next >= frame.chunks.len() {
            let packet = create_slice_end(frame.metrics.end().ts, TRACE_SEQUENCE_ID, TRACE_TRACK_ID);
            let closed = self.open.pop();
            let mut packets: Vec<TracePacket> = Vec::new();
            packets.push(packet);
            proof {
                assert(self@.shown.open =~= before.shown.open.drop_last());
                assert(self@.stack =~= before.stack.drop_last());
                assert(self@ =~= stepped(before, stop).1);
                assert(packet_models(packets@) =~= seq![ended_slice(top.frame)]);
            }
            packets
        } else {
            let ghost moved = before.stack.update(
                before.stack.len() - 1,
                OpenModel { next: top.next + 1, ..top },
            );
            self.open[last].next = next + 1;
            proof {
                assert(self@.stack =~= moved);
                assert(self@.shown.open =~= before.shown.open);
                assert(frame@.chunks[next as int] == frame.chunks@[next as int]@);
                assert forall|i: int| 0 <= i < self@.stack.len() implies 0 <= (
                #[trigger] self@.stack[i]).next <= self@.stack[i].frame.chunks.len() && ends_fit(
                    self@.stack[i].frame,
                ) by {
                    assert(self@.stack[i].frame == before.stack[i].frame);
                    assert(before.stack[i].next <= before.stack[i].frame.chunks.len());
                }
            }
            match &frame.chunks[next] {
                StoredChunk::Frame(child) => {
                    let packet = self.open_frame(child);
                    let mut packets: Vec<TracePacket> = Vec::new();
                    packets.push(packet);
                    assert(packet_models(packets@) =~= stepped(before, stop).0);
                    packets
                },
                StoredChunk::Pause(pause) => self.render_gap(pause),
            }
        }
    }

    /// The packets that come after all calls: those for events.
    pub fn events(&self) -> (result: Vec<TracePacket>)
        requires
            showable(self@.trace),
        ensures
            packet_models(result@) == all_event_packets(self@.trace.events),
    {
        let events = self.trace.events();
        let ghost models = self@.trace.events;
        let mut packets: Vec<TracePacket> = Vec::new();
        let mut e: usize = 0;
        assert(packet_models(packets@) =~= all_event_packets(models.take(0)));
        while e < events.len()
            invariant
                e <= events.len(),
                models == event::event_models(events@),
                models == self@.trace.events,
                showable(self@.trace),
                packet_models(packets@) == all_event_packets(models.take(e as int)),
            decreases events.len() - e,
        {
            proof {
                assert(models[e as int] == events@[e as int]@);
                assert(models.take(e + 1).drop_last() =~= models.take(e as int));
                assert(models.take(e + 1).last() == models[e as int]);
            }
            let ghost so_far = packet_models(packets@);
            let mut more = show_event(&events[e]);
            let ghost added = packet_models(more@);
            packets.append(&mut more);
            assert(packet_models(packets@) =~= so_far + added);
            e += 1;
        }
        assert(models.take(e as int) =~= models);
        packets
    }

    /// All packets for the trace.
    pub fn start(&mut self) -> (result: Vec<TracePacket>)
        requires
            old(self)@.shown == nothing_shown(),
            old(self)@.stack.len() == 0,
            showable(old(self)@.trace),
        ensures
            packet_models(result@) == trace_packets(old(self)@.gaps, old(self)@.trace),
            final(self)@.stack.len() == 0,
            final(self)@.trace == old(self)@.trace,
    {
        let ghost gaps = self@.gaps;
        let ghost trace = self@.trace;
        let ghost header = header_packets(trace.root);
        let ghost calls = frame_packets(gaps, trace.root, nothing_shown()).0;
        let mut packets = self.header();
        let begin = self.open_root();
        packets.push(begin);
        proof {
            reveal_with_fuel(packets_left, 2);
            let (begin_model, opened) = begun_slice(trace.root, nothing_shown());
            assert(trace.root.chunks.skip(0) =~= trace.root.chunks);
            assert(self@.stack =~= seq![OpenModel { frame: trace.root, next: 0 }]);
            assert(self@.stack.drop_last() =~= Seq::empty());
            assert(packet_models(packets@) =~= header.push(begin_model));
            assert(packet_models(packets@) + packets_left(gaps, self@.stack, self@.shown)
                =~= header + calls);
        }
        while !self.finished()
            invariant
                balanced(self@),
                self@.gaps == gaps,
                self@.trace == trace,
                packet_models(packets@) + packets_left(gaps, self@.stack, self@.shown) == header
                    + calls,
            decreases steps_left(self@.stack),
        {
            let ghost before = self@;
            let ghost so_far = packet_models(packets@);
            proof {
                step_goes_on(before);
                step_leaves_fewer(before);
            }
            let mut more = self.step(false);
            let ghost added = packet_models(more@);
            packets.append(&mut more);
            proof {
                assert(packet_models(packets@) =~= so_far + added);
                assert(packet_models(packets@) + packets_left(gaps, self@.stack, self@.shown)
                    =~= so_far + packets_left(gaps, before.stack, before.shown));
            }
        }
        assert(packet_models(packets@) =~= header + calls);
        let mut last = self.events();
        let ghost added = packet_models(last@);
        packets.append(&mut last);
        assert(packet_models(packets@) =~= header + calls + added);
        packets
    }
}

/// The packet for an occurence of an event.
pub fn create_event(timestamp: u64, event_id: u32) -> (result: TracePacket)
    requires
        event_id <= u32::MAX - ERROR_SEQUENCE_ID_BASE,
    ensures
        result@ == occurence_packet(event_id, timestamp),
{
    let none: Vec<DebugAnnotation> = Vec::new();
    assert(debug_models(none@) =~= Seq::empty());
    TracePacket {
        timestamp,
        sequence_id: ERROR_SEQUENCE_ID_BASE + event_id,
        sequence_flags: SequenceFlags::SeqNeedsIncrementalState,
        previous_packet_dropped: None,
        first_packet_on_sequence: None,
        interned_data: None,
        data: Data::TrackEvent(
            TrackEvent {
                event_type: EventType::Instant,
                track_uuid: ERROR_TRACK_ID_BASE + event_id as u64,
                name_field: Some(NameField::NameIid(1)),
                debug_annotations: none,
            },
        ),
    }
}

/// The packets for an event: a track of its own, then its occurences; none if it never occurs.
fn show_event(event: &Event) -> (result: Vec<TracePacket>)
    requires
        event@.occurences.len() > 0 ==> event@.id <= u32::MAX - ERROR_SEQUENCE_ID_BASE,
    ensures
        packet_models(result@) == event_packets(event@),
{
    let samples = event.occurences();
    let mut packets: Vec<TracePacket> = Vec::new();
    if samples.len() == 0 {
        assert(packet_models(packets@) =~= event_packets(event@));
        return packets;
    }
    let ghost wanted = event_packets(event@);
    let rank: i32 = (event.id as i64 - 0x8000_0000) as i32;
    let mut track = create_track(
        samples[0].ts,
        ERROR_SEQUENCE_ID_BASE + event.id,
        ERROR_TRACK_ID_BASE + event.id as u64,
        event.name.clone(),
        Some(event.description.clone()),
        Some(GLOBAL_TRACK_ID),
        None,
        Some(rank),
    );
    let mut interned_data = InternedData {
        event_names: Vec::new(),
        debug_annotation_names: Vec::new(),
        debug_annotation_string_values: Vec::new(),
    };
    interned_data.event_names.push(Interned { iid: 1, text: event.description.clone() });
    proof {
        assert(interned_data@.event_names =~= seq![(1u64, event@.description)]);
        assert(interned_data@.annotation_names =~= Seq::empty());
        assert(interned_data@.string_values =~= Seq::empty());
    }
    track.interned_data = Some(interned_data);
    assert(track@ == wanted[0]);
    packets.push(track);
    assert(packet_models(packets@) =~= wanted.take(1));
    let mut i: usize = 0;
    while i < samples.len()
        invariant
            i <= samples.len(),
            samples@ == event@.occurences,
            samples.len() > 0,
            event@.id <= u32::MAX - ERROR_SEQUENCE_ID_BASE,
            wanted == event_packets(event@),
            packet_models(packets@) == wanted.take(i + 1),
        decreases samples.len() - i,
    {
        let ghost so_far = packet_models(packets@);
        packets.push(create_event(samples[i].ts, event.id));
        proof {
            assert(wanted[i + 1] == occurence_packet(event@.id, samples@[i as int].ts));
            assert(packet_models(packets@) =~= so_far.push(wanted[i + 1]));
            assert(packet_models(packets@) =~= wanted.take(i + 2));
        }
        i += 1;
    }
    assert(packet_models(packets@) =~= wanted);
    packets
}

/// Whether the trace can be shown.
pub fn can_show(trace: &Trace) -> (result: bool)
    ensures
        result == showable(trace@),
{
    if !trace.root_frame().ends_fit() {
        return false;
    }
    let events = trace.events();
    let ghost models = trace@.events;
    let mut i: usize = 0;
    while i < events.len()
        invariant
            i <= events.len(),
            models == event::event_models(events@),
            models == trace@.events,
            ends_fit(trace@.root),
            forall|k: int|
                0 <= k < i ==> (#[trigger] models[k]).occurences.len() > 0 ==> models[k].id
                    <= u32::MAX - ERROR_SEQUENCE_ID_BASE,
        decreases events.len() - i,
    {
        assert(models[i as int] == events@[i as int]@);
        if events[i].occurences().len() > 0 && events[i].id > u32::MAX - ERROR_SEQUENCE_ID_BASE {
            return false;
        }
        i += 1;
    }
    true
}

} // verus!

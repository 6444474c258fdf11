//! The packets that a Perfetto trace consists of.
use vstd::prelude::*;

verus! {

/// A text that later packets refer to by number.
#[derive(Debug, PartialEq)]
pub struct Interned {
    pub iid: u64,
    pub text: String,
}

/// Texts that a packet introduces.
#[derive(Debug, PartialEq)]
pub struct InternedData {
    pub event_names: Vec<Interned>,
    pub debug_annotation_names: Vec<Interned>,
    pub debug_annotation_string_values: Vec<Interned>,
}

/// The name of a slice or an event.
#[derive(Debug, PartialEq)]
pub enum NameField {
    NameIid(u64),
    Name(String),
}

/// A plain value of an annotation.
#[derive(Debug, Clone, Copy, PartialEq, Eq, Structural)]
pub enum DebugValue {
    BoolValue(bool),
    UintValue(u64),
    IntValue(i64),
    /// The bits of a double precision number.
    DoubleValue(u64),
    PointerValue(u64),
    StringValueIid(u64),
}

/// An annotation of a slice.
#[derive(Debug, PartialEq)]
pub struct DebugAnnotation {
    pub name_iid: Option<u64>,
    pub value: Option<DebugValue>,
    pub dict_entries: Vec<DebugAnnotation>,
    pub array_values: Vec<DebugAnnotation>,
}

/// How the tracks under a track are ordered.
#[derive(Debug, Clone, Copy, PartialEq, Eq, Structural)]
pub enum ChildTracksOrdering {
    Explicit,
}

#[derive(Debug, PartialEq)]
pub struct TrackDescriptor {
    pub uuid: u64,
    pub parent_uuid: Option<u64>,
    pub static_name: String,
    pub description: Option<String>,
    pub child_ordering: Option<ChildTracksOrdering>,
    pub sibling_order_rank: Option<i32>,
}

#[derive(Debug, Clone, Copy, PartialEq, Eq, Structural)]
pub enum EventType {
    SliceBegin,
    SliceEnd,
    Instant,
}

#[derive(Debug, PartialEq)]
pub struct TrackEvent {
    pub event_type: EventType,
    pub track_uuid: u64,
    pub name_field: Option<NameField>,
    pub debug_annotations: Vec<DebugAnnotation>,
}

#[derive(Debug, PartialEq)]
pub enum Data {
    TrackDescriptor(TrackDescriptor),
    TrackEvent(TrackEvent),
}

#[derive(Debug, Clone, Copy, PartialEq, Eq, Structural)]
pub enum SequenceFlags {
    SeqIncrementalStateCleared,
    SeqNeedsIncrementalState,
}

#[derive(Debug, PartialEq)]
pub struct TracePacket {
    pub timestamp: u64,
    pub sequence_id: u32,
    pub sequence_flags: SequenceFlags,
    pub previous_packet_dropped: Option<bool>,
    pub first_packet_on_sequence: Option<bool>,
    pub interned_data: Option<InternedData>,
    pub data: Data,
}

#[verifier::ext_equal]
pub struct InternedModel {
    pub event_names: Seq<(u64, Seq<char>)>,
    pub annotation_names: Seq<(u64, Seq<char>)>,
    pub string_values: Seq<(u64, Seq<char>)>,
}

#[verifier::ext_equal]
pub enum NameModel {
    NameIid(u64),
    Name(Seq<char>),
}

#[verifier::ext_equal]
pub struct DebugModel {
    pub name_iid: Option<u64>,
    pub value: Option<DebugValue>,
    pub dict_entries: Seq<DebugModel>,
    pub array_values: Seq<DebugModel>,
}

#[verifier::ext_equal]
pub struct TrackModel {
    pub uuid: u64,
    pub parent_uuid: Option<u64>,
    pub static_name: Seq<char>,
    pub description: Option<Seq<char>>,
    pub child_ordering: Option<ChildTracksOrdering>,
    pub sibling_order_rank: Option<i32>,
}

#[verifier::ext_equal]
pub struct TrackEventModel {
    pub event_type: EventType,
    pub track_uuid: u64,
    pub name_field: Option<NameModel>,
    pub debug_annotations: Seq<DebugModel>,
}

#[verifier::ext_equal]
pub enum DataModel {
    TrackDescriptor(TrackModel),
    TrackEvent(TrackEventModel),
}

#[verifier::ext_equal]
pub struct PacketModel {
    pub timestamp: u64,
    pub sequence_id: u32,
    pub sequence_flags: SequenceFlags,
    pub previous_packet_dropped: Option<bool>,
    pub first_packet_on_sequence: Option<bool>,
    pub interned_data: Option<InternedModel>,
    pub data: DataModel,
}

pub open spec fn interned_models(list: Seq<Interned>) -> Seq<(u64, Seq<char>)> {
    Seq::new(list.len(), |i: int| (list[i].iid, list[i].text@))
}

impl View for InternedData {
    type V = InternedModel;

    open spec fn view(&self) -> InternedModel {
        InternedModel {
            event_names: interned_models(self.event_names@),
            annotation_names: interned_models(self.debug_annotation_names@),
            string_values: interned_models(self.debug_annotation_string_values@),
        }
    }
}

impl View for NameField {
    type V = NameModel;

    open spec fn view(&self) -> NameModel {
        match self {
            NameField::NameIid(iid) => NameModel::NameIid(*iid),
            NameField::Name(name) => NameModel::Name(name@),
        }
    }
}

impl DebugAnnotation {
    pub open spec fn model(self) -> DebugModel
        decreases self,
    {
        DebugModel {
            name_iid: self.name_iid,
            value: self.value,
            dict_entries: Seq::new(
                self.dict_entries@.len(),
                |i: int|
                    if 0 <= i < self.dict_entries@.len() {
                        self.dict_entries@[i].model()
                    } else {
                        arbitrary()
                    },
            ),
            array_values: Seq::new(
                self.array_values@.len(),
                |i: int|
                    if 0 <= i < self.array_values@.len() {
                        self.array_values@[i].model()
                    } else {
                        arbitrary()
                    },
            ),
        }
    }
}

impl View for DebugAnnotation {
    type V = DebugModel;

    open spec fn view(&self) -> DebugModel {
        self.model()
    }
}

pub open spec fn debug_models(list: Seq<DebugAnnotation>) -> Seq<DebugModel> {
    Seq::new(list.len(), |i: int| list[i]@)
}

/// The model of an annotation holds the models of its parts.
pub proof fn debug_view(annotation: &DebugAnnotation)
    ensures
        annotation@.dict_entries == debug_models(annotation.dict_entries@),
        annotation@.array_values == debug_models(annotation.array_values@),
{
    reveal_with_fuel(DebugAnnotation::model, 2);
    assert(annotation@.dict_entries =~= debug_models(annotation.dict_entries@));
    assert(annotation@.array_values =~= debug_models(annotation.array_values@));
}

impl View for TrackDescriptor {
    type V = TrackModel;

    open spec fn view(&self) -> TrackModel {
        TrackModel {
            uuid: self.uuid,
            parent_uuid: self.parent_uuid,
            static_name: self.static_name@,
            description: match self.description {
                Some(text) => Some(text@),
                None => None,
            },
            child_ordering: self.child_ordering,
            sibling_order_rank: self.sibling_order_rank,
        }
    }
}

impl View for TrackEvent {
    type V = TrackEventModel;

    open spec fn view(&self) -> TrackEventModel {
        TrackEventModel {
            event_type: self.event_type,
            track_uuid: self.track_uuid,
            name_field: match self.name_field {
                Some(name) => Some(name@),
                None => None,
            },
            debug_annotations: debug_models(self.debug_annotations@),
        }
    }
}

impl View for Data {
    type V = DataModel;

    open spec fn view(&self) -> DataModel {
        match self {
            Data::TrackDescriptor(track) => DataModel::TrackDescriptor(track@),
            Data::TrackEvent(event) => DataModel::TrackEvent(event@),
        }
    }
}

impl View for TracePacket {
    type V = PacketModel;

    open spec fn view(&self) -> PacketModel {
        PacketModel {
            timestamp: self.timestamp,
            sequence_id: self.sequence_id,
            sequence_flags: self.sequence_flags,
            previous_packet_dropped: self.previous_packet_dropped,
            first_packet_on_sequence: self.first_packet_on_sequence,
            interned_data: match self.interned_data {
                Some(data) => Some(data@),
                None => None,
            },
            data: self.data@,
        }
    }
}

pub open spec fn packet_models(packets: Seq<TracePacket>) -> Seq<PacketModel> {
    Seq::new(packets.len(), |i: int| packets[i]@)
}

/// The packet that introduces a track.
pub open spec fn track_packet(timestamp: u64, sequence_id: u32, track: TrackModel) -> PacketModel {
    PacketModel {
        timestamp,
        sequence_id,
        sequence_flags: SequenceFlags::SeqIncrementalStateCleared,
        previous_packet_dropped: Some(true),
        first_packet_on_sequence: Some(true),
        interned_data: None,
        data: DataModel::TrackDescriptor(track),
    }
}

/// A packet with an event on a track.
pub open spec fn event_packet(
    timestamp: u64,
    sequence_id: u32,
    event: TrackEventModel,
    interned_data: Option<InternedModel>,
) -> PacketModel {
    PacketModel {
        timestamp,
        sequence_id,
        sequence_flags: SequenceFlags::SeqNeedsIncrementalState,
        previous_packet_dropped: None,
        first_packet_on_sequence: None,
        interned_data,
        data: DataModel::TrackEvent(event),
    }
}

/// The packet that begins a slice.
pub open spec fn slice_begin(
    timestamp: u64,
    sequence_id: u32,
    track_uuid: u64,
    name: NameModel,
    debug_annotations: Seq<DebugModel>,
    interned_data: Option<InternedModel>,
) -> PacketModel {
    event_packet(
        timestamp,
        sequence_id,
        TrackEventModel {
            event_type: EventType::SliceBegin,
            track_uuid,
            name_field: Some(name),
            debug_annotations,
        },
        interned_data,
    )
}

/// The packet that ends a slice.
pub open spec fn slice_end(timestamp: u64, sequence_id: u32, track_uuid: u64) -> PacketModel {
    event_packet(
        timestamp,
        sequence_id,
        TrackEventModel {
            event_type: EventType::SliceEnd,
            track_uuid,
            name_field: None,
            debug_annotations: Seq::empty(),
        },
        None,
    )
}

/// The packet that introduces a track.
pub fn create_track(
    timestamp: u64,
    sequence_id: u32,
    uuid: u64,
    name: String,
    desc: Option<String>,
    parent_uuid: Option<u64>,
    child_ordering: Option<ChildTracksOrdering>,
    sibling_order_rank: Option<i32>,
) -> (result: TracePacket)
    ensures
        result@ == track_packet(
            timestamp,
            sequence_id,
            TrackModel {
                uuid,
                parent_uuid,
                static_name: name@,
                description: match desc {
                    Some(text) => Some(text@),
                    None => None,
                },
                child_ordering,
                sibling_order_rank,
            },
        ),
{
    TracePacket {
        timestamp,
        sequence_id,
        sequence_flags: SequenceFlags::SeqIncrementalStateCleared,
        previous_packet_dropped: Some(true),
        first_packet_on_sequence: Some(true),
        interned_data: None,
        data: Data::TrackDescriptor(
            TrackDescriptor {
                uuid,
                parent_uuid,
                static_name: name,
                description: desc,
                child_ordering,
                sibling_order_rank,
            },
        ),
    }
}

/// The packet that begins a slice.
pub fn create_slice_begin(
    timestamp: u64,
    sequence_id: u32,
    track_id: u64,
    name: NameField,
    debug_annotations: Vec<DebugAnnotation>,
    interned_data: Option<InternedData>,
) -> (result: TracePacket)
    ensures
        result@ == slice_begin(
            timestamp,
            sequence_id,
            track_id,
            name@,
            debug_models(debug_annotations@),
            match interned_data {
                Some(data) => Some(data@),
                None => None,
            },
        ),
{
    TracePacket {
        timestamp,
        sequence_id,
        sequence_flags: SequenceFlags::SeqNeedsIncrementalState,
        previous_packet_dropped: None,
        first_packet_on_sequence: None,
        interned_data,
        data: Data::TrackEvent(
            TrackEvent {
                event_type: EventType::SliceBegin,
                track_uuid: track_id,
                name_field: Some(name),
                debug_annotations,
            },
        ),
    }
}

/// The packet that ends a slice.
pub fn create_slice_end(timestamp: u64, sequence_id: u32, track_id: u64) -> (result: TracePacket)
    ensures
        result@ == slice_end(timestamp, sequence_id, track_id),
{
    let debug_annotations: Vec<DebugAnnotation> = Vec::new();
    assert(debug_models(debug_annotations@) =~= Seq::empty());
    TracePacket {
        timestamp,
        sequence_id,
        sequence_flags: SequenceFlags::SeqNeedsIncrementalState,
        previous_packet_dropped: None,
        first_packet_on_sequence: None,
        interned_data: None,
        data: Data::TrackEvent(
            TrackEvent {
                event_type: EventType::SliceEnd,
                track_uuid: track_id,
                name_field: None,
                debug_annotations,
            },
        ),
    }
}

impl Clone for DebugAnnotation {
    fn clone(&self) -> (result: Self)
        ensures
            result@ == self@,
        decreases self,
    {
        let mut dict_entries: Vec<DebugAnnotation> = Vec::new();
        let mut i: usize = 0;
        while i < self.dict_entries.len()
            invariant
                i <= self.dict_entries.len(),
                dict_entries.len() == i,
                forall|k: int| 0 <= k < i ==> dict_entries@[k]@ == self.dict_entries@[k]@,
            decreases self.dict_entries.len() - i,
        {
            assert(decreases_to!(self => self.dict_entries@[i as int]));
            dict_entries.push(self.dict_entries[i].clone());
            i += 1;
        }
        let mut array_values: Vec<DebugAnnotation> = Vec::new();
        let mut j: usize = 0;
        while j < self.array_values.len()
            invariant
                j <= self.array_values.len(),
                array_values.len() == j,
                forall|k: int| 0 <= k < j ==> array_values@[k]@ == self.array_values@[k]@,
            decreases self.array_values.len() - j,
        {
            assert(decreases_to!(self => self.array_values@[j as int]));
            array_values.push(self.array_values[j].clone());
            j += 1;
        }
        let result = DebugAnnotation {
            name_iid: self.name_iid,
            value: self.value,
            dict_entries,
            array_values,
        };
        proof {
            debug_view(self);
            debug_view(&result);
            assert(debug_models(result.dict_entries@) =~= debug_models(self.dict_entries@));
            assert(debug_models(result.array_values@) =~= debug_models(self.array_values@));
        }
        result
    }
}

/// Copies of annotations.
pub fn clone_annotations(list: &Vec<DebugAnnotation>) -> (result: Vec<DebugAnnotation>)
    ensures
        debug_models(result@) == debug_models(list@),
{
    let mut copy: Vec<DebugAnnotation> = Vec::new();
    let mut i: usize = 0;
    while i < list.len()
        invariant
            i <= list.len(),
            copy.len() == i,
            forall|k: int| 0 <= k < i ==> copy@[k]@ == list@[k]@,
        decreases list.len() - i,
    {
        copy.push(list[i].clone());
        i += 1;
    }
    assert(debug_models(copy@) =~= debug_models(list@));
    copy
}

} // verus!

//! Whole traces.
use crate::trace::annotation::{self, Annotation, AnnotationModel};
use crate::trace::cache::symbol_models;
use crate::trace::event::{self, Event, EventModel};
use crate::trace::frame::{self, Frame, FrameModel, StoredChunk, StoredModel};
use crate::trace::metrics::MetricsRange;
use crate::trace::symbol::{self, SymbolInfo, SymbolModel};
use std::sync::Arc;
use vstd::prelude::*;

verus! {

/// A recording of one call, with the symbols of the calls in it, and of events.
#[derive(Debug)]
pub struct Trace {
    symbols: Vec<Arc<SymbolInfo>>,
    root: Frame,
    events: Vec<Event>,
}

#[verifier::ext_equal]
pub struct TraceModel {
    pub symbols: Seq<SymbolModel>,
    pub root: FrameModel,
    pub events: Seq<EventModel>,
}

impl View for Trace {
    type V = TraceModel;

    open spec fn view(&self) -> TraceModel {
        TraceModel {
            symbols: self.spec_symbols(),
            root: self.spec_root()@,
            events: event::event_models(self.spec_events()),
        }
    }
}

impl Trace {
    pub closed spec fn spec_symbols(&self) -> Seq<SymbolModel> {
        symbol_models(self.symbols@)
    }

    pub closed spec fn spec_root(&self) -> Frame {
        self.root
    }

    pub closed spec fn spec_events(&self) -> Seq<Event> {
        self.events@
    }

    pub fn new(symbols: Vec<Arc<SymbolInfo>>, root: Frame, events: Vec<Event>) -> (result: Self)
        ensures
            result@ == (TraceModel {
                symbols: symbol_models(symbols@),
                root: root@,
                events: event::event_models(events@),
            }),
            result.spec_root() == root,
            result.spec_events() == events@,
    {
        Self { symbols, root, events }
    }

    pub fn root_frame(&self) -> (result: &Frame)
        ensures
            *result == self.spec_root(),
            result@ == self@.root,
    {
        &self.root
    }

    pub fn num_symbols(&self) -> (result: usize)
        ensures
            result == self@.symbols.len(),
    {
        self.symbols.len()
    }

    pub fn events(&self) -> (result: &[Event])
        ensures
            result@ == self.spec_events(),
            event::event_models(result@) == self@.events,
    {
        self.events.as_slice()
    }

    /// The first event with the given id.
    pub fn get_event(&self, id: u32) -> (result: Option<&Event>)
        ensures
            match result {
                Some(event) => event::first_with_id(self@.events, id) == Some(event@),
                None => event::first_with_id(self@.events, id) is None,
            },
    {
        let ghost all = self@.events;
        let mut i: usize = 0;
        assert(all.skip(0) =~= all);
        while i < self.events.len()
            invariant
                i <= self.events.len(),
                all == event::event_models(self.events@),
                event::first_with_id(all, id) == event::first_with_id(all.skip(i as int), id),
            decreases self.events.len() - i,
        {
            assert(all.skip(i as int)[0] == self.events@[i as int]@);
            assert(all.skip(i as int).drop_first() =~= all.skip(i + 1));
            if self.events[i].id == id {
                return Some(&self.events[i]);
            }
            i += 1;
        }
        assert(all.skip(i as int) =~= Seq::empty());
        None
    }
}

/// Handles on the symbols.
fn share_symbols(symbols: &Vec<Arc<SymbolInfo>>) -> (result: Vec<Arc<SymbolInfo>>)
    ensures
        result@ == symbols@,
{
    let mut copy: Vec<Arc<SymbolInfo>> = Vec::new();
    let mut i: usize = 0;
    while i < symbols.len()
        invariant
            i <= symbols.len(),
            copy@ == symbols@.take(i as int),
        decreases symbols.len() - i,
    {
        copy.push(symbol::share(&symbols[i]));
        assert(copy@ =~= symbols@.take(i + 1));
        i += 1;
    }
    assert(copy@ =~= symbols@);
    copy
}

impl Clone for Trace {
    fn clone(&self) -> (result: Self)
        ensures
            result@ == self@,
    {
        Trace {
            symbols: share_symbols(&self.symbols),
            root: self.root.clone(),
            events: event::clone_events(&self.events),
        }
    }
}

/// A trace as it is written to a file: frames name their symbols by index only.
#[derive(Debug)]
pub struct TraceDef {
    pub symbols: Vec<SymbolInfo>,
    pub root: FrameDef,
    pub events: Vec<Event>,
}

#[derive(Debug)]
pub struct FrameDef {
    pub symbol_idx: usize,
    pub metrics: MetricsRange,
    pub annotations: Option<Box<Vec<(String, Annotation)>>>,
    pub chunks: Vec<StoredChunkDef>,
}

#[derive(Debug)]
pub enum StoredChunkDef {
    Frame(FrameDef),
    Pause(MetricsRange),
}

#[verifier::ext_equal]
pub struct FrameDefModel {
    pub symbol_idx: usize,
    pub metrics: MetricsRange,
    pub annotations: Option<Seq<(Seq<char>, AnnotationModel)>>,
    pub chunks: Seq<StoredDefModel>,
}

#[verifier::ext_equal]
pub enum StoredDefModel {
    Frame(FrameDefModel),
    Pause(MetricsRange),
}

#[verifier::ext_equal]
pub struct TraceDefModel {
    pub symbols: Seq<SymbolModel>,
    pub root: FrameDefModel,
    pub events: Seq<EventModel>,
}

impl StoredChunkDef {
    pub open spec fn model(self) -> StoredDefModel
        decreases self,
    {
        match self {
            StoredChunkDef::Frame(def) => StoredDefModel::Frame(def.model()),
            StoredChunkDef::Pause(pause) => StoredDefModel::Pause(pause),
        }
    }
}

impl FrameDef {
    pub open spec fn model(self) -> FrameDefModel
        decreases self,
    {
        FrameDefModel {
            symbol_idx: self.symbol_idx,
            metrics: self.metrics,
            annotations: match self.annotations {
                Some(entries) => Some(annotation::entries_model(entries@)),
                None => None,
            },
            chunks: Seq::new(
                self.chunks@.len(),
                |i: int|
                    if 0 <= i < self.chunks@.len() {
                        self.chunks@[i].model()
                    } else {
                        arbitrary()
                    },
            ),
        }
    }
}

impl View for FrameDef {
    type V = FrameDefModel;

    open spec fn view(&self) -> FrameDefModel {
        self.model()
    }
}

impl View for TraceDef {
    type V = TraceDefModel;

    open spec fn view(&self) -> TraceDefModel {
        TraceDefModel {
            symbols: Seq::new(self.symbols@.len(), |i: int| self.symbols@[i]@),
            root: self.root@,
            events: event::event_models(self.events@),
        }
    }
}

pub open spec fn stored_def_models(chunks: Seq<StoredChunkDef>) -> Seq<StoredDefModel> {
    Seq::new(chunks.len(), |i: int| chunks[i].model())
}

/// The model of a written frame holds the models of its chunks.
pub proof fn frame_def_view(def: &FrameDef)
    ensures
        def@.chunks == stored_def_models(def.chunks@),
{
    reveal_with_fuel(FrameDef::model, 2);
    reveal_with_fuel(StoredChunkDef::model, 2);
    assert(def@.chunks =~= stored_def_models(def.chunks@));
}

/// The first index, from the outside in and from left to right, that is not one of `count`
/// symbols.
pub open spec fn bad_index(def: FrameDefModel, count: nat) -> Option<usize>
    decreases def, 0nat,
{
    if def.symbol_idx >= count {
        Some(def.symbol_idx)
    } else {
        bad_index_in(def.chunks, count)
    }
}

pub open spec fn bad_index_in(chunks: Seq<StoredDefModel>, count: nat) -> Option<usize>
    decreases chunks, chunks.len(),
{
    if chunks.len() == 0 {
        None
    } else {
        match bad_index_in(chunks.drop_last(), count) {
            Some(index) => Some(index),
            None => match chunks.last() {
                StoredDefModel::Frame(def) => bad_index(def, count),
                StoredDefModel::Pause(_) => None,
            },
        }
    }
}

/// The frame that a written one stands for.
pub open spec fn built(def: FrameDefModel, table: Seq<SymbolModel>) -> FrameModel
    decreases def,
{
    FrameModel {
        symbol_idx: def.symbol_idx,
        symbol: table[def.symbol_idx as int],
        metrics: def.metrics,
        annotations: def.annotations,
        chunks: Seq::new(
            def.chunks.len(),
            |i: int|
                if 0 <= i < def.chunks.len() {
                    match def.chunks[i] {
                        StoredDefModel::Frame(inner) => StoredModel::Frame(built(inner, table)),
                        StoredDefModel::Pause(pause) => StoredModel::Pause(pause),
                    }
                } else {
                    arbitrary()
                },
        ),
    }
}

pub open spec fn built_chunk(def: StoredDefModel, table: Seq<SymbolModel>) -> StoredModel {
    match def {
        StoredDefModel::Frame(inner) => StoredModel::Frame(built(inner, table)),
        StoredDefModel::Pause(pause) => StoredModel::Pause(pause),
    }
}

proof fn built_view(def: FrameDefModel, table: Seq<SymbolModel>)
    ensures
        built(def, table).chunks == Seq::new(
            def.chunks.len(),
            |i: int| built_chunk(def.chunks[i], table),
        ),
{
    reveal_with_fuel(built, 2);
    assert(built(def, table).chunks =~= Seq::new(
        def.chunks.len(),
        |i: int| built_chunk(def.chunks[i], table),
    ));
}

/// The frame as it is written.
pub open spec fn written(frame: FrameModel) -> FrameDefModel
    decreases frame,
{
    FrameDefModel {
        symbol_idx: frame.symbol_idx,
        metrics: frame.metrics,
        annotations: frame.annotations,
        chunks: Seq::new(
            frame.chunks.len(),
            |i: int|
                if 0 <= i < frame.chunks.len() {
                    match frame.chunks[i] {
                        StoredModel::Frame(inner) => StoredDefModel::Frame(written(inner)),
                        StoredModel::Pause(pause) => StoredDefModel::Pause(pause),
                    }
                } else {
                    arbitrary()
                },
        ),
    }
}

pub open spec fn written_chunk(chunk: StoredModel) -> StoredDefModel {
    match chunk {
        StoredModel::Frame(inner) => StoredDefModel::Frame(written(inner)),
        StoredModel::Pause(pause) => StoredDefModel::Pause(pause),
    }
}

proof fn written_view(frame: FrameModel)
    ensures
        written(frame).chunks == Seq::new(
            frame.chunks.len(),
            |i: int| written_chunk(frame.chunks[i]),
        ),
{
    reveal_with_fuel(written, 2);
    assert(written(frame).chunks =~= Seq::new(
        frame.chunks.len(),
        |i: int| written_chunk(frame.chunks[i]),
    ));
}

/// The trace that a written one stands for, or the first index that names no symbol.
pub open spec fn read(def: TraceDefModel) -> Result<TraceModel, usize> {
    match bad_index(def.root, def.symbols.len()) {
        Some(index) => Err(index),
        None => Ok(
            TraceModel {
                symbols: def.symbols,
                root: built(def.root, def.symbols),
                events: def.events,
            },
        ),
    }
}

/// The trace as it is written.
pub open spec fn write(trace: TraceModel) -> TraceDefModel {
    TraceDefModel { symbols: trace.symbols, root: written(trace.root), events: trace.events }
}

proof fn no_bad_index(frame: FrameModel, table: Seq<SymbolModel>)
    requires
        frame::indexed_by(frame, table),
    ensures
        bad_index(written(frame), table.len()) is None,
        built(written(frame), table) == frame,
    decreases frame, 0nat,
{
    let def = written(frame);
    written_view(frame);
    built_view(def, table);
    assert forall|i: int| 0 <= i < frame.chunks.len() implies built_chunk(
        #[trigger] def.chunks[i],
        table,
    ) == frame.chunks[i] && match def.chunks[i] {
        StoredDefModel::Frame(inner) => bad_index(inner, table.len()) is None,
        StoredDefModel::Pause(_) => true,
    } by {
        if let StoredModel::Frame(child) = frame.chunks[i] {
            no_bad_index(child, table);
        }
    }
    no_bad_index_in(def.chunks, table.len());
    assert(built(def, table).chunks =~= frame.chunks);
}

proof fn no_bad_index_in(chunks: Seq<StoredDefModel>, count: nat)
    requires
        forall|i: int|
            0 <= i < chunks.len() ==> match #[trigger] chunks[i] {
                StoredDefModel::Frame(inner) => bad_index(inner, count) is None,
                StoredDefModel::Pause(_) => true,
            },
    ensures
        bad_index_in(chunks, count) is None,
    decreases chunks.len(),
{
    if chunks.len() > 0 {
        let rest = chunks.drop_last();
        assert forall|i: int| 0 <= i < rest.len() implies match #[trigger] rest[i] {
            StoredDefModel::Frame(inner) => bad_index(inner, count) is None,
            StoredDefModel::Pause(_) => true,
        } by {
            assert(rest[i] == chunks[i]);
        }
        no_bad_index_in(rest, count);
        assert(chunks.last() == chunks[chunks.len() - 1]);
    }
}

/// A trace whose frames stand in its table of symbols under their indices is read back as it was
/// written.
pub proof fn read_after_write(trace: TraceModel)
    requires
        frame::indexed_by(trace.root, trace.symbols),
    ensures
        read(write(trace)) == Ok::<TraceModel, usize>(trace),
{
    no_bad_index(trace.root, trace.symbols);
}

/// In the annotations of the written frame and of all calls in it, no name stands twice.
pub open spec fn def_well_annotated(def: FrameDefModel) -> bool
    decreases def,
{
    &&& def.annotations matches Some(entries) ==> annotation::entries_well_named(entries)
    &&& forall|i: int|
        0 <= i < def.chunks.len() ==> match #[trigger] def.chunks[i] {
            StoredDefModel::Frame(inner) => def_well_annotated(inner),
            StoredDefModel::Pause(_) => true,
        }
}

/// What is written of a frame has the annotations of the frame, so that no name stands twice in
/// them.
pub proof fn written_well_annotated(frame: FrameModel)
    requires
        frame.well_annotated(),
    ensures
        def_well_annotated(written(frame)),
    decreases frame,
{
    let def = written(frame);
    written_view(frame);
    assert forall|i: int| 0 <= i < def.chunks.len() implies match #[trigger] def.chunks[i] {
        StoredDefModel::Frame(inner) => def_well_annotated(inner),
        StoredDefModel::Pause(_) => true,
    } by {
        if let StoredModel::Frame(child) = frame.chunks[i] {
            written_well_annotated(child);
        }
    }
}

/// What is read of a written frame has its annotations, so that no name stands twice in them.
pub proof fn built_well_annotated(def: FrameDefModel, table: Seq<SymbolModel>)
    requires
        def_well_annotated(def),
    ensures
        built(def, table).well_annotated(),
    decreases def,
{
    let frame = built(def, table);
    built_view(def, table);
    assert forall|i: int| 0 <= i < frame.chunks.len() implies match #[trigger] frame.chunks[i] {
        StoredModel::Frame(child) => child.well_annotated(),
        StoredModel::Pause(_) => true,
    } by {
        assert(frame.chunks[i] == built_chunk(def.chunks[i], table));
        if let StoredDefModel::Frame(inner) = def.chunks[i] {
            built_well_annotated(inner, table);
        }
    }
}

/// Where no name stands twice in the annotations of a trace, none does in what is read after it was
/// written.
pub proof fn annotations_survive(trace: TraceModel)
    requires
        trace.root.well_annotated(),
    ensures
        read(write(trace)) matches Ok(again) ==> again.root.well_annotated(),
{
    written_well_annotated(trace.root);
    built_well_annotated(written(trace.root), trace.symbols);
}

proof fn good_indices(def: FrameDefModel, table: Seq<SymbolModel>)
    requires
        bad_index(def, table.len()) is None,
    ensures
        frame::indexed_by(built(def, table), table),
    decreases def, 0nat,
{
    built_view(def, table);
    good_indices_in(def.chunks, table);
    let frame = built(def, table);
    assert forall|i: int| 0 <= i < frame.chunks.len() implies match #[trigger] frame.chunks[i] {
        StoredModel::Frame(child) => frame::indexed_by(child, table),
        StoredModel::Pause(_) => true,
    } by {
        assert(frame.chunks[i] == built_chunk(def.chunks[i], table));
    }
}

proof fn good_indices_in(chunks: Seq<StoredDefModel>, table: Seq<SymbolModel>)
    requires
        bad_index_in(chunks, table.len()) is None,
    ensures
        forall|i: int|
            0 <= i < chunks.len() ==> match #[trigger] chunks[i] {
                StoredDefModel::Frame(inner) => frame::indexed_by(built(inner, table), table),
                StoredDefModel::Pause(_) => true,
            },
    decreases chunks, chunks.len(),
{
    if chunks.len() > 0 {
        good_indices_in(chunks.drop_last(), table);
        if let StoredDefModel::Frame(inner) = chunks.last() {
            good_indices(inner, table);
        }
        assert forall|i: int| 0 <= i < chunks.len() implies match #[trigger] chunks[i] {
            StoredDefModel::Frame(inner) => frame::indexed_by(built(inner, table), table),
            StoredDefModel::Pause(_) => true,
        } by {
            if i < chunks.len() - 1 {
                assert(chunks[i] == chunks.drop_last()[i]);
            }
        }
    }
}

/// In a trace that was read the frames stand in the table of symbols under their indices.
pub proof fn read_is_indexed(def: TraceDefModel)
    ensures
        read(def) matches Ok(trace) ==> frame::indexed_by(trace.root, trace.symbols),
{
    if bad_index(def.root, def.symbols.len()) is None {
        good_indices(def.root, def.symbols);
    }
}

/// The first index in the frame that is not one of `count` symbols.
fn find_bad_index(def: &FrameDef, count: usize) -> (result: Option<usize>)
    ensures
        result == bad_index(def@, count as nat),
    decreases def,
{
    if def.symbol_idx >= count {
        return Some(def.symbol_idx);
    }
    let ghost chunks = def@.chunks;
    proof {
        frame_def_view(def);
    }
    let mut i: usize = 0;
    assert(chunks.take(0) =~= Seq::empty());
    while i < def.chunks.len()
        invariant
            i <= def.chunks.len(),
            chunks == def@.chunks,
            chunks == stored_def_models(def.chunks@),
            def.symbol_idx < count,
            bad_index_in(chunks.take(i as int), count as nat) is None,
        decreases def.chunks.len() - i,
    {
        proof {
            assert(chunks.take(i + 1).drop_last() =~= chunks.take(i as int));
            assert(chunks.take(i + 1).last() == def.chunks@[i as int].model());
        }
        if let StoredChunkDef::Frame(inner) = &def.chunks[i] {
            assert(decreases_to!(def => def.chunks@[i as int]));
            if let Some(index) = find_bad_index(inner, count) {
                proof {
                    bad_index_spreads(chunks, i + 1, count as nat);
                }
                return Some(index);
            }
        }
        i += 1;
    }
    assert(chunks.take(i as int) =~= chunks);
    None
}

proof fn bad_index_spreads(chunks: Seq<StoredDefModel>, n: int, count: nat)
    requires
        0 <= n <= chunks.len(),
        bad_index_in(chunks.take(n), count) is Some,
    ensures
        bad_index_in(chunks, count) == bad_index_in(chunks.take(n), count),
    decreases chunks.len(),
{
    if n < chunks.len() {
        assert(chunks.drop_last().take(n) =~= chunks.take(n));
        bad_index_spreads(chunks.drop_last(), n, count);
    } else {
        assert(chunks.take(n) =~= chunks);
    }
}

/// Builds a frame in which all indices are good.
fn build_frame(def: FrameDef, symbols: &Vec<Arc<SymbolInfo>>) -> (result: Frame)
    requires
        bad_index(def@, symbols.len() as nat) is None,
    ensures
        result@ == built(def@, symbol_models(symbols@)),
    decreases def,
{
    let ghost whole = def;
    let ghost table = symbol_models(symbols@);
    let FrameDef { symbol_idx, metrics, annotations, chunks } = def;
    let mut left = chunks;
    let ghost models = stored_def_models(chunks@);
    proof {
        frame_def_view(&whole);
        built_view(whole@, table);
        assert(decreases_to!(whole => whole.chunks@));
    }
    let mut reversed: Vec<StoredChunk> = Vec::new();
    while left.len() > 0
        invariant
            whole == def,
            models == stored_def_models(whole.chunks@),
            left@ == whole.chunks@.take(left@.len() as int),
            left.len() + reversed.len() == whole.chunks@.len(),
            bad_index_in(models, symbols.len() as nat) is None,
            table == symbol_models(symbols@),
            forall|i: int|
                0 <= i < reversed.len() ==> (#[trigger] reversed@[i])@ == built_chunk(
                    models[models.len() - 1 - i],
                    table,
                ),
        decreases left.len(),
    {
        let ghost at = left@.len() - 1;
        proof {
            assert(left@[at] == whole.chunks@[at]);
            assert(decreases_to!(whole => whole.chunks@[at]));
            no_bad_index_at(models, symbols.len() as nat, at);
        }
        let chunk = left.pop();
        match chunk {
            Some(StoredChunkDef::Frame(inner)) => {
                reversed.push(StoredChunk::Frame(build_frame(inner, symbols)));
            },
            Some(StoredChunkDef::Pause(pause)) => {
                reversed.push(StoredChunk::Pause(pause));
            },
            None => {},
        }
        assert(left@ =~= whole.chunks@.take(left@.len() as int));
    }
    let mut stored: Vec<StoredChunk> = Vec::new();
    while reversed.len() > 0
        invariant
            reversed.len() + stored.len() == models.len(),
            forall|i: int|
                0 <= i < reversed.len() ==> (#[trigger] reversed@[i])@ == built_chunk(
                    models[models.len() - 1 - i],
                    table,
                ),
            forall|i: int|
                0 <= i < stored.len() ==> (#[trigger] stored@[i])@ == built_chunk(models[i], table),
        decreases reversed.len(),
    {
        let ghost at = reversed@.len() - 1;
        assert(reversed@[at]@ == built_chunk(models[models.len() - 1 - at], table));
        if let Some(chunk) = reversed.pop() {
            stored.push(chunk);
        }
    }
    let result = Frame {
        symbol_idx,
        symbol: symbol::share(&symbols[symbol_idx]),
        metrics,
        annotations,
        chunks: stored,
    };
    proof {
        frame::frame_view(&result);
        assert(result@.chunks =~= built(whole@, table).chunks);
    }
    result
}

proof fn no_bad_index_at(chunks: Seq<StoredDefModel>, count: nat, i: int)
    requires
        bad_index_in(chunks, count) is None,
        0 <= i < chunks.len(),
    ensures
        match chunks[i] {
            StoredDefModel::Frame(inner) => bad_index(inner, count) is None,
            StoredDefModel::Pause(_) => true,
        },
    decreases chunks.len(),
{
    if i < chunks.len() - 1 {
        no_bad_index_at(chunks.drop_last(), count, i);
    }
}

/// The frame as it is written.
fn write_frame(frame: &Frame) -> (result: FrameDef)
    ensures
        result@ == written(frame@),
    decreases frame,
{
    let ghost models = frame@.chunks;
    proof {
        frame::frame_view(frame);
        written_view(frame@);
    }
    let annotations = match &frame.annotations {
        Some(entries) => Some(Box::new(annotation::clone_entries(entries))),
        None => None,
    };
    let mut chunks: Vec<StoredChunkDef> = Vec::new();
    let mut i: usize = 0;
    while i < frame.chunks.len()
        invariant
            i <= frame.chunks.len(),
            chunks.len() == i,
            models == frame::stored_models(frame.chunks@),
            forall|k: int|
                0 <= k < i ==> (#[trigger] chunks@[k]).model() == written_chunk(models[k]),
        decreases frame.chunks.len() - i,
    {
        assert(models[i as int] == frame.chunks@[i as int]@);
        match &frame.chunks[i] {
            StoredChunk::Frame(inner) => {
                assert(decreases_to!(frame => frame.chunks@[i as int]));
                chunks.push(StoredChunkDef::Frame(write_frame(inner)));
            },
            StoredChunk::Pause(pause) => {
                chunks.push(StoredChunkDef::Pause(*pause));
            },
        }
        i += 1;
    }
    let result = FrameDef {
        symbol_idx: frame.symbol_idx,
        metrics: frame.metrics,
        annotations,
        chunks,
    };
    proof {
        frame_def_view(&result);
        assert(result@.chunks =~= written(frame@).chunks);
    }
    result
}

impl Trace {
    /// The trace that a written one stands for. Fails with the first index that names no symbol.
    pub fn from_def(def: TraceDef) -> (result: Result<Trace, usize>)
        ensures
            match (result, read(def@)) {
                (Ok(trace), Ok(model)) => trace@ == model,
                (Err(index), Err(model)) => index == model,
                _ => false,
            },
    {
        let ghost model = def@;
        if let Some(index) = find_bad_index(&def.root, def.symbols.len()) {
            return Err(index);
        }
        let TraceDef { symbols, root, events } = def;
        let ghost all = symbols@;
        let mut left = symbols;
        let mut reversed: Vec<Arc<SymbolInfo>> = Vec::new();
        while left.len() > 0
            invariant
                left@ == all.take(left@.len() as int),
                left.len() + reversed.len() == all.len(),
                forall|i: int|
                    0 <= i < reversed.len() ==> (#[trigger] reversed@[i])@ == all[all.len() - 1
                        - i]@,
            decreases left.len(),
        {
            let ghost at = left@.len() - 1;
            assert(left@[at] == all[at]);
            if let Some(symbol) = left.pop() {
                reversed.push(Arc::new(symbol));
            }
            assert(left@ =~= all.take(left@.len() as int));
        }
        let mut shared: Vec<Arc<SymbolInfo>> = Vec::new();
        while reversed.len() > 0
            invariant
                reversed.len() + shared.len() == all.len(),
                forall|i: int|
                    0 <= i < reversed.len() ==> (#[trigger] reversed@[i])@ == all[all.len() - 1
                        - i]@,
                forall|i: int| 0 <= i < shared.len() ==> (#[trigger] shared@[i])@ == all[i]@,
            decreases reversed.len(),
        {
            let ghost at = reversed@.len() - 1;
            assert(reversed@[at]@ == all[all.len() - 1 - at]@);
            if let Some(symbol) = reversed.pop() {
                shared.push(symbol);
            }
        }
        assert(symbol_models(shared@) =~= model.symbols);
        let frame = build_frame(root, &shared);
        Ok(Trace { symbols: shared, root: frame, events })
    }

    /// The trace as it is written.
    pub fn to_def(&self) -> (result: TraceDef)
        ensures
            result@ == write(self@),
    {
        let mut symbols: Vec<SymbolInfo> = Vec::new();
        let mut i: usize = 0;
        while i < self.symbols.len()
            invariant
                i <= self.symbols.len(),
                symbols.len() == i,
                forall|k: int| 0 <= k < i ==> (#[trigger] symbols@[k])@ == self.symbols@[k]@,
            decreases self.symbols.len() - i,
        {
            symbols.push((*self.symbols[i]).clone());
            i += 1;
        }
        let result = TraceDef {
            symbols,
            root: write_frame(&self.root),
            events: event::clone_events(&self.events),
        };
        assert(result@.symbols =~= self@.symbols);
        result
    }
}

} // verus!

//! Frames: calls of functions, nested in time.
use crate::trace::annotation::{self, Annotation, AnnotationModel};
use crate::trace::error::Error;
use crate::trace::metrics::{self, Metrics, MetricsRange};
use crate::trace::symbol::{self, SymbolInfo, SymbolModel};
use std::sync::Arc;
use vstd::prelude::*;

verus! {

/// One call of a function.
#[derive(Debug, PartialEq)]
pub struct Frame {
    pub symbol_idx: usize,
    pub symbol: Arc<SymbolInfo>,
    pub metrics: MetricsRange,
    pub annotations: Option<Box<Vec<(String, Annotation)>>>,
    /// Only calls and pauses are stored. `chunks` fills in the straight lines between them.
    pub chunks: Vec<StoredChunk>,
}

/// What a frame keeps of its course.
#[derive(Debug, PartialEq)]
pub enum StoredChunk {
    Frame(Frame),
    Pause(MetricsRange),
}

/// A part of the course of a frame.
#[derive(Debug, Clone, Copy, PartialEq)]
pub enum Chunk<'a> {
    Frame(&'a Frame),
    Straightline(MetricsRange),
    Pause(&'a MetricsRange),
}

#[verifier::ext_equal]
pub struct FrameModel {
    pub symbol_idx: usize,
    pub symbol: SymbolModel,
    pub metrics: MetricsRange,
    pub annotations: Option<Seq<(Seq<char>, AnnotationModel)>>,
    pub chunks: Seq<StoredModel>,
}

#[verifier::ext_equal]
pub enum StoredModel {
    Frame(FrameModel),
    Pause(MetricsRange),
}

#[verifier::ext_equal]
pub enum ChunkModel {
    Frame(FrameModel),
    Straightline(MetricsRange),
    Pause(MetricsRange),
}

impl StoredChunk {
    pub open spec fn model(self) -> StoredModel
        decreases self,
    {
        match self {
            StoredChunk::Frame(frame) => StoredModel::Frame(frame.model()),
            StoredChunk::Pause(pause) => StoredModel::Pause(pause),
        }
    }
}

impl Frame {
    pub open spec fn model(self) -> FrameModel
        decreases self,
    {
        FrameModel {
            symbol_idx: self.symbol_idx,
            symbol: self.symbol@,
            metrics: self.metrics,
            annotations: match self.annotations {
                Some(entries) => Some(annotation::entries_model(entries@)),
                None => None,
            },
            chunks: Seq::new(
                self.chunks@.len(),
                |i: int|
                    if 0 <= i < self.chunks@.len() {
                        self.chunks@[i].model()
                    } else {
                        arbitrary()
                    },
            ),
        }
    }
}

impl View for StoredChunk {
    type V = StoredModel;

    open spec fn view(&self) -> StoredModel {
        self.model()
    }
}

impl View for Frame {
    type V = FrameModel;

    open spec fn view(&self) -> FrameModel {
        self.model()
    }
}

impl<'a> View for Chunk<'a> {
    type V = ChunkModel;

    open spec fn view(&self) -> ChunkModel {
        match self {
            Chunk::Frame(frame) => ChunkModel::Frame(frame@),
            Chunk::Straightline(range) => ChunkModel::Straightline(*range),
            Chunk::Pause(range) => ChunkModel::Pause(**range),
        }
    }
}

impl StoredModel {
    pub open spec fn range(self) -> MetricsRange {
        match self {
            StoredModel::Frame(frame) => frame.metrics,
            StoredModel::Pause(pause) => pause,
        }
    }

    pub open spec fn chunk(self) -> ChunkModel {
        match self {
            StoredModel::Frame(frame) => ChunkModel::Frame(frame),
            StoredModel::Pause(pause) => ChunkModel::Pause(pause),
        }
    }
}

impl ChunkModel {
    pub open spec fn range(self) -> MetricsRange {
        match self {
            ChunkModel::Frame(frame) => frame.metrics,
            ChunkModel::Straightline(range) => range,
            ChunkModel::Pause(range) => range,
        }
    }
}

/// The models of a list of stored chunks.
pub open spec fn stored_models(stored: Seq<StoredChunk>) -> Seq<StoredModel> {
    Seq::new(stored.len(), |i: int| stored[i]@)
}

/// The model of a frame holds the models of its chunks.
pub proof fn frame_view(frame: &Frame)
    ensures
        frame@.chunks == stored_models(frame.chunks@),
{
    reveal_with_fuel(Frame::model, 2);
    reveal_with_fuel(StoredChunk::model, 2);
    assert(frame@.chunks =~= stored_models(frame.chunks@));
}

/// The models of a list of chunks.
pub open spec fn chunk_models(chunks: Seq<Chunk>) -> Seq<ChunkModel> {
    Seq::new(chunks.len(), |i: int| chunks[i]@)
}

/// `from` lies before `to` in at least one counter.
pub open spec fn is_gap(from: Metrics, to: Metrics) -> bool {
    to.ts > from.ts || to.cycles > from.cycles || to.insn_count > from.insn_count
}

/// The straight line from `from` to `to`, if there is any way between the two.
pub open spec fn straightline(from: Metrics, to: Metrics) -> Seq<ChunkModel> {
    if is_gap(from, to) {
        seq![ChunkModel::Straightline(MetricsRange::between(from, to))]
    } else {
        Seq::empty()
    }
}

/// The stored chunks with straight lines filled in from `from` up to `end`.
pub open spec fn course(from: Metrics, end: Metrics, stored: Seq<StoredModel>) -> Seq<ChunkModel>
    decreases stored.len(),
{
    if stored.len() == 0 {
        straightline(from, end)
    } else {
        straightline(from, stored[0].range().start) + seq![stored[0].chunk()] + course(
            stored[0].range().spec_end(),
            end,
            stored.drop_first(),
        )
    }
}

/// Every straight line that has to be filled in can be held in a range.
pub open spec fn course_exists(from: Metrics, end: Metrics, stored: Seq<StoredModel>) -> bool
    decreases stored.len(),
{
    if stored.len() == 0 {
        is_gap(from, end) ==> MetricsRange::spans(from, end)
    } else {
        &&& is_gap(from, stored[0].range().start) ==> MetricsRange::spans(
            from,
            stored[0].range().start,
        )
        &&& stored[0].range().fits()
        &&& course_exists(stored[0].range().spec_end(), end, stored.drop_first())
    }
}

/// The stored chunks lie in the range, one behind the other.
pub open spec fn in_order(range: MetricsRange, stored: Seq<StoredModel>) -> bool {
    &&& range.fits()
    &&& forall|i: int|
        0 <= i < stored.len() ==> (#[trigger] stored[i]).range().fits() && range.includes(
            stored[i].range(),
        )
    &&& forall|i: int, j: int|
        0 <= i < j < stored.len() ==> (#[trigger] stored[i]).range().spec_end().le_all(
            (#[trigger] stored[j]).range().start,
        )
}

/// Where the gap before the chunk at `k` begins; behind the last chunk for `k == stored.len()`.
pub open spec fn gap_start(range: MetricsRange, stored: Seq<StoredModel>, k: int) -> Metrics {
    if k == 0 {
        range.start
    } else {
        stored[k - 1].range().spec_end()
    }
}

/// Where the gap before the chunk at `k` ends.
pub open spec fn gap_end(range: MetricsRange, stored: Seq<StoredModel>, k: int) -> Metrics {
    if k == stored.len() {
        range.spec_end()
    } else {
        stored[k].range().start
    }
}

/// `inner` fits in the gap before the chunk at `k`.
pub open spec fn gap_takes(
    range: MetricsRange,
    stored: Seq<StoredModel>,
    k: int,
    inner: MetricsRange,
) -> bool {
    &&& gap_start(range, stored, k).le_all(inner.start)
    &&& inner.spec_end().le_all(gap_end(range, stored, k))
}

/// The last of the first `k + 1` gaps that takes `inner`.
pub open spec fn slot_up_to(
    range: MetricsRange,
    stored: Seq<StoredModel>,
    k: int,
    inner: MetricsRange,
) -> Option<int>
    decreases k + 1,
{
    if k < 0 {
        None
    } else if gap_takes(range, stored, k, inner) {
        Some(k)
    } else {
        slot_up_to(range, stored, k - 1, inner)
    }
}

/// The last gap of the frame that takes `inner`.
pub open spec fn slot(range: MetricsRange, stored: Seq<StoredModel>, inner: MetricsRange) -> Option<
    int,
> {
    slot_up_to(range, stored, stored.len() as int, inner)
}

/// The ranges of the frame and of all in it end where samples can be held.
pub open spec fn ends_fit(frame: FrameModel) -> bool
    decreases frame,
{
    &&& frame.metrics.fits()
    &&& forall|i: int|
        0 <= i < frame.chunks.len() ==> match #[trigger] frame.chunks[i] {
            StoredModel::Frame(child) => ends_fit(child),
            StoredModel::Pause(pause) => pause.fits(),
        }
}

impl FrameModel {
    /// The chunks of the frame lie in it, one behind the other.
    pub open spec fn ordered(self) -> bool {
        in_order(self.metrics, self.chunks)
    }

    /// The frame and all calls in it are ordered.
    pub open spec fn deeply_ordered(self) -> bool
        decreases self,
    {
        &&& self.ordered()
        &&& forall|i: int|
            0 <= i < self.chunks.len() ==> match #[trigger] self.chunks[i] {
                StoredModel::Frame(frame) => frame.deeply_ordered(),
                StoredModel::Pause(_) => true,
            }
    }

    /// In the annotations of the frame and of all calls in it, no name stands twice.
    pub open spec fn well_annotated(self) -> bool
        decreases self,
    {
        &&& self.annotations matches Some(entries) ==> annotation::entries_well_named(entries)
        &&& forall|i: int|
            0 <= i < self.chunks.len() ==> match #[trigger] self.chunks[i] {
                StoredModel::Frame(frame) => frame.well_annotated(),
                StoredModel::Pause(_) => true,
            }
    }

    /// The course of the frame can be laid out.
    pub open spec fn has_course(self) -> bool {
        &&& self.metrics.fits()
        &&& course_exists(self.metrics.start, self.metrics.spec_end(), self.chunks)
    }

    /// The frame's chunks with straight lines between them.
    pub open spec fn course(self) -> Seq<ChunkModel> {
        course(self.metrics.start, self.metrics.spec_end(), self.chunks)
    }

    /// The frame with `chunk` stored before the chunk at `k`.
    pub open spec fn with_chunk(self, k: int, chunk: StoredModel) -> FrameModel {
        FrameModel { chunks: self.chunks.insert(k, chunk), ..self }
    }

    pub open spec fn text(self) -> Seq<char> {
        self.symbol.text() + " ("@ + self.metrics.start.text() + " - "@
            + self.metrics.spec_end().text() + ")"@
    }

    /// The chunks of the course take up as much time, cycles and instructions as the frame.
    pub open spec fn adds_up(self) -> bool {
        &&& metrics::total(durations(self.course())) == self.metrics.ts_incr
        &&& metrics::total(cycle_lengths(self.course())) == self.metrics.cycles_incr
        &&& metrics::total(insn_lengths(self.course())) == self.metrics.insn_incr
    }
}

/// A frame keeps its annotations in order when a chunk is stored in it whose annotations are.
pub proof fn chunk_keeps_annotations(frame: FrameModel, k: int, chunk: StoredModel)
    requires
        frame.well_annotated(),
        0 <= k <= frame.chunks.len(),
        chunk matches StoredModel::Frame(child) ==> child.well_annotated(),
    ensures
        frame.with_chunk(k, chunk).well_annotated(),
{
    let after = frame.with_chunk(k, chunk);
    assert forall|i: int| 0 <= i < after.chunks.len() implies match #[trigger] after.chunks[i] {
        StoredModel::Frame(child) => child.well_annotated(),
        StoredModel::Pause(_) => true,
    } by {
        if i < k {
            assert(after.chunks[i] == frame.chunks[i]);
        } else if i > k {
            assert(after.chunks[i] == frame.chunks[i - 1]);
        }
    }
}

/// The frame and the calls in it stand in the table under their indices.
pub open spec fn indexed_by(frame: FrameModel, table: Seq<SymbolModel>) -> bool
    decreases frame,
{
    &&& frame.symbol_idx < table.len()
    &&& table[frame.symbol_idx as int] == frame.symbol
    &&& forall|i: int|
        0 <= i < frame.chunks.len() ==> match #[trigger] frame.chunks[i] {
            StoredModel::Frame(child) => indexed_by(child, table),
            StoredModel::Pause(_) => true,
        }
}

/// The calls among the chunks stand in the table under their indices.
pub open spec fn chunks_indexed_by(chunks: Seq<StoredModel>, table: Seq<SymbolModel>) -> bool {
    forall|i: int|
        0 <= i < chunks.len() ==> match #[trigger] chunks[i] {
            StoredModel::Frame(child) => indexed_by(child, table),
            StoredModel::Pause(_) => true,
        }
}

/// Indices stay good in a table that has grown.
pub proof fn indexed_by_grown(
    frame: FrameModel,
    table: Seq<SymbolModel>,
    grown: Seq<SymbolModel>,
)
    requires
        indexed_by(frame, table),
        table.len() <= grown.len(),
        forall|i: int| 0 <= i < table.len() ==> #[trigger] grown[i] == table[i],
    ensures
        indexed_by(frame, grown),
    decreases frame,
{
    assert forall|i: int| 0 <= i < frame.chunks.len() implies match #[trigger] frame.chunks[i] {
        StoredModel::Frame(child) => indexed_by(child, grown),
        StoredModel::Pause(_) => true,
    } by {
        if let StoredModel::Frame(child) = frame.chunks[i] {
            indexed_by_grown(child, table, grown);
        }
    }
}

pub open spec fn durations(chunks: Seq<ChunkModel>) -> Seq<int> {
    Seq::new(chunks.len(), |i: int| chunks[i].range().ts_incr as int)
}

pub open spec fn cycle_lengths(chunks: Seq<ChunkModel>) -> Seq<int> {
    Seq::new(chunks.len(), |i: int| chunks[i].range().cycles_incr as int)
}

pub open spec fn insn_lengths(chunks: Seq<ChunkModel>) -> Seq<int> {
    Seq::new(chunks.len(), |i: int| chunks[i].range().insn_incr as int)
}

/// Behind the first of chunks in order, the others are in order too.
pub proof fn in_order_rest(range: MetricsRange, stored: Seq<StoredModel>)
    requires
        in_order(range, stored),
        stored.len() > 0,
    ensures
        MetricsRange::spans(stored[0].range().spec_end(), range.spec_end()),
        in_order(
            MetricsRange::between(stored[0].range().spec_end(), range.spec_end()),
            stored.drop_first(),
        ),
{
    let rest = stored.drop_first();
    assert(range.includes(stored[0].range()));
    assert forall|i: int| 0 <= i < rest.len() implies (#[trigger] rest[i]).range().fits()
        && MetricsRange::between(stored[0].range().spec_end(), range.spec_end()).includes(
        rest[i].range(),
    ) by {
        assert(rest[i] == stored[i + 1]);
        assert(stored[0].range().spec_end().le_all(stored[i + 1].range().start));
    }
    assert forall|i: int, j: int|
        0 <= i < j < rest.len() implies (#[trigger] rest[i]).range().spec_end().le_all(
        (#[trigger] rest[j]).range().start,
    ) by {
        assert(rest[i] == stored[i + 1]);
        assert(rest[j] == stored[j + 1]);
    }
}

/// The course of chunks in order can be laid out.
pub proof fn ordered_has_course(range: MetricsRange, stored: Seq<StoredModel>)
    requires
        in_order(range, stored),
    ensures
        course_exists(range.start, range.spec_end(), stored),
    decreases stored.len(),
{
    if stored.len() > 0 {
        assert(range.includes(stored[0].range()));
        in_order_rest(range, stored);
        ordered_has_course(
            MetricsRange::between(stored[0].range().spec_end(), range.spec_end()),
            stored.drop_first(),
        );
    }
}

/// A total is that of the two halves.
pub proof fn total_of_sum(a: Seq<int>, b: Seq<int>)
    ensures
        metrics::total(a + b) == metrics::total(a) + metrics::total(b),
    decreases b.len(),
{
    if b.len() == 0 {
        assert(a + b =~= a);
    } else {
        assert((a + b).drop_last() =~= a + b.drop_last());
        total_of_sum(a, b.drop_last());
    }
}

proof fn total_of_one(n: int)
    ensures
        metrics::total(seq![n]) == n,
{
    assert(seq![n].drop_last() =~= Seq::<int>::empty());
    assert(metrics::total(Seq::<int>::empty()) == 0);
}

proof fn straightline_totals(from: Metrics, to: Metrics)
    requires
        MetricsRange::spans(from, to),
    ensures
        metrics::total(durations(straightline(from, to))) == to.ts - from.ts,
        metrics::total(cycle_lengths(straightline(from, to))) == to.cycles - from.cycles,
        metrics::total(insn_lengths(straightline(from, to))) == to.insn_count - from.insn_count,
{
    let line = straightline(from, to);
    if is_gap(from, to) {
        assert(durations(line) =~= seq![to.ts - from.ts]);
        assert(cycle_lengths(line) =~= seq![to.cycles - from.cycles]);
        assert(insn_lengths(line) =~= seq![to.insn_count - from.insn_count]);
        total_of_one(to.ts - from.ts);
        total_of_one(to.cycles - from.cycles);
        total_of_one(to.insn_count - from.insn_count);
    } else {
        assert(durations(line) =~= Seq::<int>::empty());
        assert(cycle_lengths(line) =~= Seq::<int>::empty());
        assert(insn_lengths(line) =~= Seq::<int>::empty());
    }
}

/// The course of chunks in order takes up exactly the range that they lie in.
pub proof fn ordered_totals(range: MetricsRange, stored: Seq<StoredModel>)
    requires
        in_order(range, stored),
    ensures
        metrics::total(durations(course(range.start, range.spec_end(), stored))) == range.ts_incr,
        metrics::total(cycle_lengths(course(range.start, range.spec_end(), stored)))
            == range.cycles_incr,
        metrics::total(insn_lengths(course(range.start, range.spec_end(), stored)))
            == range.insn_incr,
    decreases stored.len(),
{
    if stored.len() == 0 {
        straightline_totals(range.start, range.spec_end());
    } else {
        let first = stored[0].range();
        assert(range.includes(first));
        in_order_rest(range, stored);
        let rest = MetricsRange::between(first.spec_end(), range.spec_end());
        ordered_totals(rest, stored.drop_first());
        straightline_totals(range.start, first.start);
        let a = straightline(range.start, first.start);
        let b = seq![stored[0].chunk()];
        let c = course(first.spec_end(), range.spec_end(), stored.drop_first());
        assert(durations(a + b + c) =~= durations(a) + durations(b) + durations(c));
        assert(cycle_lengths(a + b + c) =~= cycle_lengths(a) + cycle_lengths(b) + cycle_lengths(c));
        assert(insn_lengths(a + b + c) =~= insn_lengths(a) + insn_lengths(b) + insn_lengths(c));
        total_of_sum(durations(a) + durations(b), durations(c));
        total_of_sum(durations(a), durations(b));
        total_of_sum(cycle_lengths(a) + cycle_lengths(b), cycle_lengths(c));
        total_of_sum(cycle_lengths(a), cycle_lengths(b));
        total_of_sum(insn_lengths(a) + insn_lengths(b), insn_lengths(c));
        total_of_sum(insn_lengths(a), insn_lengths(b));
        assert(durations(b) =~= seq![first.ts_incr as int]);
        assert(cycle_lengths(b) =~= seq![first.cycles_incr as int]);
        assert(insn_lengths(b) =~= seq![first.insn_incr as int]);
        total_of_one(first.ts_incr as int);
        total_of_one(first.cycles_incr as int);
        total_of_one(first.insn_incr as int);
    }
}

/// The chunks lead from `from` to `to`, each beginning where the one before it ends.
pub open spec fn tiles(from: Metrics, to: Metrics, chunks: Seq<ChunkModel>) -> bool {
    &&& chunks.len() == 0 ==> from == to
    &&& chunks.len() > 0 ==> chunks[0].range().start == from && chunks.last().range().spec_end() == to
    &&& forall|i: int|
        0 < i < chunks.len() ==> (#[trigger] chunks[i]).range().start
            == chunks[i - 1].range().spec_end()
    &&& forall|i: int| 0 <= i < chunks.len() ==> (#[trigger] chunks[i]).range().fits()
}

proof fn tiles_joined(
    from: Metrics,
    mid: Metrics,
    to: Metrics,
    a: Seq<ChunkModel>,
    b: Seq<ChunkModel>,
)
    requires
        tiles(from, mid, a),
        tiles(mid, to, b),
    ensures
        tiles(from, to, a + b),
{
    let all = a + b;
    assert forall|i: int| 0 < i < all.len() implies (#[trigger] all[i]).range().start == all[i
        - 1].range().spec_end() by {
        if i < a.len() {
            assert(all[i] == a[i] && all[i - 1] == a[i - 1]);
        } else if i == a.len() {
            assert(all[i] == b[0] && all[i - 1] == a.last());
        } else {
            assert(all[i] == b[i - a.len()] && all[i - 1] == b[i - a.len() - 1]);
        }
    }
    assert forall|i: int| 0 <= i < all.len() implies (#[trigger] all[i]).range().fits() by {
        if i < a.len() {
            assert(all[i] == a[i]);
        } else {
            assert(all[i] == b[i - a.len()]);
        }
    }
    if b.len() == 0 {
        assert(all =~= a);
    } else {
        assert(all.last() == b.last());
        if a.len() == 0 {
            assert(all =~= b);
        } else {
            assert(all[0] == a[0]);
        }
    }
}

/// The course of chunks in order leads through the range that they lie in, without gap or overlap.
pub proof fn ordered_tiles(range: MetricsRange, stored: Seq<StoredModel>)
    requires
        in_order(range, stored),
    ensures
        tiles(range.start, range.spec_end(), course(range.start, range.spec_end(), stored)),
    decreases stored.len(),
{
    if stored.len() == 0 {
        assert(MetricsRange::spans(range.start, range.spec_end()));
    } else {
        let first = stored[0].range();
        assert(range.includes(first));
        in_order_rest(range, stored);
        let rest = MetricsRange::between(first.spec_end(), range.spec_end());
        ordered_tiles(rest, stored.drop_first());
        let a = straightline(range.start, first.start);
        let b = seq![stored[0].chunk()];
        let c = course(first.spec_end(), range.spec_end(), stored.drop_first());
        assert(MetricsRange::spans(range.start, first.start));
        assert(tiles(range.start, first.start, a));
        assert(tiles(first.start, first.spec_end(), b));
        tiles_joined(range.start, first.start, first.spec_end(), a, b);
        tiles_joined(range.start, first.spec_end(), range.spec_end(), a + b, c);
    }
}

/// The course of an ordered frame leads through the frame, without gap or overlap.
pub proof fn ordered_frame_tiles(frame: FrameModel)
    requires
        frame.ordered(),
    ensures
        tiles(frame.metrics.start, frame.metrics.spec_end(), frame.course()),
{
    ordered_tiles(frame.metrics, frame.chunks);
}

/// An ordered frame keeps the invariant that its chunks add up to it.
pub proof fn ordered_adds_up(frame: FrameModel)
    requires
        frame.ordered(),
    ensures
        frame.has_course(),
        frame.adds_up(),
{
    ordered_has_course(frame.metrics, frame.chunks);
    ordered_totals(frame.metrics, frame.chunks);
}

/// A chunk stored in a gap that takes it leaves the chunks in order.
pub proof fn insert_keeps_order(
    range: MetricsRange,
    stored: Seq<StoredModel>,
    k: int,
    chunk: StoredModel,
)
    requires
        in_order(range, stored),
        0 <= k <= stored.len(),
        chunk.range().fits(),
        gap_takes(range, stored, k, chunk.range()),
    ensures
        in_order(range, stored.insert(k, chunk)),
{
    let after = stored.insert(k, chunk);
    if k > 0 {
        assert(range.includes(stored[k - 1].range()));
    }
    if k < stored.len() {
        assert(range.includes(stored[k].range()));
    }
    assert forall|i: int| 0 <= i < after.len() implies (#[trigger] after[i]).range().fits()
        && range.includes(after[i].range()) by {
        if i < k {
            assert(after[i] == stored[i]);
        } else if i > k {
            assert(after[i] == stored[i - 1]);
        } else {
            assert(after[i] == chunk);
        }
    }
    assert forall|i: int, j: int|
        0 <= i < j < after.len() implies (#[trigger] after[i]).range().spec_end().le_all(
        (#[trigger] after[j]).range().start,
    ) by {
        if j < k {
            assert(after[i] == stored[i] && after[j] == stored[j]);
        } else if i > k {
            assert(after[i] == stored[i - 1] && after[j] == stored[j - 1]);
        } else if i < k && j > k {
            assert(after[i] == stored[i] && after[j] == stored[j - 1]);
        } else if i < k {
            assert(after[i] == stored[i] && after[j] == chunk);
            if i < k - 1 {
                assert(stored[i].range().spec_end().le_all(stored[k - 1].range().start));
                assert(range.includes(stored[k - 1].range()));
            }
        } else {
            assert(after[i] == chunk && after[j] == stored[j - 1]);
            if j - 1 > k {
                assert(stored[k].range().spec_end().le_all(stored[j - 1].range().start));
            }
        }
    }
}

/// Where a gap is found, it takes the range, and no later one does.
pub proof fn slot_is_last(range: MetricsRange, stored: Seq<StoredModel>, k: int, inner: MetricsRange)
    requires
        k <= stored.len(),
    ensures
        match slot_up_to(range, stored, k, inner) {
            Some(at) => {
                &&& 0 <= at <= k
                &&& gap_takes(range, stored, at, inner)
                &&& forall|i: int| at < i <= k ==> !#[trigger] gap_takes(range, stored, i, inner)
            },
            None => forall|i: int| 0 <= i <= k ==> !#[trigger] gap_takes(range, stored, i, inner),
        },
    decreases k + 1,
{
    if k >= 0 && !gap_takes(range, stored, k, inner) {
        slot_is_last(range, stored, k - 1, inner);
    }
}

/// A range that ends behind a gap fits in no gap before it.
proof fn no_earlier_slot(
    range: MetricsRange,
    stored: Seq<StoredModel>,
    k: int,
    inner: MetricsRange,
    end: Metrics,
)
    requires
        in_order(range, stored),
        inner.fits(),
        0 <= k <= stored.len(),
        end == gap_end(range, stored, k),
        !inner.spec_end().le_all(end),
    ensures
        slot_up_to(range, stored, k, inner) is None,
    decreases k,
{
    if k > 0 {
        assert(range.includes(stored[k - 1].range()));
        if k < stored.len() {
            assert(stored[k - 1].range().spec_end().le_all(stored[k].range().start));
        }
        no_earlier_slot(range, stored, k - 1, inner, gap_end(range, stored, k - 1));
    } else {
        assert(slot_up_to(range, stored, -1, inner) is None);
    }
}

impl StoredChunk {
    pub fn metrics(&self) -> (result: &MetricsRange)
        ensures
            *result == self@.range(),
    {
        match self {
            StoredChunk::Frame(frame) => &frame.metrics,
            StoredChunk::Pause(pause) => pause,
        }
    }

    pub fn to_chunk<'a>(&'a self) -> (result: Chunk<'a>)
        ensures
            result@ == self@.chunk(),
            match *self {
                StoredChunk::Frame(frame) => result == Chunk::Frame(&frame),
                StoredChunk::Pause(pause) => result == Chunk::Pause(&pause),
            },
    {
        match self {
            StoredChunk::Frame(frame) => Chunk::Frame(frame),
            StoredChunk::Pause(pause) => Chunk::Pause(pause),
        }
    }
}

impl<'a> Chunk<'a> {
    pub fn metrics(&self) -> (result: MetricsRange)
        ensures
            result == self@.range(),
    {
        match self {
            Chunk::Frame(frame) => frame.metrics,
            Chunk::Straightline(range) => *range,
            Chunk::Pause(range) => **range,
        }
    }
}

impl Frame {
    /// A frame without calls or pauses.
    pub fn new(metrics: MetricsRange, symbol_idx: usize, symbol: Arc<SymbolInfo>) -> (result: Self)
        ensures
            result@ == (FrameModel {
                symbol_idx,
                symbol: symbol@,
                metrics,
                annotations: None,
                chunks: Seq::empty(),
            }),
            metrics.fits() ==> result@.deeply_ordered(),
    {
        let result = Self { symbol_idx, symbol, metrics, annotations: None, chunks: Vec::new() };
        assert(result@.chunks =~= Seq::empty());
        result
    }

    /// Stores a chunk in the last gap that takes it.
    pub fn insert_chunk(&mut self, chunk: StoredChunk) -> (result: Result<(), Error>)
        requires
            old(self)@.ordered(),
            chunk@.range().fits(),
        ensures
            match slot(old(self)@.metrics, old(self)@.chunks, chunk@.range()) {
                Some(k) => {
                    &&& result is Ok
                    &&& final(self)@ == old(self)@.with_chunk(k, chunk@)
                },
                None => {
                    &&& result == Err::<(), Error>(Error::InvalidRange(chunk@.range()))
                    &&& final(self)@ == old(self)@
                },
            },
            final(self)@.ordered(),
    {
        let ghost range = self.metrics;
        let ghost stored = self@.chunks;
        let ghost inner = chunk@.range();
        proof {
            frame_view(self);
        }
        let chunk_range = *chunk.metrics();
        let chunk_end = chunk_range.end();
        let mut straightline_end = self.metrics.end();
        let mut i: usize = self.chunks.len();
        while i > 0
            invariant
                i <= self.chunks.len(),
                *self == *old(self),
                range == self.metrics,
                stored == self@.chunks,
                stored == stored_models(self.chunks@),
                inner == chunk@.range(),
                chunk_range == inner,
                chunk_end == inner.spec_end(),
                inner.fits(),
                in_order(range, stored),
                straightline_end == gap_end(range, stored, i as int),
                slot(range, stored, inner) == slot_up_to(range, stored, i as int, inner),
            decreases i,
        {
            if !chunk_end.at_most(&straightline_end) {
                proof {
                    no_earlier_slot(range, stored, i as int, inner, straightline_end);
                }
                return Err(Error::InvalidRange(chunk_range));
            }
            let existing = *self.chunks[i - 1].metrics();
            proof {
                assert(self.chunks@[i - 1]@ == stored[i - 1]);
                assert(existing == stored[i - 1].range());
                assert(range.includes(existing));
                if i < stored.len() {
                    assert(existing.spec_end().le_all(stored[i as int].range().start));
                    assert(range.includes(stored[i as int].range()));
                }
            }
            let straightline = MetricsRange::new(existing.end(), &straightline_end);
            if straightline.includes_range(&chunk_range) {
                let ghost added = chunk@;
                proof {
                    insert_keeps_order(range, stored, i as int, added);
                }
                self.chunks.insert(i, chunk);
                proof {
                    frame_view(self);
                }
                assert(self@.chunks =~= stored.insert(i as int, added));
                return Ok(());
            }
            straightline_end = existing.start;
            i -= 1;
        }
        proof {
            if stored.len() > 0 {
                assert(range.includes(stored[0].range()));
            }
        }
        let straightline = MetricsRange::new(self.metrics.start, &straightline_end);
        if straightline.includes_range(&chunk_range) {
            let ghost added = chunk@;
            proof {
                insert_keeps_order(range, stored, 0, added);
            }
            self.chunks.insert(0, chunk);
            proof {
                frame_view(self);
            }
            assert(self@.chunks =~= stored.insert(0, added));
            return Ok(());
        }
        assert(slot_up_to(range, stored, -1, inner) is None);
        Err(Error::InvalidRange(chunk_range))
    }

    /// Adds a call, if there is a gap that takes it.
    pub fn add_child(&mut self, child: Frame) -> (result: Result<(), Error>)
        requires
            old(self)@.ordered(),
            child@.metrics.fits(),
        ensures
            match slot(old(self)@.metrics, old(self)@.chunks, child@.metrics) {
                Some(k) => {
                    &&& result is Ok
                    &&& final(self)@ == old(self)@.with_chunk(k, StoredModel::Frame(child@))
                },
                None => {
                    &&& result == Err::<(), Error>(Error::InvalidRange(child@.metrics))
                    &&& final(self)@ == old(self)@
                },
            },
            final(self)@.ordered(),
    {
        self.insert_chunk(StoredChunk::Frame(child))
    }

    /// Adds a pause, if there is a gap that takes it.
    pub fn add_pause(&mut self, pause: MetricsRange) -> (result: Result<(), Error>)
        requires
            old(self)@.ordered(),
            pause.fits(),
        ensures
            match slot(old(self)@.metrics, old(self)@.chunks, pause) {
                Some(k) => {
                    &&& result is Ok
                    &&& final(self)@ == old(self)@.with_chunk(k, StoredModel::Pause(pause))
                },
                None => {
                    &&& result == Err::<(), Error>(Error::InvalidRange(pause))
                    &&& final(self)@ == old(self)@
                },
            },
            final(self)@.ordered(),
    {
        self.insert_chunk(StoredChunk::Pause(pause))
    }

    /// The course of the frame: its calls and pauses, with the straight lines between them.
    pub fn chunks<'a>(&'a self) -> (result: Vec<Chunk<'a>>)
        requires
            self@.has_course(),
        ensures
            chunk_models(result@) == self@.course(),
    {
        let ghost stored = self@.chunks;
        proof {
            frame_view(self);
            assert(stored.skip(0) =~= stored);
        }
        let end = self.metrics.end();
        let mut current = self.metrics.start;
        let mut result: Vec<Chunk<'a>> = Vec::new();
        let mut i: usize = 0;
        while i < self.chunks.len()
            invariant
                i <= self.chunks.len(),
                stored == self@.chunks,
                stored == stored_models(self.chunks@),
                end == self.metrics.spec_end(),
                course_exists(current, end, stored.skip(i as int)),
                self@.course() == chunk_models(result@) + course(
                    current,
                    end,
                    stored.skip(i as int),
                ),
            decreases self.chunks.len() - i,
        {
            let ghost rest = stored.skip(i as int);
            let ghost before = chunk_models(result@);
            let ghost from = current;
            let range = *self.chunks[i].metrics();
            proof {
                assert(self.chunks@[i as int]@ == stored[i as int]);
                assert(rest[0] == stored[i as int]);
                assert(rest.drop_first() =~= stored.skip(i + 1));
            }
            if range.start.ts > current.ts || range.start.cycles > current.cycles
                || range.start.insn_count > current.insn_count {
                result.push(Chunk::Straightline(MetricsRange::new(current, &range.start)));
            }
            assert(chunk_models(result@) =~= before + straightline(from, range.start));
            result.push(self.chunks[i].to_chunk());
            current = range.end();
            proof {
                assert(chunk_models(result@) =~= before + straightline(from, range.start) + seq![
                    rest[0].chunk(),
                ]);
                assert(self@.course() =~= chunk_models(result@) + course(
                    current,
                    end,
                    stored.skip(i + 1),
                ));
            }
            i += 1;
        }
        let ghost before = chunk_models(result@);
        if end.ts > current.ts || end.cycles > current.cycles || end.insn_count
            > current.insn_count {
            result.push(Chunk::Straightline(MetricsRange::new(current, &end)));
        }
        assert(chunk_models(result@) =~= before + straightline(current, end));
        result
    }

    /// Whether the chunks of the frame add up to it, in time, cycles and instructions.
    pub fn check_invariant(&self) -> (result: bool)
        requires
            self@.has_course(),
        ensures
            result == self@.adds_up(),
            self@.ordered() ==> result,
    {
        let chunks = self.chunks();
        let ghost course = self@.course();
        let mut total_time: u128 = 0;
        let mut total_cycles: u128 = 0;
        let mut total_insn: u128 = 0;
        let mut i: usize = 0;
        while i < chunks.len()
            invariant
                i <= chunks.len(),
                chunk_models(chunks@) == course,
                total_time == metrics::total(durations(course).take(i as int)),
                total_cycles == metrics::total(cycle_lengths(course).take(i as int)),
                total_insn == metrics::total(insn_lengths(course).take(i as int)),
                total_time <= i * u32::MAX,
                total_cycles <= i * u32::MAX,
                total_insn <= i * u32::MAX,
            decreases chunks.len() - i,
        {
            proof {
                assert(durations(course).take(i + 1).drop_last() =~= durations(course).take(
                    i as int,
                ));
                assert(cycle_lengths(course).take(i + 1).drop_last() =~= cycle_lengths(course).take(
                    i as int,
                ));
                assert(insn_lengths(course).take(i + 1).drop_last() =~= insn_lengths(course).take(
                    i as int,
                ));
                assert(chunks@[i as int]@ == course[i as int]);
                assert((i + 1) * u32::MAX == i * u32::MAX + u32::MAX) by (nonlinear_arith);
                assert(i * u32::MAX <= usize::MAX * u32::MAX) by (nonlinear_arith)
                    requires
                        i <= usize::MAX,
                ;
            }
            let range = chunks[i].metrics();
            total_time = total_time + range.total_time() as u128;
            total_cycles = total_cycles + range.total_cycles() as u128;
            total_insn = total_insn + range.total_insn() as u128;
            i += 1;
        }
        proof {
            assert(durations(course).take(i as int) =~= durations(course));
            assert(cycle_lengths(course).take(i as int) =~= cycle_lengths(course));
            assert(insn_lengths(course).take(i as int) =~= insn_lengths(course));
            if self@.ordered() {
                ordered_adds_up(self@);
            }
        }
        total_time == self.metrics.total_time() as u128 && total_cycles
            == self.metrics.total_cycles() as u128 && total_insn == self.metrics.total_insn()
            as u128
    }

    /// The text `symbol (start - end)`.
    pub fn to_string(&self) -> (result: String)
        requires
            self@.metrics.fits(),
            self@.symbol.offset + self@.symbol.size <= u64::MAX,
        ensures
            result@ == self@.text(),
    {
        let mut out = String::new();
        out.append(self.symbol.to_string().as_str());
        out.append(" (");
        out.append(self.metrics.start.to_string().as_str());
        out.append(" - ");
        out.append(self.metrics.end().to_string().as_str());
        out.append(")");
        assert(out@ =~= self@.text());
        out
    }
}

impl Clone for StoredChunk {
    fn clone(&self) -> (result: Self)
        ensures
            result@ == self@,
        decreases self,
    {
        match self {
            StoredChunk::Frame(frame) => StoredChunk::Frame(frame.clone()),
            StoredChunk::Pause(pause) => StoredChunk::Pause(*pause),
        }
    }
}

impl Frame {
    /// Whether the ranges of the frame and of all in it end where samples can be held.
    pub fn ends_fit(&self) -> (result: bool)
        ensures
            result == ends_fit(self@),
        decreases self,
    {
        proof {
            frame_view(self);
        }
        if !self.metrics.is_valid() {
            return false;
        }
        let ghost chunks = self@.chunks;
        let mut i: usize = 0;
        while i < self.chunks.len()
            invariant
                i <= self.chunks.len(),
                chunks == self@.chunks,
                chunks == stored_models(self.chunks@),
                self@.metrics.fits(),
                forall|k: int|
                    0 <= k < i ==> match #[trigger] chunks[k] {
                        StoredModel::Frame(child) => ends_fit(child),
                        StoredModel::Pause(pause) => pause.fits(),
                    },
            decreases self.chunks.len() - i,
        {
            assert(chunks[i as int] == self.chunks@[i as int]@);
            let fits = match &self.chunks[i] {
                StoredChunk::Frame(child) => {
                    assert(decreases_to!(self => self.chunks@[i as int]));
                    child.ends_fit()
                },
                StoredChunk::Pause(pause) => pause.is_valid(),
            };
            if !fits {
                return false;
            }
            i += 1;
        }
        true
    }
}

impl Clone for Frame {
    fn clone(&self) -> (result: Self)
        ensures
            result@ == self@,
        decreases self,
    {
        let annotations = match &self.annotations {
            Some(entries) => Some(Box::new(annotation::clone_entries(entries))),
            None => None,
        };
        let mut chunks: Vec<StoredChunk> = Vec::new();
        let mut i: usize = 0;
        while i < self.chunks.len()
            invariant
                i <= self.chunks.len(),
                chunks.len() == i,
                forall|k: int| 0 <= k < i ==> chunks@[k]@ == self.chunks@[k]@,
            decreases self.chunks.len() - i,
        {
            assert(decreases_to!(self => self.chunks@[i as int]));
            chunks.push(self.chunks[i].clone());
            i += 1;
        }
        let result = Frame {
            symbol_idx: self.symbol_idx,
            symbol: symbol::share(&self.symbol),
            metrics: self.metrics,
            annotations,
            chunks,
        };
        proof {
            frame_view(self);
            frame_view(&result);
        }
        assert(result@.chunks =~= self@.chunks);
        result
    }
}

} // verus!

//! Numbers for the chunks of frames, by which chunks of different frames are compared.
use crate::merge::lcs::Id;
use crate::trace::frame::{self, Chunk, ChunkModel, Frame, FrameModel, StoredChunk, StoredModel};
use crate::trace::metrics::Metrics;
use vstd::prelude::*;

verus! {

/// A call or a pause of a frame, with the number that it goes by.
#[derive(Debug, Clone, Copy)]
pub struct ChunkIndexed<'a> {
    pub original: Chunk<'a>,
    pub offset_in_parent: Metrics,
    /// Unique within a parent frame, stable across parent frames.
    pub id: u32,
}

#[verifier::ext_equal]
pub struct ItemModel {
    pub chunk: ChunkModel,
    pub offset: Metrics,
    pub id: u32,
}

impl<'a> View for ChunkIndexed<'a> {
    type V = ItemModel;

    open spec fn view(&self) -> ItemModel {
        ItemModel { chunk: self.original@, offset: self.offset_in_parent, id: self.id }
    }
}

impl<'a> Id for ChunkIndexed<'a> {
    open spec fn spec_id(&self) -> u32 {
        self.id
    }

    fn id(&self) -> (result: u32) {
        self.id
    }
}

impl Id for ItemModel {
    open spec fn spec_id(&self) -> u32 {
        self.id
    }

    fn id(&self) -> (result: u32) {
        self.id
    }
}

/// What chunks of different frames have in common: the name of the function called (none for a
/// pause), and how many of the kind came before in the same frame.
pub struct Key {
    pub symbol: Option<Seq<char>>,
    pub instance: nat,
}

pub open spec fn symbol_of(chunk: StoredModel) -> Option<Seq<char>> {
    match chunk {
        StoredModel::Frame(frame) => Some(frame.symbol.name),
        StoredModel::Pause(_) => None,
    }
}

/// How many of the first `upto` chunks are of the symbol.
pub open spec fn instances(stored: Seq<StoredModel>, symbol: Option<Seq<char>>, upto: int) -> nat
    decreases upto,
{
    if upto <= 0 {
        0
    } else if symbol_of(stored[upto - 1]) == symbol {
        instances(stored, symbol, upto - 1) + 1
    } else {
        instances(stored, symbol, upto - 1)
    }
}

pub open spec fn key(stored: Seq<StoredModel>, i: int) -> Key {
    Key { symbol: symbol_of(stored[i]), instance: instances(stored, symbol_of(stored[i]), i) }
}

/// The keys known after the first `upto` chunks of one more frame.
pub open spec fn known_after(known: Seq<Key>, stored: Seq<StoredModel>, upto: int) -> Seq<Key>
    decreases upto,
{
    if upto <= 0 {
        known
    } else {
        let shorter = known_after(known, stored, upto - 1);
        if shorter.contains(key(stored, upto - 1)) {
            shorter
        } else {
            shorter.push(key(stored, upto - 1))
        }
    }
}

/// The keys of all frames, each once, in the order in which they come up.
pub open spec fn registry(frames: Seq<FrameModel>) -> Seq<Key>
    decreases frames.len(),
{
    if frames.len() == 0 {
        Seq::empty()
    } else {
        known_after(
            registry(frames.drop_last()),
            frames.last().chunks,
            frames.last().chunks.len() as int,
        )
    }
}

/// The first place of a key, or the number of keys where it is not there.
pub open spec fn key_place(known: Seq<Key>, key: Key) -> int
    decreases known.len(),
{
    if known.len() == 0 || known[0] == key {
        0
    } else {
        1 + key_place(known.drop_first(), key)
    }
}

/// The item for the chunk at `i` of a frame, numbered by the keys known.
pub open spec fn item(known: Seq<Key>, frame: FrameModel, i: int) -> ItemModel {
    ItemModel {
        chunk: frame.chunks[i].chunk(),
        offset: frame.chunks[i].range().start.minus(frame.metrics.start),
        id: (key_place(known, key(frame.chunks, i)) + 1) as u32,
    }
}

/// The items of the chunks of the frames, numbered in the order in which their keys come up.
pub open spec fn indexed(frames: Seq<FrameModel>) -> Seq<Seq<ItemModel>> {
    Seq::new(
        frames.len(),
        |f: int|
            Seq::new(frames[f].chunks.len(), |i: int| item(registry(frames), frames[f], i)),
    )
}

/// The number of chunks in all frames.
pub open spec fn chunk_count(frames: Seq<FrameModel>) -> nat
    decreases frames.len(),
{
    if frames.len() == 0 {
        0
    } else {
        chunk_count(frames.drop_last()) + frames.last().chunks.len()
    }
}

/// Every chunk of the frame starts in it or behind it, by no more than a range can hold.
pub open spec fn starts_inside(frame: FrameModel) -> bool {
    forall|i: int|
        0 <= i < frame.chunks.len() ==> crate::trace::metrics::MetricsRange::spans(
            frame.metrics.start,
            (#[trigger] frame.chunks[i]).range().start,
        )
}

/// The models of frames that are held by reference.
pub open spec fn frame_models(frames: Seq<&Frame>) -> Seq<FrameModel> {
    Seq::new(frames.len(), |f: int| frames[f]@)
}

/// The models of lists of items.
pub open spec fn item_models<'a>(lists: Seq<Vec<ChunkIndexed<'a>>>) -> Seq<Seq<ItemModel>> {
    Seq::new(lists.len(), |f: int| Seq::new(lists[f]@.len(), |i: int| lists[f]@[i]@))
}

proof fn key_place_is_first(known: Seq<Key>, key: Key)
    ensures
        0 <= key_place(known, key) <= known.len(),
        forall|i: int| 0 <= i < key_place(known, key) ==> #[trigger] known[i] != key,
        key_place(known, key) < known.len() ==> known[key_place(known, key)] == key,
        key_place(known, key) < known.len() <==> known.contains(key),
    decreases known.len(),
{
    if known.len() > 0 && known[0] != key {
        let rest = known.drop_first();
        key_place_is_first(rest, key);
        assert forall|i: int| 0 <= i < key_place(known, key) implies #[trigger] known[i] != key by {
            if i > 0 {
                assert(rest[i - 1] == known[i]);
            }
        }
        if known.contains(key) {
            let i = choose|i: int| 0 <= i < known.len() && known[i] == key;
            assert(rest[i - 1] == key);
        }
    } else if known.len() > 0 {
        assert(known.contains(known[0]));
    }
}

proof fn key_place_known(known: Seq<Key>, key: Key, i: int)
    requires
        0 <= i <= known.len(),
        forall|j: int| 0 <= j < i ==> #[trigger] known[j] != key,
        i < known.len() ==> known[i] == key,
    ensures
        key_place(known, key) == i,
{
    key_place_is_first(known, key);
    let p = key_place(known, key);
    if p < i {
        assert(known[p] == key);
    } else if p > i {
        assert(known[i] != key);
    }
}

/// `longer` begins with `shorter`.
spec fn extends(shorter: Seq<Key>, longer: Seq<Key>) -> bool {
    shorter.len() <= longer.len() && longer.take(shorter.len() as int) == shorter
}

proof fn extends_transitive(a: Seq<Key>, b: Seq<Key>, c: Seq<Key>)
    requires
        extends(a, b),
        extends(b, c),
    ensures
        extends(a, c),
{
    assert(c.take(a.len() as int) =~= b.take(a.len() as int));
}

proof fn place_in_extension(shorter: Seq<Key>, longer: Seq<Key>, key: Key)
    requires
        extends(shorter, longer),
        shorter.contains(key),
    ensures
        key_place(longer, key) == key_place(shorter, key),
        longer.contains(key),
{
    key_place_is_first(shorter, key);
    let p = key_place(shorter, key);
    assert forall|j: int| 0 <= j < p implies #[trigger] longer[j] != key by {
        assert(longer.take(shorter.len() as int)[j] == shorter[j]);
    }
    assert(longer.take(shorter.len() as int)[p] == shorter[p]);
    key_place_known(longer, key, p);
}

proof fn known_after_extends(known: Seq<Key>, stored: Seq<StoredModel>, a: int, b: int)
    requires
        0 <= a <= b <= stored.len(),
    ensures
        extends(known_after(known, stored, a), known_after(known, stored, b)),
        known_after(known, stored, b).len() <= known.len() + b,
        a < b ==> known_after(known, stored, b).contains(key(stored, a)),
    decreases b,
{
    let before = known_after(known, stored, a);
    if a == b {
        assert(before.take(before.len() as int) =~= before);
        if b > 0 {
            known_after_extends(known, stored, b - 1, b - 1);
        }
    } else {
        known_after_extends(known, stored, a, b - 1);
        let shorter = known_after(known, stored, b - 1);
        let longer = known_after(known, stored, b);
        if shorter != longer {
            assert(longer.take(shorter.len() as int) =~= shorter);
            assert(longer[shorter.len() as int] == key(stored, b - 1));
        } else {
            assert(longer.take(shorter.len() as int) =~= shorter);
        }
        assert(extends(shorter, longer));
        extends_transitive(before, shorter, longer);
        if a < b - 1 {
            place_in_extension(shorter, longer, key(stored, a));
        }
    }
}

proof fn registry_extends(frames: Seq<FrameModel>, f: int)
    requires
        0 <= f <= frames.len(),
    ensures
        extends(registry(frames.take(f)), registry(frames)),
        registry(frames).len() <= chunk_count(frames),
    decreases frames.len(),
{
    if f < frames.len() {
        let rest = frames.drop_last();
        registry_extends(rest, f);
        assert(rest.take(f) =~= frames.take(f));
        let stored = frames.last().chunks;
        known_after_extends(registry(rest), stored, 0, stored.len() as int);
        extends_transitive(registry(frames.take(f)), registry(rest), registry(frames));
    } else {
        assert(frames.take(f) =~= frames);
        assert(registry(frames).take(registry(frames).len() as int) =~= registry(frames));
        if frames.len() > 0 {
            let rest = frames.drop_last();
            registry_extends(rest, rest.len() as int);
            let stored = frames.last().chunks;
            known_after_extends(registry(rest), stored, 0, stored.len() as int);
        }
    }
}

proof fn instances_grow(stored: Seq<StoredModel>, symbol: Option<Seq<char>>, a: int, b: int)
    requires
        0 <= a <= b,
    ensures
        instances(stored, symbol, a) <= instances(stored, symbol, b),
        a < b && symbol_of(stored[a]) == symbol ==> instances(stored, symbol, a) < instances(
            stored,
            symbol,
            b,
        ),
        instances(stored, symbol, b) <= b,
    decreases b,
{
    if a < b {
        instances_grow(stored, symbol, a, b - 1);
    } else if b > 0 {
        instances_grow(stored, symbol, b - 1, b - 1);
    }
}

/// Ids lie between one and the number of keys, and no id stands twice in one list.
pub proof fn indexed_ids(frames: Seq<FrameModel>)
    requires
        chunk_count(frames) <= u32::MAX,
    ensures
        registry(frames).len() <= u32::MAX,
        forall|f: int, i: int|
            0 <= f < frames.len() && 0 <= i < frames[f].chunks.len() ==> 1 <= (
            #[trigger] indexed(frames)[f][i]).id <= registry(frames).len(),
        forall|f: int, i: int, j: int|
            0 <= f < frames.len() && 0 <= i < j < frames[f].chunks.len() ==> (
            #[trigger] indexed(frames)[f][i]).id != (#[trigger] indexed(frames)[f][j]).id,
{
    registry_extends(frames, frames.len() as int);
    let all = registry(frames);
    assert forall|f: int, i: int| 0 <= f < frames.len() && 0 <= i < frames[f].chunks.len() implies 1
        <= (#[trigger] indexed(frames)[f][i]).id <= all.len() by {
        key_is_registered(frames, f, i);
        key_place_is_first(all, key(frames[f].chunks, i));
    }
    assert forall|f: int, i: int, j: int|
        0 <= f < frames.len() && 0 <= i < j < frames[f].chunks.len() implies (
    #[trigger] indexed(frames)[f][i]).id != (#[trigger] indexed(frames)[f][j]).id by {
        let stored = frames[f].chunks;
        key_is_registered(frames, f, i);
        key_is_registered(frames, f, j);
        key_place_is_first(all, key(stored, i));
        key_place_is_first(all, key(stored, j));
        instances_grow(stored, symbol_of(stored[i]), i, j);
        assert(key(stored, i) != key(stored, j));
    }
}

/// Chunks have one id, in whatever frames they are, if and only if they are of the same symbol and
/// as many of that symbol come before each in its own frame.
pub proof fn ids_tell_keys_apart(frames: Seq<FrameModel>, f: int, i: int, g: int, j: int)
    requires
        chunk_count(frames) <= u32::MAX,
        0 <= f < frames.len(),
        0 <= i < frames[f].chunks.len(),
        0 <= g < frames.len(),
        0 <= j < frames[g].chunks.len(),
    ensures
        indexed(frames)[f][i].id == indexed(frames)[g][j].id <==> key(frames[f].chunks, i) == key(
            frames[g].chunks,
            j,
        ),
{
    registry_extends(frames, frames.len() as int);
    let all = registry(frames);
    key_is_registered(frames, f, i);
    key_is_registered(frames, g, j);
    key_place_is_first(all, key(frames[f].chunks, i));
    key_place_is_first(all, key(frames[g].chunks, j));
}

proof fn key_is_registered(frames: Seq<FrameModel>, f: int, i: int)
    requires
        0 <= f < frames.len(),
        0 <= i < frames[f].chunks.len(),
    ensures
        registry(frames).contains(key(frames[f].chunks, i)),
{
    let upto = frames.take(f + 1);
    let stored = frames[f].chunks;
    assert(upto.drop_last() =~= frames.take(f));
    assert(upto.last() == frames[f]);
    known_after_extends(registry(frames.take(f)), stored, i, stored.len() as int);
    registry_extends(frames, f + 1);
    place_in_extension(registry(upto), registry(frames), key(stored, i));
}

/// The key of a chunk stands in the registry where its id says.
pub proof fn id_names_key(frames: Seq<FrameModel>, f: int, i: int)
    requires
        chunk_count(frames) <= u32::MAX,
        0 <= f < frames.len(),
        0 <= i < frames[f].chunks.len(),
    ensures
        1 <= indexed(frames)[f][i].id <= registry(frames).len(),
        registry(frames)[indexed(frames)[f][i].id - 1] == key(frames[f].chunks, i),
{
    registry_extends(frames, frames.len() as int);
    key_is_registered(frames, f, i);
    key_place_is_first(registry(frames), key(frames[f].chunks, i));
}

proof fn known_after_only(known: Seq<Key>, stored: Seq<StoredModel>, upto: int, other: Key)
    requires
        0 <= upto <= stored.len(),
        !known.contains(other),
        forall|i: int| 0 <= i < upto ==> #[trigger] key(stored, i) != other,
    ensures
        !known_after(known, stored, upto).contains(other),
    decreases upto,
{
    if upto > 0 {
        known_after_only(known, stored, upto - 1, other);
        let shorter = known_after(known, stored, upto - 1);
        let longer = known_after(known, stored, upto);
        assert(key(stored, upto - 1) != other);
        if longer.contains(other) {
            let i = choose|i: int| 0 <= i < longer.len() && longer[i] == other;
            if i < shorter.len() {
                assert(shorter[i] == other);
            }
        }
    }
}

proof fn registry_only(frames: Seq<FrameModel>, other: Key)
    requires
        forall|f: int, i: int|
            0 <= f < frames.len() && 0 <= i < frames[f].chunks.len() ==> #[trigger] key(
                frames[f].chunks,
                i,
            ) != other,
    ensures
        !registry(frames).contains(other),
    decreases frames.len(),
{
    if frames.len() > 0 {
        let rest = frames.drop_last();
        assert forall|f: int, i: int|
            0 <= f < rest.len() && 0 <= i < rest[f].chunks.len() implies #[trigger] key(
            rest[f].chunks,
            i,
        ) != other by {
            assert(rest[f] == frames[f]);
        }
        registry_only(rest, other);
        let stored = frames.last().chunks;
        assert(stored == frames[frames.len() - 1].chunks);
        known_after_only(registry(rest), stored, stored.len() as int, other);
    }
}

/// Numbers follow the order in which chunks come up, frame by frame: a chunk has a lower number than
/// one whose like comes up only behind it.
pub proof fn ids_follow_first_appearance(frames: Seq<FrameModel>, f: int, i: int, g: int, j: int)
    requires
        chunk_count(frames) <= u32::MAX,
        0 <= f < frames.len(),
        0 <= i < frames[f].chunks.len(),
        0 <= g < frames.len(),
        0 <= j < frames[g].chunks.len(),
        forall|a: int, b: int|
            (0 <= a < f && 0 <= b < frames[a].chunks.len() || a == f && 0 <= b <= i)
                ==> #[trigger] key(frames[a].chunks, b) != key(frames[g].chunks, j),
    ensures
        indexed(frames)[f][i].id < indexed(frames)[g][j].id,
{
    let other = key(frames[g].chunks, j);
    let before = frames.take(f);
    let stored = frames[f].chunks;
    assert forall|a: int, b: int|
        0 <= a < before.len() && 0 <= b < before[a].chunks.len() implies #[trigger] key(
        before[a].chunks,
        b,
    ) != other by {
        assert(before[a] == frames[a]);
        assert(key(frames[a].chunks, b) != other);
    }
    registry_only(before, other);
    let known = registry(before);
    assert forall|b: int| 0 <= b < i + 1 implies #[trigger] key(stored, b) != other by {
        assert(key(frames[f].chunks, b) != other);
    }
    known_after_only(known, stored, i + 1, other);
    let prefix = known_after(known, stored, i + 1);
    known_after_extends(known, stored, i, i + 1);
    known_after_extends(known, stored, i + 1, stored.len() as int);
    let upto = frames.take(f + 1);
    assert(upto.drop_last() =~= before);
    assert(upto.last() == frames[f]);
    registry_extends(frames, f + 1);
    let all = registry(frames);
    extends_transitive(prefix, registry(upto), all);
    place_in_extension(prefix, all, key(stored, i));
    key_place_is_first(prefix, key(stored, i));
    key_is_registered(frames, g, j);
    key_place_is_first(all, other);
    let p = key_place(all, other);
    if p < prefix.len() {
        assert(all.take(prefix.len() as int)[p] == prefix[p]);
        assert(prefix.contains(prefix[p]));
    }
    registry_extends(frames, frames.len() as int);
}

/// A key in machine terms.
struct HeldKey<'a> {
    symbol: Option<&'a String>,
    instance: u32,
}

impl<'a> HeldKey<'a> {
    spec fn model(self) -> Key {
        Key {
            symbol: match self.symbol {
                Some(name) => Some(name@),
                None => None,
            },
            instance: self.instance as nat,
        }
    }
}

spec fn key_models<'a>(keys: Seq<HeldKey<'a>>) -> Seq<Key> {
    Seq::new(keys.len(), |i: int| keys[i].model())
}

fn same_symbol(a: &Option<&String>, b: &Option<&String>) -> (result: bool)
    ensures
        result == match (*a, *b) {
            (Some(x), Some(y)) => x@ == y@,
            (None, None) => true,
            _ => false,
        },
{
    match (a, b) {
        (Some(x), Some(y)) => **x == **y,
        (None, None) => true,
        _ => false,
    }
}

fn symbol_name<'a>(chunk: &'a StoredChunk) -> (result: Option<&'a String>)
    ensures
        symbol_of(chunk@) == match result {
            Some(name) => Some(name@),
            None => None,
        },
{
    match chunk {
        StoredChunk::Frame(frame) => Some(&frame.symbol.name),
        StoredChunk::Pause(_) => None,
    }
}

fn find_key<'a>(keys: &Vec<HeldKey<'a>>, wanted: &HeldKey<'a>) -> (result: usize)
    ensures
        result == key_place(key_models(keys@), wanted.model()),
        result <= keys.len(),
{
    let ghost known = key_models(keys@);
    let mut i: usize = 0;
    while i < keys.len()
        invariant
            i <= keys.len(),
            known == key_models(keys@),
            forall|j: int| 0 <= j < i ==> #[trigger] known[j] != wanted.model(),
        decreases keys.len() - i,
    {
        assert(known[i as int] == keys@[i as int].model());
        if keys[i].instance == wanted.instance && same_symbol(&keys[i].symbol, &wanted.symbol) {
            proof {
                key_place_known(known, wanted.model(), i as int);
            }
            return i;
        }
        i += 1;
    }
    proof {
        key_place_known(known, wanted.model(), i as int);
    }
    i
}

fn count_instances(stored: &Vec<StoredChunk>, symbol: &Option<&String>, upto: usize) -> (result: u32)
    requires
        upto <= stored.len(),
        stored.len() <= u32::MAX,
    ensures
        result == instances(
            frame::stored_models(stored@),
            match *symbol {
                Some(name) => Some(name@),
                None => None,
            },
            upto as int,
        ),
{
    let ghost models = frame::stored_models(stored@);
    let ghost wanted = match *symbol {
        Some(name) => Some(name@),
        None => None,
    };
    let mut count: u32 = 0;
    let mut i: usize = 0;
    while i < upto
        invariant
            i <= upto <= stored.len(),
            stored.len() <= u32::MAX,
            models == frame::stored_models(stored@),
            wanted == match *symbol {
                Some(name) => Some(name@),
                None => None,
            },
            count == instances(models, wanted, i as int),
            count <= i,
        decreases upto - i,
    {
        assert(models[i as int] == stored@[i as int]@);
        if same_symbol(&symbol_name(&stored[i]), symbol) {
            count += 1;
        }
        i += 1;
    }
    count
}

/// Maps each call and pause of the frames to a number from `1` to `n`.
///
/// Calls of one function have the same numbers across frames, and so have pauses. Within a frame
/// they have different ones: each instance has its own number. Returns `n`, and for each frame the
/// list of its calls and pauses.
pub fn index_children<'a>(frames: &[&'a Frame]) -> (result: (u32, Vec<Vec<ChunkIndexed<'a>>>))
    requires
        chunk_count(frame_models(frames@)) <= u32::MAX,
        forall|f: int| 0 <= f < frames.len() ==> starts_inside((#[trigger] frames@[f])@),
    ensures
        result.0 == registry(frame_models(frames@)).len(),
        item_models(result.1@) == indexed(frame_models(frames@)),
{
    let ghost models = frame_models(frames@);
    let mut lists: Vec<Vec<ChunkIndexed<'a>>> = Vec::new();
    let mut keys: Vec<HeldKey<'a>> = Vec::new();
    assert(key_models(keys@) =~= registry(models.take(0)));
    let mut f: usize = 0;
    while f < frames.len()
        invariant
            f <= frames.len(),
            models == frame_models(frames@),
            chunk_count(models) <= u32::MAX,
            forall|k: int| 0 <= k < frames.len() ==> starts_inside((#[trigger] frames@[k])@),
            key_models(keys@) == registry(models.take(f as int)),
            lists.len() == f,
            forall|k: int|
                0 <= k < f ==> (#[trigger] lists@[k])@.len() == models[k].chunks.len(),
            forall|k: int, i: int|
                0 <= k < f && 0 <= i < models[k].chunks.len() ==> (#[trigger] lists@[k]@[i])@
                    == item(registry(models), models[k], i),
        decreases frames.len() - f,
    {
        let parent: &'a Frame = frames[f];
        let ghost known = registry(models.take(f as int));
        let ghost stored = parent@.chunks;
        proof {
            frame::frame_view(parent);
            assert(models[f as int] == parent@);
            assert(starts_inside(frames@[f as int]@));
            assert(models.take(f + 1).drop_last() =~= models.take(f as int));
            assert(models.take(f + 1).last() == parent@);
            chunk_counts(models, f as int);
            registry_extends(models.take(f as int), f as int);
            registry_extends(models, f + 1);
        }
        let mut list: Vec<ChunkIndexed<'a>> = Vec::new();
        let mut i: usize = 0;
        while i < parent.chunks.len()
            invariant
                i <= parent.chunks.len(),
                f < models.len(),
                models[f as int] == parent@,
                stored == parent@.chunks,
                stored == frame::stored_models(parent.chunks@),
                starts_inside(parent@),
                known.len() + stored.len() <= u32::MAX,
                extends(known_after(known, stored, stored.len() as int), registry(models)),
                key_models(keys@) == known_after(known, stored, i as int),
                list.len() == i,
                forall|k: int|
                    0 <= k < i ==> (#[trigger] list@[k])@ == item(
                        registry(models),
                        models[f as int],
                        k,
                    ),
            decreases parent.chunks.len() - i,
        {
            let chunk: &'a StoredChunk = &parent.chunks[i];
            assert(stored[i as int] == chunk@);
            let symbol = symbol_name(chunk);
            let wanted = HeldKey {
                symbol,
                instance: count_instances(&parent.chunks, &symbol, i),
            };
            let ghost before = key_models(keys@);
            let ghost wanted_key = wanted.model();
            assert(wanted_key == key(stored, i as int));
            let at: usize = find_key(&keys, &wanted);
            proof {
                key_place_is_first(before, wanted_key);
                known_after_extends(known, stored, i as int, i + 1);
                known_after_extends(known, stored, i + 1, stored.len() as int);
                known_after_extends(known, stored, 0, i as int);
            }
            if at == keys.len() {
                keys.push(wanted);
                assert(key_models(keys@) =~= before.push(wanted_key));
                proof {
                    key_place_known(key_models(keys@), wanted_key, at as int);
                }
            }
            proof {
                let now = known_after(known, stored, i + 1);
                assert(key_models(keys@) == now);
                assert(key_place(now, wanted_key) == at);
                extends_transitive(
                    now,
                    known_after(known, stored, stored.len() as int),
                    registry(models),
                );
                place_in_extension(now, registry(models), wanted_key);
            }
            let offset_in_parent = chunk.metrics().start - parent.metrics.start;
            list.push(
                ChunkIndexed { original: chunk.to_chunk(), offset_in_parent, id: at as u32 + 1 },
            );
            i += 1;
        }
        lists.push(list);
        f += 1;
    }
    assert(models.take(f as int) =~= models);
    proof {
        registry_extends(models, f as int);
        assert(item_models(lists@) =~= indexed(models)) by {
            assert forall|k: int| 0 <= k < lists.len() implies #[trigger] item_models(lists@)[k]
                =~= indexed(models)[k] by {
                assert(lists@[k]@.len() == models[k].chunks.len());
            }
        }
    }
    (keys.len() as u32, lists)
}

/// The chunks of some of the frames are no more than those of all.
pub proof fn chunk_counts(frames: Seq<FrameModel>, f: int)
    requires
        0 <= f < frames.len(),
    ensures
        chunk_count(frames.take(f)) + frames[f].chunks.len() <= chunk_count(frames),
    decreases frames.len(),
{
    if f < frames.len() - 1 {
        chunk_counts(frames.drop_last(), f);
        assert(frames.drop_last().take(f) =~= frames.take(f));
    } else {
        assert(frames.take(f) =~= frames.drop_last());
    }
}

} // verus!

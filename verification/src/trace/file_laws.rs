//! What stands in trace files.
use crate::trace::codec::{decoded, encodes, gunzipped, header, short_of, word_of, CodecError};
use crate::trace::frame::{indexed_by, FrameModel, StoredModel};
use crate::trace::record::{
    self, bad_index, bad_index_in, built, read, written, FrameDefModel, StoredDefModel,
    TraceDefModel, TraceModel,
};
use crate::trace::symbol::SymbolModel;
use vstd::prelude::*;

verus! {

/// The bytes begin with the version of the format, two bytes for each part with the more significant
/// first, and the delimiter.
pub open spec fn has_header(bytes: Seq<u8>, major: u16, minor: u16) -> bool {
    &&& bytes.len() >= 8
    &&& bytes[0] * 256 + bytes[1] == major
    &&& bytes[2] * 256 + bytes[3] == minor
    &&& bytes[4] == 0xDE && bytes[5] == 0xAD && bytes[6] == 0xBE && bytes[7] == 0xEF
}

/// What is written begins with the header, and what is behind it is the data, or unpacks to it.
pub proof fn files_begin_with_header(
    bytes: Seq<u8>,
    data: Seq<u8>,
    gzip: bool,
    major: u16,
    minor: u16,
)
    ensures
        encodes(bytes, data, gzip, major, minor) <==> has_header(bytes, major, minor) && if gzip {
            gunzipped(bytes.skip(8)) == Some(data)
        } else {
            bytes.skip(8) == data
        },
{
    let h = header(major, minor);
    if encodes(bytes, data, gzip, major, minor) {
        let front = bytes.take(8);
        assert(front == h);
        assert(forall|i: int| 0 <= i < 8 ==> bytes[i] == #[trigger] front[i]);
        assert(bytes[0] == front[0] && bytes[1] == front[1] && bytes[2] == front[2] && bytes[3]
            == front[3]);
        assert(bytes[4] == front[4] && bytes[5] == front[5] && bytes[6] == front[6] && bytes[7]
            == front[7]);
    }
    if has_header(bytes, major, minor) {
        assert(bytes.take(8) =~= h);
    }
}

/// Which files are read, and what is wrong with all others: they are too short for a header, or have
/// no delimiter, or another version, or do not unpack.
pub proof fn files_are_read_by_header(bytes: Seq<u8>, gzip: bool, major: u16, minor: u16)
    ensures
        ({
            let delimited = bytes.len() >= 8 && bytes[4] == 0xDE && bytes[5] == 0xAD && bytes[6]
                == 0xBE && bytes[7] == 0xEF;
            &&& bytes.len() < 8 <==> decoded(bytes, gzip, major, minor) == Err::<
                Seq<u8>,
                CodecError,
            >(CodecError::TooShort)
            &&& bytes.len() >= 8 && !delimited <==> decoded(bytes, gzip, major, minor) == Err::<
                Seq<u8>,
                CodecError,
            >(CodecError::BadDelimiter)
            &&& delimited && !has_header(bytes, major, minor) ==> (decoded(
                bytes,
                gzip,
                major,
                minor,
            ) matches Err(CodecError::VersionMismatch {
                trace_major,
                trace_minor,
                tool_major,
                tool_minor,
            }) && trace_major == bytes[0] * 256 + bytes[1] && trace_minor == bytes[2] * 256
                + bytes[3] && tool_major == major && tool_minor == minor)
            &&& has_header(bytes, major, minor) && !gzip ==> decoded(bytes, gzip, major, minor)
                == Ok::<Seq<u8>, CodecError>(bytes.skip(8))
            &&& has_header(bytes, major, minor) && gzip ==> decoded(bytes, gzip, major, minor) == (
            match gunzipped(bytes.skip(8)) {
                Some(data) => Ok::<Seq<u8>, CodecError>(data),
                None => Err(CodecError::Gzip),
            })
        }),
{
    if bytes.len() >= 8 {
        let (a, b, c) = (bytes.take(2), bytes.subrange(2, 4), bytes.subrange(4, 8));
        assert(a[0] == bytes[0] && a[1] == bytes[1]);
        assert(b[0] == bytes[2] && b[1] == bytes[3]);
        assert(c[0] == bytes[4] && c[1] == bytes[5] && c[2] == bytes[6] && c[3] == bytes[7]);
        assert(short_of(a) == bytes[0] * 256 + bytes[1]);
        assert(short_of(b) == bytes[2] * 256 + bytes[3]);
        assert(word_of(c) == bytes[4] * 0x100_0000 + bytes[5] * 0x1_0000 + bytes[6] * 0x100
            + bytes[7]);
    }
}

/// The frame and all calls in it name symbols that there are.
pub open spec fn names_symbols(def: FrameDefModel, count: nat) -> bool
    decreases def,
{
    &&& def.symbol_idx < count
    &&& forall|i: int|
        0 <= i < def.chunks.len() ==> match #[trigger] def.chunks[i] {
            StoredDefModel::Frame(inner) => names_symbols(inner, count),
            StoredDefModel::Pause(_) => true,
        }
}

proof fn bad_index_is_bad(def: FrameDefModel, count: nat)
    ensures
        bad_index(def, count) is None <==> names_symbols(def, count),
        bad_index(def, count) matches Some(index) ==> index >= count,
    decreases def, 0nat,
{
    reveal_with_fuel(bad_index, 2);
    bad_index_in_is_bad(def.chunks, count);
}

proof fn bad_index_in_is_bad(chunks: Seq<StoredDefModel>, count: nat)
    ensures
        bad_index_in(chunks, count) is None <==> forall|i: int|
            0 <= i < chunks.len() ==> match #[trigger] chunks[i] {
                StoredDefModel::Frame(inner) => names_symbols(inner, count),
                StoredDefModel::Pause(_) => true,
            },
        bad_index_in(chunks, count) matches Some(index) ==> index >= count,
    decreases chunks, chunks.len(),
{
    reveal_with_fuel(bad_index_in, 2);
    if chunks.len() > 0 {
        let rest = chunks.drop_last();
        bad_index_in_is_bad(rest, count);
        if let StoredDefModel::Frame(inner) = chunks.last() {
            bad_index_is_bad(inner, count);
        }
        assert(chunks.last() == chunks[chunks.len() - 1]);
        assert forall|i: int| 0 <= i < rest.len() implies rest[i] == #[trigger] chunks[i] by {}
        if bad_index_in(chunks, count) is None {
            assert forall|i: int| 0 <= i < chunks.len() implies match #[trigger] chunks[i] {
                StoredDefModel::Frame(inner) => names_symbols(inner, count),
                StoredDefModel::Pause(_) => true,
            } by {
                if i < rest.len() {
                    assert(rest[i] == chunks[i]);
                }
            }
        }
        if forall|i: int|
            0 <= i < chunks.len() ==> match #[trigger] chunks[i] {
                StoredDefModel::Frame(inner) => names_symbols(inner, count),
                StoredDefModel::Pause(_) => true,
            } {
            assert forall|i: int| 0 <= i < rest.len() implies match #[trigger] rest[i] {
                StoredDefModel::Frame(inner) => names_symbols(inner, count),
                StoredDefModel::Pause(_) => true,
            } by {
                assert(rest[i] == chunks[i]);
            }
        }
    }
}

proof fn built_is_written_again(def: FrameDefModel, table: Seq<SymbolModel>)
    ensures
        written(built(def, table)) == def,
        built(def, table).symbol == table[def.symbol_idx as int],
    decreases def,
{
    reveal_with_fuel(built, 2);
    reveal_with_fuel(written, 2);
    let frame = built(def, table);
    let again = written(frame);
    assert forall|i: int| 0 <= i < def.chunks.len() implies #[trigger] again.chunks[i]
        == def.chunks[i] by {
        if let StoredDefModel::Frame(inner) = def.chunks[i] {
            built_is_written_again(inner, table);
        }
    }
    assert(again.chunks =~= def.chunks);
}

/// What is written is read if and only if all its frames name symbols that there are; else an index
/// is told that names none. What is read would be written as it was, and each frame belongs to the
/// symbol that it names.
pub proof fn reading_is_of_what_is_written(def: TraceDefModel)
    ensures
        read(def) is Ok <==> names_symbols(def.root, def.symbols.len()),
        read(def) matches Err(index) ==> index >= def.symbols.len(),
        read(def) matches Ok(trace) ==> {
            &&& record::write(trace) == def
            &&& trace.symbols == def.symbols
            &&& trace.events == def.events
            &&& trace.root.metrics == def.root.metrics
            &&& trace.root.annotations == def.root.annotations
            &&& trace.root.symbol == def.symbols[def.root.symbol_idx as int]
        },
{
    bad_index_is_bad(def.root, def.symbols.len());
    built_is_written_again(def.root, def.symbols);
}

/// The frame and all that is in it are as they stand in the file, each thing in its place.
pub open spec fn stands_for(def: FrameDefModel, frame: FrameModel, table: Seq<SymbolModel>) -> bool
    decreases def,
{
    &&& frame.symbol_idx == def.symbol_idx
    &&& frame.symbol == table[def.symbol_idx as int]
    &&& frame.metrics == def.metrics
    &&& frame.annotations == def.annotations
    &&& frame.chunks.len() == def.chunks.len()
    &&& forall|i: int|
        0 <= i < def.chunks.len() ==> match (#[trigger] def.chunks[i], frame.chunks[i]) {
            (StoredDefModel::Frame(inner), StoredModel::Frame(call)) => stands_for(
                inner,
                call,
                table,
            ),
            (StoredDefModel::Pause(told), StoredModel::Pause(pause)) => told == pause,
            _ => false,
        }
}

proof fn built_stands_for(def: FrameDefModel, table: Seq<SymbolModel>)
    ensures
        stands_for(def, built(def, table), table),
    decreases def,
{
    reveal_with_fuel(built, 2);
    let frame = built(def, table);
    assert forall|i: int| 0 <= i < def.chunks.len() implies match (
        #[trigger] def.chunks[i],
        frame.chunks[i],
    ) {
        (StoredDefModel::Frame(inner), StoredModel::Frame(call)) => stands_for(inner, call, table),
        (StoredDefModel::Pause(told), StoredModel::Pause(pause)) => told == pause,
        _ => false,
    } by {
        if let StoredDefModel::Frame(inner) = def.chunks[i] {
            built_stands_for(inner, table);
        }
    }
}

/// What is read stands for what is in the file, and what is written for the trace, down to the last
/// call and pause and in their order.
pub proof fn files_hold_the_tree(def: TraceDefModel, trace: TraceModel)
    requires
        indexed_by(trace.root, trace.symbols),
    ensures
        read(def) matches Ok(told) ==> stands_for(def.root, told.root, def.symbols),
        stands_for(record::write(trace).root, trace.root, trace.symbols),
        record::write(trace).symbols == trace.symbols,
        record::write(trace).events == trace.events,
{
    built_stands_for(def.root, def.symbols);
    record::read_after_write(trace);
    built_stands_for(record::write(trace).root, trace.symbols);
}

/// Where frames name symbols that there are not, the index that is told is that of the outermost and
/// first of them: if the frame itself names one, no other is told, and of the calls in it only the
/// first in which there is one.
pub proof fn first_missing_symbol_is_told(def: TraceDefModel)
    ensures
        read(def) matches Err(index) ==> {
            let count = def.symbols.len();
            &&& def.root.symbol_idx >= count ==> index == def.root.symbol_idx
            &&& def.root.symbol_idx < count ==> exists|k: int|
                0 <= k < def.root.chunks.len() && (#[trigger] def.root.chunks[k]) is Frame && read(
                    TraceDefModel { root: def.root.chunks[k]->Frame_0, ..def },
                ) == Err::<TraceModel, usize>(index) && forall|i: int|
                    0 <= i < k ==> match #[trigger] def.root.chunks[i] {
                        StoredDefModel::Frame(inner) => names_symbols(inner, count),
                        StoredDefModel::Pause(_) => true,
                    }
        },
{
    let count = def.symbols.len();
    if read(def) is Err && def.root.symbol_idx < count {
        let k = first_bad_chunk(def.root.chunks, count);
        assert(def.root.chunks[k] is Frame);
    }
}

proof fn first_bad_chunk(chunks: Seq<StoredDefModel>, count: nat) -> (k: int)
    requires
        bad_index_in(chunks, count) is Some,
    ensures
        0 <= k < chunks.len(),
        chunks[k] matches StoredDefModel::Frame(inner) && bad_index(inner, count) == bad_index_in(
            chunks,
            count,
        ),
        forall|i: int|
            0 <= i < k ==> match #[trigger] chunks[i] {
                StoredDefModel::Frame(inner) => names_symbols(inner, count),
                StoredDefModel::Pause(_) => true,
            },
    decreases chunks.len(),
{
    reveal_with_fuel(bad_index_in, 2);
    let rest = chunks.drop_last();
    if bad_index_in(rest, count) is Some {
        let k = first_bad_chunk(rest, count);
        assert forall|i: int| 0 <= i < k implies match #[trigger] chunks[i] {
            StoredDefModel::Frame(inner) => names_symbols(inner, count),
            StoredDefModel::Pause(_) => true,
        } by {
            assert(rest[i] == chunks[i]);
        }
        k
    } else {
        bad_index_in_is_bad(rest, count);
        let k = chunks.len() - 1;
        assert forall|i: int| 0 <= i < k implies match #[trigger] chunks[i] {
            StoredDefModel::Frame(inner) => names_symbols(inner, count),
            StoredDefModel::Pause(_) => true,
        } by {
            assert(rest[i] == chunks[i]);
        }
        k
    }
}

} // verus!

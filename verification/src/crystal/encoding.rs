//! The bytes that a directory is written as, and the proof that reading
//! them gives the directory back.

use crate::crystal::layout::{
    spec_directory, spec_entries, spec_entry, ENTRY_TAIL_SIZE, HEADER_SKIP_SIZE, NAME_FIELD_SIZE,
};
use crate::crystal::{is_reserved, EntryView};
use crate::cursor::{lemma_terminator_at, spec_string_eof};
use crate::endian::{be_bytes_i32, lemma_be_i32_round_trip};
use crate::error::WdbError;
use crate::text::{lemma_zero_terminated_bytes, zero_terminated};
use vstd::prelude::*;
use vstd::utf8::*;

verus! {

/// `count` bytes of filling.
pub open spec fn filling(count: int, filler: u8) -> Seq<u8> {
    Seq::new(count as nat, |i: int| filler)
}

/// An entry can be written when its name ends with the zero character and
/// holds no other, a reserved name fits, as UTF-8, its field of sixteen
/// bytes, and offset and length are 32-bit numbers.
pub open spec fn encodable(entry: EntryView) -> bool {
    &&& zero_terminated(entry.name)
    &&& is_reserved(entry.name) ==> encode_utf8(entry.name).len() <= NAME_FIELD_SIZE
    &&& i32::MIN <= entry.offset <= i32::MAX
    &&& i32::MIN <= entry.length <= i32::MAX
}

/// The number of bytes that fill up the name field of an entry: a reserved
/// name is brought to sixteen bytes, any other name is left as it is.
pub open spec fn name_padding(name: Seq<char>) -> int {
    if is_reserved(name) {
        NAME_FIELD_SIZE - encode_utf8(name).len()
    } else {
        0
    }
}

/// The bytes of one entry: the name, its padding, offset and length, and
/// eight bytes of filling.
pub open spec fn encode_entry(entry: EntryView, filler: u8) -> Seq<u8> {
    encode_utf8(entry.name) + filling(name_padding(entry.name), filler) + be_bytes_i32(
        entry.offset,
    ) + be_bytes_i32(entry.length) + filling(8, filler)
}

/// The bytes of the entries, one after another.
pub open spec fn encode_entries(entries: Seq<EntryView>, filler: u8) -> Seq<u8>
    decreases entries.len(),
{
    if entries.len() == 0 {
        Seq::empty()
    } else {
        encode_entries(entries.drop_last(), filler) + encode_entry(entries.last(), filler)
    }
}

/// The bytes of a directory: eight bytes of filling, then the entries.
pub open spec fn encode_directory(entries: Seq<EntryView>, filler: u8) -> Seq<u8> {
    filling(HEADER_SKIP_SIZE as int, filler) + encode_entries(entries, filler)
}

/// A name that can be written is read back from wherever its bytes stand.
pub proof fn lemma_name_read(name: Seq<char>, bytes: Seq<u8>, pos: int)
    requires
        zero_terminated(name),
        0 <= pos,
        pos + encode_utf8(name).len() <= bytes.len(),
        bytes.subrange(pos, pos + encode_utf8(name).len()) == encode_utf8(name),
    ensures
        spec_string_eof(bytes, pos) == Ok::<(Seq<char>, int), WdbError>(
            (name, pos + encode_utf8(name).len()),
        ),
{
    let raw = encode_utf8(name);
    lemma_zero_terminated_bytes(name);
    assert forall|k: int| pos <= k < pos + raw.len() implies bytes[k] == raw[k - pos] by {
        assert(bytes.subrange(pos, pos + raw.len())[k - pos] == bytes[k]);
    }
    lemma_terminator_at(bytes, pos, pos + raw.len() - 1);
    encode_utf8_valid_utf8(name);
    encode_utf8_decode_utf8(name);
}

/// An entry that can be written is read back from bytes that hold its name
/// at `pos`, and its offset and length behind the name and its padding.
pub proof fn lemma_entry_read(entry: EntryView, bytes: Seq<u8>, pos: int)
    requires
        encodable(entry),
        0 <= pos,
        pos + encode_utf8(entry.name).len() + name_padding(entry.name) + ENTRY_TAIL_SIZE
            <= bytes.len(),
        bytes.subrange(pos, pos + encode_utf8(entry.name).len()) == encode_utf8(entry.name),
        bytes.subrange(
            pos + encode_utf8(entry.name).len() + name_padding(entry.name),
            pos + encode_utf8(entry.name).len() + name_padding(entry.name) + 4,
        ) == be_bytes_i32(entry.offset),
        bytes.subrange(
            pos + encode_utf8(entry.name).len() + name_padding(entry.name) + 4,
            pos + encode_utf8(entry.name).len() + name_padding(entry.name) + 8,
        ) == be_bytes_i32(entry.length),
    ensures
        spec_entry(bytes, pos) == Ok::<(EntryView, int), WdbError>(
            (
                entry,
                pos + encode_utf8(entry.name).len() + name_padding(entry.name) + ENTRY_TAIL_SIZE,
            ),
        ),
{
    lemma_name_read(entry.name, bytes, pos);
    lemma_be_i32_round_trip(entry.offset, Seq::empty());
    lemma_be_i32_round_trip(entry.length, Seq::empty());
    assert(be_bytes_i32(entry.offset) + Seq::<u8>::empty() =~= be_bytes_i32(entry.offset));
    assert(be_bytes_i32(entry.length) + Seq::<u8>::empty() =~= be_bytes_i32(entry.length));
}

/// Reading the bytes of an entry gives the entry back, wherever the bytes
/// stand and whatever follows them.
pub proof fn lemma_entry_round_trip(
    entry: EntryView,
    filler: u8,
    before: Seq<u8>,
    after: Seq<u8>,
)
    requires
        encodable(entry),
    ensures
        spec_entry(before + encode_entry(entry, filler) + after, before.len() as int) == Ok::<
            (EntryView, int),
            WdbError,
        >((entry, (before.len() + encode_entry(entry, filler).len()) as int)),
{
    let raw = encode_utf8(entry.name);
    let pad = filling(name_padding(entry.name), filler);
    let written = encode_entry(entry, filler);
    let bytes = before + written + after;
    let pos = before.len() as int;
    let fields = pos + raw.len() + pad.len();
    lemma_zero_terminated_bytes(entry.name);
    lemma_be_i32_round_trip(entry.offset, Seq::empty());
    lemma_be_i32_round_trip(entry.length, Seq::empty());
    assert(written.len() == raw.len() + pad.len() + ENTRY_TAIL_SIZE);
    assert(bytes.subrange(pos, pos + written.len()) =~= written);
    assert(bytes.subrange(pos, pos + raw.len()) =~= written.subrange(0, raw.len() as int));
    assert(written.subrange(0, raw.len() as int) =~= raw);
    let tail = (raw.len() + pad.len()) as int;
    assert(bytes.subrange(fields, fields + 4) =~= written.subrange(tail, tail + 4));
    assert(written.subrange(tail, tail + 4) =~= be_bytes_i32(entry.offset));
    assert(bytes.subrange(fields + 4, fields + 8) =~= written.subrange(tail + 4, tail + 8));
    assert(written.subrange(tail + 4, tail + 8) =~= be_bytes_i32(entry.length));
    lemma_entry_read(entry, bytes, pos);
}

/// Reading the bytes of a list of entries gives the entries back.
pub proof fn lemma_entries_round_trip(
    entries: Seq<EntryView>,
    filler: u8,
    before: Seq<u8>,
    after: Seq<u8>,
)
    requires
        forall|i: int| 0 <= i < entries.len() ==> encodable(#[trigger] entries[i]),
    ensures
        spec_entries(
            before + encode_entries(entries, filler) + after,
            before.len() as int,
            entries.len() as int,
        ) == Ok::<(Seq<EntryView>, int), WdbError>(
            (entries, (before.len() + encode_entries(entries, filler).len()) as int),
        ),
    decreases entries.len(),
{
    let bytes = before + encode_entries(entries, filler) + after;
    if entries.len() == 0 {
        assert(entries =~= Seq::empty());
    } else {
        let init = entries.drop_last();
        let last = encode_entry(entries.last(), filler);
        lemma_entries_round_trip(init, filler, before, last + after);
        assert(bytes =~= before + encode_entries(init, filler) + (last + after));
        lemma_entry_round_trip(
            entries.last(),
            filler,
            before + encode_entries(init, filler),
            after,
        );
        assert(bytes =~= before + encode_entries(init, filler) + last + after);
        assert(entries =~= init.push(entries.last()));
    }
}

/// Reading the bytes of a directory gives the directory back: every entry,
/// in the order written, whether its name is reserved and padded or not;
/// and the reader ends where the directory does.
pub proof fn lemma_directory_round_trip(
    entries: Seq<EntryView>,
    filler: u8,
    before: Seq<u8>,
    after: Seq<u8>,
)
    requires
        forall|i: int| 0 <= i < entries.len() ==> encodable(#[trigger] entries[i]),
    ensures
        spec_directory(
            before + encode_directory(entries, filler) + after,
            before.len() as int,
            entries.len() as int,
        ) == Ok::<(Seq<EntryView>, int), WdbError>(
            (entries, (before.len() + encode_directory(entries, filler).len()) as int),
        ),
{
    let skipped = filling(HEADER_SKIP_SIZE as int, filler);
    let bytes = before + encode_directory(entries, filler) + after;
    lemma_entries_round_trip(entries, filler, before + skipped, after);
    assert(bytes =~= before + skipped + encode_entries(entries, filler) + after);
}

} // verus!

//! The byte layout of the header and the directory, as functions from the
//! file's bytes and a position to what a reader finds there.

use crate::crystal::{is_reserved, EntryView, FileStructureView};
use crate::cursor::{lemma_terminator, spec_part, spec_string, spec_string_eof};
use crate::endian::be_i32;
use crate::error::WdbError;
use vstd::prelude::*;

verus! {

/// The width of the field that holds a reserved entry's name.
pub const NAME_FIELD_SIZE: usize = 16;

/// The width of what follows the name in an entry: offset, length and eight
/// bytes that are skipped.
pub const ENTRY_TAIL_SIZE: usize = 16;

/// The width of the field that is skipped between the header and the directory.
pub const HEADER_SKIP_SIZE: usize = 8;

/// Where an entry's offset field begins, for a name that starts at `pos` and
/// ends before `after_name`: a reserved name fills a field of sixteen bytes,
/// any other name only its own length.
pub open spec fn entry_fields(name: Seq<char>, pos: int, after_name: int) -> int {
    if is_reserved(name) {
        pos + NAME_FIELD_SIZE
    } else {
        after_name
    }
}

/// What a read of one directory entry at `pos` yields: `Format` when the
/// name cannot be read, when a reserved name is longer than its field, or
/// when the data ends inside the entry.
pub open spec fn spec_entry(bytes: Seq<u8>, pos: int) -> Result<(EntryView, int), WdbError> {
    match spec_string_eof(bytes, pos) {
        Err(e) => Err(e),
        Ok((name, after_name)) => {
            let fields = entry_fields(name, pos, after_name);
            if after_name <= fields && fields + ENTRY_TAIL_SIZE <= bytes.len() {
                Ok(
                    (
                        EntryView {
                            name,
                            offset: be_i32(bytes.subrange(fields, fields + 4)),
                            length: be_i32(bytes.subrange(fields + 4, fields + 8)),
                        },
                        fields + ENTRY_TAIL_SIZE,
                    ),
                )
            } else {
                Err(WdbError::Format)
            }
        },
    }
}

/// What a read of `count` entries in a row yields, starting at `pos`; a
/// `count` below one reads nothing.
pub open spec fn spec_entries(bytes: Seq<u8>, pos: int, count: int) -> Result<
    (Seq<EntryView>, int),
    WdbError,
>
    decreases count,
{
    if count <= 0 {
        Ok((Seq::empty(), pos))
    } else {
        match spec_entries(bytes, pos, count - 1) {
            Err(e) => Err(e),
            Ok((entries, next)) => match spec_entry(bytes, next) {
                Err(e) => Err(e),
                Ok((entry, end)) => Ok((entries.push(entry), end)),
            },
        }
    }
}

/// What a read of the directory yields: eight bytes are skipped, then
/// `count` entries follow.
pub open spec fn spec_directory(bytes: Seq<u8>, pos: int, count: int) -> Result<
    (Seq<EntryView>, int),
    WdbError,
> {
    if pos + HEADER_SKIP_SIZE <= bytes.len() {
        spec_entries(bytes, pos + HEADER_SKIP_SIZE, count)
    } else {
        Err(WdbError::Format)
    }
}

/// A read that fails keeps failing, with the same error, however many more
/// entries are asked for.
pub proof fn lemma_entries_error_stays(bytes: Seq<u8>, pos: int, read: int, count: int)
    requires
        read <= count,
        spec_entries(bytes, pos, read) is Err,
    ensures
        spec_entries(bytes, pos, count) == spec_entries(bytes, pos, read),
    decreases count - read,
{
    if read < count {
        lemma_entries_error_stays(bytes, pos, read, count - 1);
    }
}

/// A read of `count` entries that succeeds yields `count` of them.
pub proof fn lemma_entries_len(bytes: Seq<u8>, pos: int, count: int)
    requires
        spec_entries(bytes, pos, count) is Ok,
    ensures
        spec_entries(bytes, pos, count)->Ok_0.0.len() == if count <= 0 {
            0
        } else {
            count
        },
    decreases count,
{
    if count > 0 {
        lemma_entries_len(bytes, pos, count - 1);
    }
}

/// The name of the entry that stands for the format version.
pub open spec fn version_name() -> Seq<char> {
    "!!version\0"@
}

/// The name of the entry that holds the type list.
pub open spec fn typelist_name() -> Seq<char> {
    "!!typelist\0"@
}

/// The name of the entry that holds the string type list.
pub open spec fn strtypelist_name() -> Seq<char> {
    "!!strtypelist\0"@
}

/// The name of the entry that holds the string table.
pub open spec fn string_name() -> Seq<char> {
    "!!string\0"@
}

/// The entry at `index` is named `name`, and no other entry is.
pub open spec fn is_only_chunk(entries: Seq<EntryView>, name: Seq<char>, index: int) -> bool {
    &&& 0 <= index < entries.len()
    &&& forall|i: int|
        0 <= i < entries.len() ==> ((#[trigger] entries[i]).name == name <==> i == index)
}

/// Exactly one entry is named `name`.
pub open spec fn has_chunk(entries: Seq<EntryView>, name: Seq<char>) -> bool {
    exists|index: int| is_only_chunk(entries, name, index)
}

/// The one entry named `name`, or `MissingChunk` when no entry or more than
/// one entry has that name.
pub open spec fn spec_chunk(entries: Seq<EntryView>, name: Seq<char>) -> Result<
    EntryView,
    WdbError,
> {
    if has_chunk(entries, name) {
        Ok(entries[choose|index: int| is_only_chunk(entries, name, index)])
    } else {
        Err(WdbError::MissingChunk)
    }
}

/// The one entry named `name` is the one at any index that `is_only_chunk`
/// holds of.
pub proof fn lemma_chunk_at(entries: Seq<EntryView>, name: Seq<char>, index: int)
    requires
        is_only_chunk(entries, name, index),
    ensures
        spec_chunk(entries, name) == Ok::<EntryView, WdbError>(entries[index]),
{
    let chosen = choose|index: int| is_only_chunk(entries, name, index);
    assert(entries[chosen].name == name);
}

/// What a read of the version yields: the directory must hold the version
/// entry, and the number is the four bytes at the cursor, wherever it stands.
pub open spec fn spec_version(bytes: Seq<u8>, pos: int, entries: Seq<EntryView>) -> Result<
    (int, int),
    WdbError,
> {
    match spec_chunk(entries, version_name()) {
        Err(e) => Err(e),
        Ok(_) => match spec_part(bytes, pos, 4) {
            Err(e) => Err(e),
            Ok((raw, next)) => Ok((be_i32(raw), next)),
        },
    }
}

/// What a read of the chunk named `name` yields: as many bytes at the cursor
/// as the chunk's entry says; `Format` when that length is negative or more
/// than what is left.
pub open spec fn spec_chunk_bytes(
    bytes: Seq<u8>,
    pos: int,
    entries: Seq<EntryView>,
    name: Seq<char>,
) -> Result<(Seq<u8>, int), WdbError> {
    match spec_chunk(entries, name) {
        Err(e) => Err(e),
        Ok(entry) => if entry.length < 0 {
            Err(WdbError::Format)
        } else {
            spec_part(bytes, pos, entry.length)
        },
    }
}

/// What a read of zero-terminated texts yields, one after another from `pos`
/// until a text ends at or after `end`.
pub open spec fn spec_strings(bytes: Seq<u8>, pos: int, end: int) -> Result<
    (Seq<Seq<char>>, int),
    WdbError,
>
    decreases bytes.len() - pos,
{
    if pos >= end {
        Ok((Seq::empty(), pos))
    } else if pos < 0 || pos >= bytes.len() {
        Err(WdbError::Format)
    } else {
        match spec_string_eof(bytes, pos) {
            Err(e) => Err(e),
            Ok((text, next)) => {
                proof {
                    lemma_terminator(bytes, pos);
                }
                match spec_strings(bytes, next, end) {
                    Err(e) => Err(e),
                    Ok((rest, last)) => Ok((seq![text] + rest, last)),
                }
            },
        }
    }
}

/// What a read of the string table yields: the cursor must stand at the
/// offset that the table's entry gives, and texts are read until the entry's
/// length is used up.
pub open spec fn spec_stringlist(bytes: Seq<u8>, pos: int, entries: Seq<EntryView>) -> Result<
    (Seq<Seq<char>>, int),
    WdbError,
> {
    match spec_chunk(entries, string_name()) {
        Err(e) => Err(e),
        Ok(entry) => if pos != entry.offset {
            Err(WdbError::PositionMismatch)
        } else {
            spec_strings(bytes, pos, entry.offset + entry.length)
        },
    }
}

/// The width of the magic tag that opens the file.
pub const MAGIC_SIZE: usize = 4;

/// What a read of the whole structure yields, step after step: the magic
/// tag, the entry count, the directory, the string table, the string type
/// list, the type list and the version. The first step that fails gives the
/// error.
pub open spec fn spec_structure(bytes: Seq<u8>, pos: int) -> Result<
    (FileStructureView, int),
    WdbError,
> {
    match spec_string(bytes, pos, MAGIC_SIZE as int) {
        Err(e) => Err(e),
        Ok((magic, at_count)) => match spec_part(bytes, at_count, 4) {
            Err(e) => Err(e),
            Ok((raw_count, at_directory)) => match spec_directory(
                bytes,
                at_directory,
                be_i32(raw_count),
            ) {
                Err(e) => Err(e),
                Ok((entries, at_strings)) => match spec_stringlist(bytes, at_strings, entries) {
                    Err(e) => Err(e),
                    Ok((stringlist, at_strtypes)) => match spec_chunk_bytes(
                        bytes,
                        at_strtypes,
                        entries,
                        strtypelist_name(),
                    ) {
                        Err(e) => Err(e),
                        Ok((stringtypelist, at_types)) => match spec_chunk_bytes(
                            bytes,
                            at_types,
                            entries,
                            typelist_name(),
                        ) {
                            Err(e) => Err(e),
                            Ok((typelist, at_version)) => match spec_version(
                                bytes,
                                at_version,
                                entries,
                            ) {
                                Err(e) => Err(e),
                                Ok((version, end)) => Ok(
                                    (
                                        FileStructureView {
                                            magic,
                                            count: be_i32(raw_count),
                                            entries,
                                            stringlist,
                                            stringtypelist,
                                            typelist,
                                            version,
                                        },
                                        end,
                                    ),
                                ),
                            },
                        },
                    },
                },
            },
        },
    }
}

/// A directory is valid when its count is the number of its entries and
/// each of the four reserved names belongs to exactly one entry.
pub open spec fn directory_valid(structure: FileStructureView) -> bool {
    &&& structure.count == structure.entries.len()
    &&& has_chunk(structure.entries, version_name())
    &&& has_chunk(structure.entries, typelist_name())
    &&& has_chunk(structure.entries, strtypelist_name())
    &&& has_chunk(structure.entries, string_name())
}

/// Whatever a read of the whole structure yields is a valid directory.
pub proof fn lemma_structure_valid(bytes: Seq<u8>, pos: int)
    requires
        spec_structure(bytes, pos) is Ok,
    ensures
        directory_valid(spec_structure(bytes, pos)->Ok_0.0),
{
    let structure = spec_structure(bytes, pos)->Ok_0.0;
    let at_count = spec_string(bytes, pos, MAGIC_SIZE as int)->Ok_0.1;
    let at_directory = spec_part(bytes, at_count, 4)->Ok_0.1;
    lemma_entries_len(bytes, at_directory + HEADER_SKIP_SIZE, structure.count);
    let index = choose|index: int| is_only_chunk(structure.entries, string_name(), index);
    assert(0 <= index < structure.entries.len());
}

} // verus!

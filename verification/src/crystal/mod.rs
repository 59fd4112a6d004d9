use crate::crystal::layout::{
    directory_valid, has_chunk, is_only_chunk, lemma_chunk_at, lemma_entries_error_stays,
    lemma_structure_valid, spec_chunk_bytes, spec_directory, spec_entries, spec_entry,
    spec_stringlist, spec_strings, spec_structure, spec_version, string_name,
    strtypelist_name, typelist_name, version_name, ENTRY_TAIL_SIZE, HEADER_SKIP_SIZE,
    MAGIC_SIZE, NAME_FIELD_SIZE,
};
use crate::cursor::{
    lemma_terminator, spec_part, spec_string, spec_string_eof, terminator, ByteCursor,
};
use crate::endian::{be_i16, be_i32, read_i16_be, read_i32_be};
use crate::error::WdbError;
use crate::text::{string_from_utf8, string_views};
use vstd::prelude::*;
use vstd::slice::{slice_subrange, slice_to_vec};
use vstd::string::*;

pub mod encoding;
pub mod layout;

verus! {

/// The reading primitives that the decoders share. A read that fails leaves
/// the cursor where it was.
pub trait ReadUtilities {
    /// Reads the next `size` bytes.
    fn load_part(reader: &mut ByteCursor, size: usize) -> (part: Result<Vec<u8>, WdbError>)
        ensures
            final(reader).bytes() == old(reader).bytes(),
            match spec_part(old(reader).bytes(), old(reader).pos(), size as int) {
                Ok((bytes, next)) => {
                    &&& part is Ok
                    &&& part->Ok_0@ == bytes
                    &&& final(reader).pos() == next
                },
                Err(e) => {
                    &&& part == Err::<Vec<u8>, WdbError>(e)
                    &&& final(reader).pos() == old(reader).pos()
                },
            },
    {
        let pos = reader.position();
        let data = reader.data();
        if size > data.len() - pos {
            return Err(WdbError::Format);
        }
        let part = slice_to_vec(slice_subrange(data, pos, pos + size));
        reader.jump(pos + size);
        Ok(part)
    }

    /// Reads the next `size` bytes as text.
    fn load_string(reader: &mut ByteCursor, size: usize) -> (text: Result<String, WdbError>)
        ensures
            final(reader).bytes() == old(reader).bytes(),
            match spec_string(old(reader).bytes(), old(reader).pos(), size as int) {
                Ok((chars, next)) => {
                    &&& text is Ok
                    &&& text->Ok_0@ == chars
                    &&& final(reader).pos() == next
                },
                Err(e) => {
                    &&& text == Err::<String, WdbError>(e)
                    &&& final(reader).pos() == old(reader).pos()
                },
            },
    {
        let pos = reader.position();
        let data = reader.data();
        if size > data.len() - pos {
            return Err(WdbError::Format);
        }
        match string_from_utf8(slice_to_vec(slice_subrange(data, pos, pos + size))) {
            Some(text) => {
                reader.jump(pos + size);
                Ok(text)
            },
            None => Err(WdbError::Format),
        }
    }

    /// Reads up to and including the next zero byte as text.
    fn load_string_eof(reader: &mut ByteCursor) -> (text: Result<String, WdbError>)
        ensures
            final(reader).bytes() == old(reader).bytes(),
            match spec_string_eof(old(reader).bytes(), old(reader).pos()) {
                Ok((chars, next)) => {
                    &&& text is Ok
                    &&& text->Ok_0@ == chars
                    &&& final(reader).pos() == next
                },
                Err(e) => {
                    &&& text == Err::<String, WdbError>(e)
                    &&& final(reader).pos() == old(reader).pos()
                },
            },
    {
        let pos = reader.position();
        let data = reader.data();
        let mut end: usize = pos;
        while end < data.len() && data[end] != 0
            invariant
                pos <= end <= data@.len(),
                terminator(data@, pos as int) == terminator(data@, end as int),
            decreases data@.len() - end,
        {
            end += 1;
        }
        if end >= data.len() {
            return Err(WdbError::Format);
        }
        match string_from_utf8(slice_to_vec(slice_subrange(data, pos, end + 1))) {
            Some(text) => {
                reader.jump(end + 1);
                Ok(text)
            },
            None => Err(WdbError::Format),
        }
    }
}

/// One line of the directory: a named chunk and where it lies in the file.
#[derive(Debug)]
pub struct Entry {
    /// The chunk's name, with its terminating zero.
    pub name: String,
    /// The chunk's absolute position in the file.
    pub offset: i32,
    /// The chunk's length in bytes.
    pub length: i32,
}

/// The value of an `Entry`.
pub struct EntryView {
    pub name: Seq<char>,
    pub offset: int,
    pub length: int,
}

impl Clone for Entry {
    fn clone(&self) -> (copy: Entry)
        ensures
            copy == *self,
    {
        Entry { name: self.name.clone(), offset: self.offset, length: self.length }
    }
}

impl View for Entry {
    type V = EntryView;

    open spec fn view(&self) -> EntryView {
        EntryView { name: self.name@, offset: self.offset as int, length: self.length as int }
    }
}

/// The values of a list of entries, in order.
pub open spec fn entry_views(entries: Seq<Entry>) -> Seq<EntryView> {
    Seq::new(entries.len(), |i: int| entries[i]@)
}

impl Default for Entry {
    fn default() -> (entry: Entry)
        ensures
            entry@ == (EntryView { name: Seq::empty(), offset: 0, length: 0 }),
    {
        Entry::new()
    }
}

impl ReadUtilities for Entry {}

impl Entry {
    /// An entry with an empty name, at offset zero and of length zero.
    pub fn new() -> (entry: Entry)
        ensures
            entry@ == (EntryView { name: Seq::empty(), offset: 0, length: 0 }),
    {
        Entry { name: String::new(), offset: 0, length: 0 }
    }

    /// Reads the directory entry at the cursor.
    fn read_entry(reader: &mut ByteCursor) -> (entry: Result<Entry, WdbError>)
        ensures
            final(reader).bytes() == old(reader).bytes(),
            match spec_entry(old(reader).bytes(), old(reader).pos()) {
                Ok((view, next)) => {
                    &&& entry is Ok
                    &&& entry->Ok_0@ == view
                    &&& final(reader).pos() == next
                },
                Err(e) => {
                    &&& entry == Err::<Entry, WdbError>(e)
                    &&& final(reader).pos() == old(reader).pos()
                },
            },
    {
        let begin = reader.position();
        proof {
            lemma_terminator(reader.bytes(), begin as int);
        }
        let name = Self::load_string_eof(reader)?;
        let after_name = reader.position();
        let len = reader.data().len();
        let fields = if name_is_reserved(name.as_str()) {
            if after_name - begin > NAME_FIELD_SIZE || len - begin < NAME_FIELD_SIZE {
                reader.jump(begin);
                return Err(WdbError::Format);
            }
            begin + NAME_FIELD_SIZE
        } else {
            after_name
        };
        if fields > len || len - fields < ENTRY_TAIL_SIZE {
            reader.jump(begin);
            return Err(WdbError::Format);
        }
        let data = reader.data();
        let offset = read_i32_be(slice_subrange(data, fields, fields + 4));
        let length = read_i32_be(slice_subrange(data, fields + 4, fields + 8));
        reader.jump(fields + ENTRY_TAIL_SIZE);
        Ok(Entry { name, offset, length })
    }

    /// Reads the directory: skips the eight bytes before it, then reads
    /// `count` entries and returns them in the order they were found. On
    /// failure the cursor stays where it was.
    pub fn load_entries(reader: &mut ByteCursor, count: i32) -> (entries: Result<
        Vec<Entry>,
        WdbError,
    >)
        ensures
            final(reader).bytes() == old(reader).bytes(),
            match spec_directory(old(reader).bytes(), old(reader).pos(), count as int) {
                Ok((views, next)) => {
                    &&& entries is Ok
                    &&& entry_views(entries->Ok_0@) == views
                    &&& final(reader).pos() == next
                },
                Err(e) => {
                    &&& entries == Err::<Vec<Entry>, WdbError>(e)
                    &&& final(reader).pos() == old(reader).pos()
                },
            },
    {
        let origin = reader.position();
        let _ = Self::load_part(reader, HEADER_SKIP_SIZE)?;
        let ghost first = reader.pos();
        let mut entries: Vec<Entry> = Vec::new();
        let mut read: i32 = 0;
        while read < count
            invariant
                0 <= read,
                read <= count || read == 0,
                reader.bytes() == old(reader).bytes(),
                origin == old(reader).pos(),
                first == origin + HEADER_SKIP_SIZE,
                first <= reader.bytes().len(),
                spec_entries(reader.bytes(), first, read as int) matches Ok((views, next))
                    && views == entry_views(entries@) && next == reader.pos(),
            decreases count - read,
        {
            match Self::read_entry(reader) {
                Ok(entry) => {
                    proof {
                        assert(entry_views(entries@.push(entry)) =~= entry_views(entries@).push(
                            entry@,
                        ));
                    }
                    entries.push(entry);
                },
                Err(e) => {
                    proof {
                        lemma_entries_error_stays(
                            reader.bytes(),
                            first,
                            read + 1,
                            count as int,
                        );
                    }
                    reader.jump(origin);
                    return Err(e);
                },
            }
            read += 1;
        }
        Ok(entries)
    }
}

/// Finds the place of the one entry named `name`; fails when no entry or
/// more than one entry has that name.
pub fn find_chunk(entries: &Vec<Entry>, name: &str) -> (found: Result<usize, WdbError>)
    ensures
        match found {
            Ok(index) => is_only_chunk(entry_views(entries@), name@, index as int),
            Err(e) => e == WdbError::MissingChunk && !has_chunk(entry_views(entries@), name@),
        },
{
    let target = name.to_owned();
    let ghost views = entry_views(entries@);
    let mut matches: u8 = 0;
    let mut at: usize = 0;
    let ghost mut other: int = 0;
    let mut i: usize = 0;
    while i < entries.len()
        invariant
            i <= entries.len(),
            views == entry_views(entries@),
            target@ == name@,
            matches <= 2,
            matches == 0 ==> forall|j: int| 0 <= j < i ==> (#[trigger] views[j]).name != name@,
            matches == 1 ==> at < i && forall|j: int|
                0 <= j < i ==> ((#[trigger] views[j]).name == name@ <==> j == at),
            matches == 2 ==> at < i && 0 <= other < i && other != at && views[at as int].name
                == name@ && views[other].name == name@,
        decreases entries.len() - i,
    {
        if entries[i].name == target {
            if matches == 0 {
                matches = 1;
                at = i;
            } else {
                proof {
                    other = i as int;
                }
                matches = 2;
            }
        }
        i += 1;
    }
    if matches == 1 {
        Ok(at)
    } else {
        proof {
            assert forall|index: int| !is_only_chunk(views, name@, index) by {
                if is_only_chunk(views, name@, index) {
                    if matches == 2 {
                        assert(views[at as int].name == name@);
                        assert(views[other].name == name@);
                    } else {
                        assert(views[index].name == name@);
                    }
                }
            }
        }
        Err(WdbError::MissingChunk)
    }
}

/// A name that begins with `!` marks a chunk of metadata, not a node.
pub open spec fn is_reserved(name: Seq<char>) -> bool {
    name.len() > 0 && name[0] == '!'
}

/// The category of a node.
#[derive(Debug, Default, Clone, Copy, PartialEq, Eq, Structural)]
pub enum NodeType {
    #[default]
    HP,
    STR,
    MAG,
    ACCESSORY,
    ATB,
    ABILITY,
    ROLE,
    INVALID,
}

/// The category that a record's type byte stands for: 1 to 7 name the seven
/// categories in order, every other byte is `INVALID`.
pub open spec fn node_type_of(raw: u8) -> NodeType {
    match raw {
        1 => NodeType::HP,
        2 => NodeType::STR,
        3 => NodeType::MAG,
        4 => NodeType::ACCESSORY,
        5 => NodeType::ATB,
        6 => NodeType::ABILITY,
        7 => NodeType::ROLE,
        _ => NodeType::INVALID,
    }
}

impl NodeType {
    /// The category's name in capitals.
    pub open spec fn label(self) -> Seq<char> {
        match self {
            NodeType::HP => "HP"@,
            NodeType::STR => "STR"@,
            NodeType::MAG => "MAG"@,
            NodeType::ACCESSORY => "ACCESSORY"@,
            NodeType::ATB => "ATB"@,
            NodeType::ABILITY => "ABILITY"@,
            NodeType::ROLE => "ROLE"@,
            NodeType::INVALID => "INVALID"@,
        }
    }

    /// The icon that stands for the category; `INVALID` has none.
    pub open spec fn icon(self) -> Seq<char> {
        match self {
            NodeType::HP => "Green Orb"@,
            NodeType::STR => "Red Orb"@,
            NodeType::MAG => "Purple Orb"@,
            NodeType::ACCESSORY => "Orange Orb"@,
            NodeType::ATB => "White Crystal"@,
            NodeType::ABILITY => "Yellow Orb"@,
            NodeType::ROLE => "White Crystal"@,
            NodeType::INVALID => ""@,
        }
    }

    /// Decodes a record's type byte.
    pub fn from_byte(raw: u8) -> (node_type: NodeType)
        ensures
            node_type == node_type_of(raw),
            node_type == NodeType::INVALID <==> raw == 0 || raw > 7,
    {
        match raw {
            1 => NodeType::HP,
            2 => NodeType::STR,
            3 => NodeType::MAG,
            4 => NodeType::ACCESSORY,
            5 => NodeType::ATB,
            6 => NodeType::ABILITY,
            7 => NodeType::ROLE,
            _ => NodeType::INVALID,
        }
    }

    /// The category's name in capitals, as a text of its own.
    pub fn to_string(&self) -> (text: String)
        ensures
            text@ == self.label(),
    {
        match self {
            NodeType::HP => "HP".to_owned(),
            NodeType::STR => "STR".to_owned(),
            NodeType::MAG => "MAG".to_owned(),
            NodeType::ACCESSORY => "ACCESSORY".to_owned(),
            NodeType::ATB => "ATB".to_owned(),
            NodeType::ABILITY => "ABILITY".to_owned(),
            NodeType::ROLE => "ROLE".to_owned(),
            NodeType::INVALID => "INVALID".to_owned(),
        }
    }

    /// The name of the icon that stands for the category; empty for
    /// `INVALID`.
    pub fn to_imagesrc(&self) -> (icon: &'static str)
        ensures
            icon@ == self.icon(),
    {
        match self {
            NodeType::HP => "Green Orb",
            NodeType::STR => "Red Orb",
            NodeType::MAG => "Purple Orb",
            NodeType::ACCESSORY => "Orange Orb",
            NodeType::ATB => "White Crystal",
            NodeType::ABILITY => "Yellow Orb",
            NodeType::ROLE => "White Crystal",
            NodeType::INVALID => "",
        }
    }
}

/// The stage and the role that a record's last byte packs: the stage in the
/// high four bits, the role in the low four.
pub fn split_stage_role(packed: u8) -> (pair: (u8, u8))
    ensures
        pair.0 == packed / 16,
        pair.1 == packed % 16,
        pair.0 < 16,
        pair.1 < 16,
        pair.0 * 16 + pair.1 == packed,
{
    (packed / 16, packed % 16)
}

/// The character that a node belongs to, told by the first five characters
/// of its entry's name; `None` where they name no character.
pub open spec fn character_of(name: Seq<char>) -> Seq<char> {
    if name.len() < 5 {
        "None"@
    } else if name.subrange(0, 5) == "cr_fa"@ {
        "Fang"@
    } else if name.subrange(0, 5) == "cr_hp"@ {
        "Hope"@
    } else if name.subrange(0, 5) == "cr_lt"@ {
        "Lightning"@
    } else if name.subrange(0, 5) == "cr_sz"@ {
        "Sazh"@
    } else if name.subrange(0, 5) == "cr_sn"@ {
        "Snow"@
    } else if name.subrange(0, 5) == "cr_va"@ {
        "Vanille"@
    } else {
        "None"@
    }
}

/// Looks up the character that an entry's name stands for.
pub fn character_name(name: &str) -> (character: String)
    ensures
        character@ == character_of(name@),
{
    if name.unicode_len() < 5 {
        return "None".to_owned();
    }
    let c0 = name.get_char(0);
    let c1 = name.get_char(1);
    let c2 = name.get_char(2);
    let c3 = name.get_char(3);
    let c4 = name.get_char(4);
    proof {
        reveal_strlit("cr_fa");
        reveal_strlit("cr_hp");
        reveal_strlit("cr_lt");
        reveal_strlit("cr_sz");
        reveal_strlit("cr_sn");
        reveal_strlit("cr_va");
        let tag = name@.subrange(0, 5);
        assert(tag.len() == 5);
        assert(tag[0] == c0 && tag[1] == c1 && tag[2] == c2 && tag[3] == c3 && tag[4] == c4);
        assert(tag =~= seq![c0, c1, c2, c3, c4]);
        assert("cr_fa"@ =~= seq!['c', 'r', '_', 'f', 'a']);
        assert("cr_hp"@ =~= seq!['c', 'r', '_', 'h', 'p']);
        assert("cr_lt"@ =~= seq!['c', 'r', '_', 'l', 't']);
        assert("cr_sz"@ =~= seq!['c', 'r', '_', 's', 'z']);
        assert("cr_sn"@ =~= seq!['c', 'r', '_', 's', 'n']);
        assert("cr_va"@ =~= seq!['c', 'r', '_', 'v', 'a']);
    }
    if c0 != 'c' || c1 != 'r' || c2 != '_' {
        "None".to_owned()
    } else if c3 == 'f' && c4 == 'a' {
        "Fang".to_owned()
    } else if c3 == 'h' && c4 == 'p' {
        "Hope".to_owned()
    } else if c3 == 'l' && c4 == 't' {
        "Lightning".to_owned()
    } else if c3 == 's' && c4 == 'z' {
        "Sazh".to_owned()
    } else if c3 == 's' && c4 == 'n' {
        "Snow".to_owned()
    } else if c3 == 'v' && c4 == 'a' {
        "Vanille".to_owned()
    } else {
        "None".to_owned()
    }
}

/// One node of the progression tree, as decoded from its record.
#[derive(Debug)]
pub struct Node {
    pub char_name: String,
    /// The name of the directory entry that the node came from.
    pub node_name: String,
    pub cp_cost: i32,
    /// The record's second field, kept as read and not resolved further.
    pub ability_ref: i32,
    pub node_value: i16,
    pub node_type: NodeType,
    pub stage: u8,
    pub role: u8,
}

/// The value of a `Node`.
pub struct NodeView {
    pub char_name: Seq<char>,
    pub node_name: Seq<char>,
    pub cp_cost: int,
    pub ability_ref: int,
    pub node_value: int,
    pub node_type: NodeType,
    pub stage: int,
    pub role: int,
}

impl View for Node {
    type V = NodeView;

    open spec fn view(&self) -> NodeView {
        NodeView {
            char_name: self.char_name@,
            node_name: self.node_name@,
            cp_cost: self.cp_cost as int,
            ability_ref: self.ability_ref as int,
            node_value: self.node_value as int,
            node_type: self.node_type,
            stage: self.stage as int,
            role: self.role as int,
        }
    }
}

impl Clone for Node {
    fn clone(&self) -> (copy: Node)
        ensures
            copy == *self,
    {
        Node {
            char_name: self.char_name.clone(),
            node_name: self.node_name.clone(),
            cp_cost: self.cp_cost,
            ability_ref: self.ability_ref,
            node_value: self.node_value,
            node_type: self.node_type,
            stage: self.stage,
            role: self.role,
        }
    }
}

impl Default for Node {
    fn default() -> (node: Node)
        ensures
            node@ == (NodeView {
                char_name: Seq::empty(),
                node_name: Seq::empty(),
                cp_cost: 0,
                ability_ref: 0,
                node_value: 0,
                node_type: NodeType::HP,
                stage: 0,
                role: 0,
            }),
    {
        Node {
            char_name: String::new(),
            node_name: String::new(),
            cp_cost: 0,
            ability_ref: 0,
            node_value: 0,
            node_type: NodeType::HP,
            stage: 0,
            role: 0,
        }
    }
}

impl Node {
    /// A node with the given fields.
    pub fn new(
        char_name: String,
        node_name: String,
        cp_cost: i32,
        ability_ref: i32,
        node_value: i16,
        node_type: NodeType,
        stage: u8,
        role: u8,
    ) -> (node: Node)
        ensures
            node == (Node {
                char_name,
                node_name,
                cp_cost,
                ability_ref,
                node_value,
                node_type,
                stage,
                role,
            }),
    {
        Node { char_name, node_name, cp_cost, ability_ref, node_value, node_type, stage, role }
    }
}

/// The node that the twelve bytes at `pos` describe, for the entry `name`:
/// cost and ability reference as 32-bit integers, the value as a 16-bit
/// integer, the type byte, and the byte that packs stage and role.
pub open spec fn spec_node(bytes: Seq<u8>, pos: int, name: Seq<char>) -> NodeView {
    NodeView {
        char_name: character_of(name),
        node_name: name,
        cp_cost: be_i32(bytes.subrange(pos, pos + 4)),
        ability_ref: be_i32(bytes.subrange(pos + 4, pos + 8)),
        node_value: be_i16(bytes.subrange(pos + 8, pos + 10)),
        node_type: node_type_of(bytes[pos + 10]),
        stage: bytes[pos + 11] as int / 16,
        role: bytes[pos + 11] as int % 16,
    }
}

/// The number of bytes that one node record takes.
pub const NODE_RECORD_SIZE: usize = 12;

/// The header and directory of a file, with the metadata chunks that the
/// directory gives access to.
#[derive(Debug)]
pub struct FileStructure {
    magic: String,
    count: i32,
    entries: Vec<Entry>,
    stringlist: Vec<String>,
    stringtypelist: Vec<u8>,
    typelist: Vec<u8>,
    version: i32,
}

/// The value of a `FileStructure`.
pub struct FileStructureView {
    pub magic: Seq<char>,
    pub count: int,
    pub entries: Seq<EntryView>,
    pub stringlist: Seq<Seq<char>>,
    pub stringtypelist: Seq<u8>,
    pub typelist: Seq<u8>,
    pub version: int,
}

impl View for FileStructure {
    type V = FileStructureView;

    closed spec fn view(&self) -> FileStructureView {
        FileStructureView {
            magic: self.magic@,
            count: self.count as int,
            entries: entry_views(self.entries@),
            stringlist: string_views(self.stringlist@),
            stringtypelist: self.stringtypelist@,
            typelist: self.typelist@,
            version: self.version as int,
        }
    }
}

impl FileStructure {
    #[verifier::type_invariant]
    spec fn valid(self) -> bool {
        directory_valid(self@)
    }

    /// The tag of four bytes that opens the file.
    pub fn magic(&self) -> (magic: &String)
        ensures
            magic@ == self@.magic,
    {
        &self.magic
    }

    /// The number of entries, as the header gives it.
    pub fn count(&self) -> (count: i32)
        ensures
            count == self@.count,
    {
        self.count
    }

    /// The directory's entries, in the order of the file. Every structure
    /// holds a valid directory.
    pub fn entries(&self) -> (entries: &Vec<Entry>)
        ensures
            entry_views(entries@) == self@.entries,
            directory_valid(self@),
    {
        proof {
            use_type_invariant(self);
        }
        &self.entries
    }

    /// The texts of the string table, each with its terminating zero.
    pub fn stringlist(&self) -> (texts: &Vec<String>)
        ensures
            string_views(texts@) == self@.stringlist,
    {
        &self.stringlist
    }

    /// The bytes of the string type list.
    pub fn stringtypelist(&self) -> (bytes: &Vec<u8>)
        ensures
            bytes@ == self@.stringtypelist,
    {
        &self.stringtypelist
    }

    /// The bytes of the type list.
    pub fn typelist(&self) -> (bytes: &Vec<u8>)
        ensures
            bytes@ == self@.typelist,
    {
        &self.typelist
    }

    /// The format version.
    pub fn version(&self) -> (version: i32)
        ensures
            version == self@.version,
    {
        self.version
    }
}

impl ReadUtilities for FileStructure {}

impl FileStructure {
    /// Reads the structure step after step, leaving the cursor where a
    /// failed step left it.
    fn read_structure(reader: &mut ByteCursor) -> (structure: Result<FileStructure, WdbError>)
        ensures
            final(reader).bytes() == old(reader).bytes(),
            match spec_structure(old(reader).bytes(), old(reader).pos()) {
                Ok((view, next)) => {
                    &&& structure is Ok
                    &&& structure->Ok_0@ == view
                    &&& final(reader).pos() == next
                },
                Err(e) => structure == Err::<FileStructure, WdbError>(e),
            },
    {
        let ghost bytes = reader.bytes();
        let ghost origin = reader.pos();
        let magic = Self::load_string(reader, MAGIC_SIZE)?;
        let pos = reader.position();
        let raw_count = Self::load_part(reader, 4)?;
        assert(raw_count@.len() == 4);
        let count = read_i32_be(raw_count.as_slice());
        let entries = Entry::load_entries(reader, count)?;
        let stringlist = Self::load_stringlist(reader, &entries)?;
        let stringtypelist = Self::load_stringtypelist(reader, &entries)?;
        let typelist = Self::load_typelist(reader, &entries)?;
        let version = Self::load_version(reader, &entries)?;
        proof {
            lemma_structure_valid(bytes, origin);
        }
        Ok(FileStructure { magic, count, entries, stringlist, stringtypelist, typelist, version })
    }

    /// Reads the header, the directory and the metadata chunks, in the order
    /// in which they lie in the file. On failure the cursor stays where it
    /// was. A structure that is returned holds a valid directory.
    pub fn load(reader: &mut ByteCursor) -> (structure: Result<FileStructure, WdbError>)
        ensures
            final(reader).bytes() == old(reader).bytes(),
            match spec_structure(old(reader).bytes(), old(reader).pos()) {
                Ok((view, next)) => {
                    &&& structure is Ok
                    &&& structure->Ok_0@ == view
                    &&& directory_valid(view)
                    &&& final(reader).pos() == next
                },
                Err(e) => {
                    &&& structure == Err::<FileStructure, WdbError>(e)
                    &&& final(reader).pos() == old(reader).pos()
                },
            },
    {
        let origin = reader.position();
        match Self::read_structure(reader) {
            Ok(structure) => {
                proof {
                    lemma_structure_valid(old(reader).bytes(), old(reader).pos());
                }
                Ok(structure)
            },
            Err(e) => {
                reader.jump(origin);
                Err(e)
            },
        }
    }

    /// Reads the format version: four bytes at the cursor, once the
    /// directory is known to hold the version entry.
    pub fn load_version(reader: &mut ByteCursor, entries: &Vec<Entry>) -> (version: Result<
        i32,
        WdbError,
    >)
        ensures
            final(reader).bytes() == old(reader).bytes(),
            match spec_version(old(reader).bytes(), old(reader).pos(), entry_views(entries@)) {
                Ok((number, next)) => {
                    &&& version is Ok
                    &&& version->Ok_0 == number
                    &&& final(reader).pos() == next
                },
                Err(e) => {
                    &&& version == Err::<i32, WdbError>(e)
                    &&& final(reader).pos() == old(reader).pos()
                },
            },
    {
        let index = find_chunk(entries, "!!version\0")?;
        proof {
            lemma_chunk_at(entry_views(entries@), version_name(), index as int);
        }
        let pos = reader.position();
        let raw = Self::load_part(reader, 4)?;
        assert(raw@.len() == 4);
        Ok(read_i32_be(raw.as_slice()))
    }

    /// Reads the chunk named `name` at the cursor, as long as its entry says.
    fn load_chunk(reader: &mut ByteCursor, entries: &Vec<Entry>, name: &str) -> (chunk: Result<
        Vec<u8>,
        WdbError,
    >)
        ensures
            final(reader).bytes() == old(reader).bytes(),
            match spec_chunk_bytes(
                old(reader).bytes(),
                old(reader).pos(),
                entry_views(entries@),
                name@,
            ) {
                Ok((bytes, next)) => {
                    &&& chunk is Ok
                    &&& chunk->Ok_0@ == bytes
                    &&& final(reader).pos() == next
                },
                Err(e) => {
                    &&& chunk == Err::<Vec<u8>, WdbError>(e)
                    &&& final(reader).pos() == old(reader).pos()
                },
            },
    {
        let index = find_chunk(entries, name)?;
        proof {
            lemma_chunk_at(entry_views(entries@), name@, index as int);
        }
        let length = entries[index].length;
        if length < 0 {
            return Err(WdbError::Format);
        }
        Self::load_part(reader, length as usize)
    }

    /// Reads the type list: as many bytes at the cursor as its entry says.
    pub fn load_typelist(reader: &mut ByteCursor, entries: &Vec<Entry>) -> (typelist: Result<
        Vec<u8>,
        WdbError,
    >)
        ensures
            final(reader).bytes() == old(reader).bytes(),
            match spec_chunk_bytes(
                old(reader).bytes(),
                old(reader).pos(),
                entry_views(entries@),
                typelist_name(),
            ) {
                Ok((bytes, next)) => {
                    &&& typelist is Ok
                    &&& typelist->Ok_0@ == bytes
                    &&& final(reader).pos() == next
                },
                Err(e) => {
                    &&& typelist == Err::<Vec<u8>, WdbError>(e)
                    &&& final(reader).pos() == old(reader).pos()
                },
            },
    {
        Self::load_chunk(reader, entries, "!!typelist\0")
    }

    /// Reads the string type list: as many bytes at the cursor as its entry
    /// says.
    pub fn load_stringtypelist(reader: &mut ByteCursor, entries: &Vec<Entry>) -> (typelist:
        Result<Vec<u8>, WdbError>)
        ensures
            final(reader).bytes() == old(reader).bytes(),
            match spec_chunk_bytes(
                old(reader).bytes(),
                old(reader).pos(),
                entry_views(entries@),
                strtypelist_name(),
            ) {
                Ok((bytes, next)) => {
                    &&& typelist is Ok
                    &&& typelist->Ok_0@ == bytes
                    &&& final(reader).pos() == next
                },
                Err(e) => {
                    &&& typelist == Err::<Vec<u8>, WdbError>(e)
                    &&& final(reader).pos() == old(reader).pos()
                },
            },
    {
        Self::load_chunk(reader, entries, "!!strtypelist\0")
    }

    /// Reads the string table. The cursor must stand at the offset that the
    /// table's entry gives; texts are then read one after another until the
    /// entry's length is used up. On failure the cursor stays where it was.
    pub fn load_stringlist(reader: &mut ByteCursor, entries: &Vec<Entry>) -> (texts: Result<
        Vec<String>,
        WdbError,
    >)
        ensures
            final(reader).bytes() == old(reader).bytes(),
            match spec_stringlist(old(reader).bytes(), old(reader).pos(), entry_views(entries@)) {
                Ok((views, next)) => {
                    &&& texts is Ok
                    &&& string_views(texts->Ok_0@) == views
                    &&& final(reader).pos() == next
                },
                Err(e) => {
                    &&& texts == Err::<Vec<String>, WdbError>(e)
                    &&& final(reader).pos() == old(reader).pos()
                },
            },
    {
        let index = find_chunk(entries, "!!string\0")?;
        proof {
            lemma_chunk_at(entry_views(entries@), string_name(), index as int);
        }
        let origin = reader.position();
        let offset = entries[index].offset;
        if offset < 0 || origin != offset as usize {
            return Err(WdbError::PositionMismatch);
        }
        let end: i64 = offset as i64 + entries[index].length as i64;
        let ghost whole = spec_strings(reader.bytes(), origin as int, end as int);
        let mut texts: Vec<String> = Vec::new();
        while end > 0 && (reader.position() as u64) < end as u64
            invariant
                reader.bytes() == old(reader).bytes(),
                origin == old(reader).pos(),
                origin <= reader.bytes().len(),
                whole == spec_stringlist(
                    old(reader).bytes(),
                    old(reader).pos(),
                    entry_views(entries@),
                ),
                match spec_strings(reader.bytes(), reader.pos(), end as int) {
                    Ok((rest, last)) => whole matches Ok((all, stop)) && all == string_views(
                        texts@,
                    ) + rest && stop == last,
                    Err(e) => whole == Err::<(Seq<Seq<char>>, int), WdbError>(e),
                },
            decreases reader.bytes().len() - reader.pos(),
        {
            let ghost before = reader.pos();
            proof {
                lemma_terminator(reader.bytes(), before);
            }
            match Self::load_string_eof(reader) {
                Ok(text) => {
                    proof {
                        let rest = spec_strings(reader.bytes(), reader.pos(), end as int);
                        if rest is Ok {
                            assert(string_views(texts@.push(text)) + rest->Ok_0.0 =~= string_views(
                                texts@,
                            ) + (seq![text@] + rest->Ok_0.0));
                        }
                    }
                    texts.push(text);
                },
                Err(e) => {
                    reader.jump(origin);
                    return Err(e);
                },
            }
        }
        proof {
            assert(string_views(texts@) + Seq::<Seq<char>>::empty() =~= string_views(texts@));
        }
        Ok(texts)
    }
}

/// All decoded nodes of one file, in directory order.
#[derive(Debug)]
pub struct Crystarium {
    pub nodes: Vec<Node>,
}

/// The values of a list of nodes, in order.
pub open spec fn node_views(nodes: Seq<Node>) -> Seq<NodeView> {
    Seq::new(nodes.len(), |i: int| nodes[i]@)
}

impl View for Crystarium {
    type V = Seq<NodeView>;

    open spec fn view(&self) -> Seq<NodeView> {
        node_views(self.nodes@)
    }
}

impl Clone for Crystarium {
    fn clone(&self) -> (copy: Crystarium)
        ensures
            copy@ == self@,
    {
        let nodes = self.nodes.clone();
        assert(node_views(nodes@) =~= node_views(self.nodes@));
        Crystarium { nodes }
    }
}

impl Default for Crystarium {
    fn default() -> (empty: Crystarium)
        ensures
            empty.nodes@ == Seq::<Node>::empty(),
    {
        Crystarium { nodes: Vec::new() }
    }
}

/// The test that tells the entries that stand for nodes from the rest.
pub open spec fn is_node_entry() -> spec_fn(EntryView) -> bool {
    |e: EntryView| !is_reserved(e.name)
}

/// The character that a tree belongs to: that of its first node, and `None`
/// for a tree without nodes.
pub open spec fn tree_character(nodes: Seq<NodeView>) -> Seq<char> {
    if nodes.len() > 0 {
        nodes[0].char_name
    } else {
        "None"@
    }
}

/// The entries that stand for nodes: those whose name is not reserved.
pub open spec fn node_entries(entries: Seq<EntryView>) -> Seq<EntryView> {
    entries.filter(is_node_entry())
}

/// Where the node records begin for a cursor at `pos`: at the offset of the
/// first node entry if the cursor is before it, else at the cursor.
pub open spec fn nodes_start(pos: int, entries: Seq<EntryView>) -> int {
    let nodes = node_entries(entries);
    if nodes.len() > 0 && pos < nodes[0].offset {
        nodes[0].offset
    } else {
        pos
    }
}

/// What decoding the node records yields for a cursor at `pos`: one node for
/// each node entry, in directory order, from records that follow one another
/// without gaps, and the position after the last record; `Decode` when the
/// data ends before the last record does.
pub open spec fn spec_nodes(bytes: Seq<u8>, pos: int, entries: Seq<EntryView>) -> Result<
    (Seq<NodeView>, int),
    WdbError,
> {
    let nodes = node_entries(entries);
    let start = nodes_start(pos, entries);
    if start + NODE_RECORD_SIZE * nodes.len() <= bytes.len() {
        Ok(
            (
                Seq::new(
                    nodes.len(),
                    |i: int| spec_node(bytes, start + NODE_RECORD_SIZE * i, nodes[i].name),
                ),
                start + NODE_RECORD_SIZE * nodes.len(),
            ),
        )
    } else {
        Err(WdbError::Decode)
    }
}

/// Tells whether a name marks a chunk of metadata.
pub fn name_is_reserved(name: &str) -> (reserved: bool)
    ensures
        reserved == is_reserved(name@),
{
    !name.is_empty() && name.get_char(0) == '!'
}

impl ReadUtilities for Crystarium {}

impl Crystarium {
    /// The character that the tree belongs to.
    pub fn character(&self) -> (character: String)
        ensures
            character@ == tree_character(self@),
    {
        if self.nodes.len() > 0 {
            self.nodes[0].char_name.clone()
        } else {
            "None".to_owned()
        }
    }

    /// Decodes the record at the cursor for the entry `name`.
    fn read_node(reader: &mut ByteCursor, name: &String) -> (node: Node)
        requires
            old(reader).pos() + NODE_RECORD_SIZE <= old(reader).bytes().len(),
        ensures
            final(reader).bytes() == old(reader).bytes(),
            final(reader).pos() == old(reader).pos() + NODE_RECORD_SIZE,
            node@ == spec_node(old(reader).bytes(), old(reader).pos(), name@),
    {
        let pos = reader.position();
        let data = reader.data();
        assert(pos + NODE_RECORD_SIZE <= data.len());
        let cp_cost = read_i32_be(slice_subrange(data, pos, pos + 4));
        let ability_ref = read_i32_be(slice_subrange(data, pos + 4, pos + 8));
        let node_value = read_i16_be(slice_subrange(data, pos + 8, pos + 10));
        let node_type = NodeType::from_byte(data[pos + 10]);
        let (stage, role) = split_stage_role(data[pos + 11]);
        let node = Node::new(
            character_name(name.as_str()),
            name.clone(),
            cp_cost,
            ability_ref,
            node_value,
            node_type,
            stage,
            role,
        );
        reader.jump(pos + NODE_RECORD_SIZE);
        node
    }

    /// Decodes one node for each node entry of the directory, in directory
    /// order. The cursor first moves forward to the first node entry's offset
    /// if it is before it. On failure the cursor stays where it was.
    pub fn create(reader: &mut ByteCursor, fstruct: &FileStructure) -> (decoded: Result<
        Crystarium,
        WdbError,
    >)
        ensures
            final(reader).bytes() == old(reader).bytes(),
            match spec_nodes(old(reader).bytes(), old(reader).pos(), fstruct@.entries) {
                Ok((nodes, next)) => {
                    &&& decoded is Ok
                    &&& decoded->Ok_0@ == nodes
                    &&& final(reader).pos() == next
                },
                Err(e) => {
                    &&& decoded == Err::<Crystarium, WdbError>(e)
                    &&& final(reader).pos() == old(reader).pos()
                },
            },
    {
        let origin = reader.position();
        let len = reader.data().len();
        let entries = fstruct.entries();
        let ghost views = entry_views(entries@);
        let ghost keep = is_node_entry();

        let mut count: usize = 0;
        let mut first: Option<i32> = None;
        let mut i: usize = 0;
        while i < entries.len()
            invariant
                i <= entries.len(),
                views == entry_views(entries@),
                keep == is_node_entry(),
                count == views.take(i as int).filter(keep).len(),
                count <= i,
                first is None <==> count == 0,
                first matches Some(offset) ==> views.take(i as int).filter(keep)[0].offset
                    == offset,
            decreases entries.len() - i,
        {
            proof {
                assert(views.take(i + 1) =~= views.take(i as int).push(views[i as int]));
                views.take(i as int).lemma_filter_push(views[i as int], keep);
            }
            if !name_is_reserved(entries[i].name.as_str()) {
                if first.is_none() {
                    first = Some(entries[i].offset);
                }
                count += 1;
            }
            i += 1;
        }
        assert(views.take(i as int) =~= views);

        let start: usize = match first {
            Some(offset) if offset >= 0 && origin < offset as usize => offset as usize,
            _ => origin,
        };
        if start > len || count > (len - start) / NODE_RECORD_SIZE {
            return Err(WdbError::Decode);
        }
        reader.jump(start);

        let mut crystarium = Crystarium::default();
        let mut i: usize = 0;
        while i < entries.len()
            invariant
                i <= entries.len(),
                views == entry_views(entries@),
                keep == is_node_entry(),
                reader.bytes() == old(reader).bytes(),
                start + NODE_RECORD_SIZE * count <= reader.bytes().len(),
                count == views.filter(keep).len(),
                crystarium.nodes@.len() == views.take(i as int).filter(keep).len(),
                crystarium.nodes@.len() <= count,
                reader.pos() == start + NODE_RECORD_SIZE * crystarium.nodes@.len(),
                forall|j: int|
                    0 <= j < crystarium.nodes@.len() ==> (#[trigger] crystarium.nodes@[j])@
                        == spec_node(
                        reader.bytes(),
                        start + NODE_RECORD_SIZE * j,
                        views.take(i as int).filter(keep)[j].name,
                    ),
            decreases entries.len() - i,
        {
            proof {
                assert(views.take(i + 1) =~= views.take(i as int).push(views[i as int]));
                views.take(i as int).lemma_filter_push(views[i as int], keep);
                views.lemma_filter_take_len(keep, i + 1);
            }
            if !name_is_reserved(entries[i].name.as_str()) {
                let node = Self::read_node(reader, &entries[i].name);
                crystarium.nodes.push(node);
            }
            i += 1;
        }
        proof {
            assert(views.take(i as int) =~= views);
            assert(crystarium@ =~= spec_nodes(
                old(reader).bytes(),
                old(reader).pos(),
                fstruct@.entries,
            )->Ok_0.0);
        }
        Ok(crystarium)
    }
}

/// What decoding a whole file yields: the structure is read from the start,
/// then the nodes from where the structure ended.
pub open spec fn spec_crystarium(bytes: Seq<u8>) -> Result<Seq<NodeView>, WdbError> {
    match spec_structure(bytes, 0) {
        Err(e) => Err(e),
        Ok((structure, next)) => match spec_nodes(bytes, next, structure.entries) {
            Err(e) => Err(e),
            Ok((nodes, _)) => Ok(nodes),
        },
    }
}

/// Decodes a whole file held in memory: either every node or an error, never
/// a part of the nodes.
pub fn read_crystal_wdb(data: Vec<u8>) -> (decoded: Result<Crystarium, WdbError>)
    ensures
        match spec_crystarium(data@) {
            Ok(nodes) => decoded is Ok && decoded->Ok_0@ == nodes,
            Err(e) => decoded == Err::<Crystarium, WdbError>(e),
        },
{
    let mut cursor = ByteCursor::new(data);
    let structure = FileStructure::load(&mut cursor)?;
    Crystarium::create(&mut cursor, &structure)
}

} // verus!

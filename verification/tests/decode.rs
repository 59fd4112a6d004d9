use crystarium::crystal::{
    character_name, find_chunk, name_is_reserved, read_crystal_wdb, split_stage_role, Crystarium,
    Entry, FileStructure, Node, NodeType, ReadUtilities,
};
use crystarium::cursor::ByteCursor;
use crystarium::crystal_page::CrystalPage;
use crystarium::error::WdbError;
use crystarium::view::{ConvertVecNode, CrystalData};

fn reserved_entry(name: &str, offset: i32, length: i32) -> Vec<u8> {
    let mut bytes = name.as_bytes().to_vec();
    bytes.push(0);
    while bytes.len() < 16 {
        bytes.push(0);
    }
    bytes.extend_from_slice(&offset.to_be_bytes());
    bytes.extend_from_slice(&length.to_be_bytes());
    bytes.extend_from_slice(&[0xEE; 8]);
    bytes
}

fn node_entry(name: &str, offset: i32, length: i32) -> Vec<u8> {
    let mut bytes = name.as_bytes().to_vec();
    bytes.push(0);
    bytes.extend_from_slice(&offset.to_be_bytes());
    bytes.extend_from_slice(&length.to_be_bytes());
    bytes.extend_from_slice(&[0xEE; 8]);
    bytes
}

fn record(cost: i32, ability: i32, value: i16, kind: u8, stage_role: u8) -> Vec<u8> {
    let mut bytes = Vec::new();
    bytes.extend_from_slice(&cost.to_be_bytes());
    bytes.extend_from_slice(&ability.to_be_bytes());
    bytes.extend_from_slice(&value.to_be_bytes());
    bytes.push(kind);
    bytes.push(stage_role);
    bytes
}

/// A whole file: the four reserved entries, then one entry and one record
/// for each of `nodes`.
fn file(nodes: &[(&str, Vec<u8>)], string_offset_shift: i32) -> Vec<u8> {
    let strings = b"alpha\0beta\0".to_vec();
    let strtypes = vec![1u8, 2, 3];
    let types = vec![9u8, 8];
    let directory_size: usize =
        4 * 32 + nodes.iter().map(|(name, _)| name.len() + 1 + 16).sum::<usize>();
    let at_strings = 4 + 4 + 8 + directory_size;
    let at_nodes = at_strings + strings.len() + strtypes.len() + types.len() + 4;

    let mut bytes = b"WPD\0".to_vec();
    bytes.extend_from_slice(&((4 + nodes.len()) as i32).to_be_bytes());
    bytes.extend_from_slice(&[0xAA; 8]);
    bytes.extend(reserved_entry(
        "!!string",
        at_strings as i32 + string_offset_shift,
        strings.len() as i32,
    ));
    bytes.extend(reserved_entry("!!strtypelist", 0, strtypes.len() as i32));
    bytes.extend(reserved_entry("!!typelist", 0, types.len() as i32));
    bytes.extend(reserved_entry("!!version", 0, 4));
    for (i, (name, _)) in nodes.iter().enumerate() {
        bytes.extend(node_entry(name, (at_nodes + 12 * i) as i32, 12));
    }
    assert_eq!(bytes.len(), at_strings);
    bytes.extend(strings);
    bytes.extend(strtypes);
    bytes.extend(types);
    bytes.extend_from_slice(&7i32.to_be_bytes());
    for (_, data) in nodes {
        bytes.extend(data.iter());
    }
    bytes
}

#[test]
fn packed_byte_splits_into_stage_and_role() {
    assert_eq!(split_stage_role(0x5B), (5, 11));
    assert_eq!(split_stage_role(0), (0, 0));
    assert_eq!(split_stage_role(255), (15, 15));
    for byte in 0..=255u8 {
        assert_eq!(split_stage_role(byte), (byte / 16, byte % 16));
    }
}

#[test]
fn type_byte_maps_to_category() {
    assert_eq!(NodeType::from_byte(1), NodeType::HP);
    assert_eq!(NodeType::from_byte(2), NodeType::STR);
    assert_eq!(NodeType::from_byte(3), NodeType::MAG);
    assert_eq!(NodeType::from_byte(4), NodeType::ACCESSORY);
    assert_eq!(NodeType::from_byte(5), NodeType::ATB);
    assert_eq!(NodeType::from_byte(6), NodeType::ABILITY);
    assert_eq!(NodeType::from_byte(7), NodeType::ROLE);
    assert_eq!(NodeType::from_byte(0), NodeType::INVALID);
    for byte in 8..=255u8 {
        assert_eq!(NodeType::from_byte(byte), NodeType::INVALID);
    }
}

#[test]
fn category_has_label_and_icon() {
    assert_eq!(NodeType::HP.to_string(), "HP");
    assert_eq!(NodeType::ACCESSORY.to_string(), "ACCESSORY");
    assert_eq!(NodeType::INVALID.to_string(), "INVALID");
    assert_eq!(NodeType::HP.to_imagesrc(), "Green Orb");
    assert_eq!(NodeType::STR.to_imagesrc(), "Red Orb");
    assert_eq!(NodeType::MAG.to_imagesrc(), "Purple Orb");
    assert_eq!(NodeType::ACCESSORY.to_imagesrc(), "Orange Orb");
    assert_eq!(NodeType::ATB.to_imagesrc(), "White Crystal");
    assert_eq!(NodeType::ABILITY.to_imagesrc(), "Yellow Orb");
    assert_eq!(NodeType::ROLE.to_imagesrc(), "White Crystal");
    assert_eq!(NodeType::INVALID.to_imagesrc(), "");
}

#[test]
fn character_comes_from_name_prefix() {
    assert_eq!(character_name("cr_lt00020105\0"), "Lightning");
    assert_eq!(character_name("cr_fa"), "Fang");
    assert_eq!(character_name("cr_hp1"), "Hope");
    assert_eq!(character_name("cr_sz1"), "Sazh");
    assert_eq!(character_name("cr_sn1"), "Snow");
    assert_eq!(character_name("cr_va1"), "Vanille");
    assert_eq!(character_name("cr_xx00020105\0"), "None");
    assert_eq!(character_name("cr_l"), "None");
    assert_eq!(character_name(""), "None");
}

#[test]
fn reserved_names_start_with_bang() {
    assert!(name_is_reserved("!!version\0"));
    assert!(name_is_reserved("!"));
    assert!(!name_is_reserved("cr_lt00020105\0"));
    assert!(!name_is_reserved(""));
}

#[test]
fn fixed_size_read_advances_or_fails() {
    let mut cursor = ByteCursor::new(vec![1, 2, 3, 4, 5]);
    assert_eq!(Entry::load_part(&mut cursor, 2), Ok(vec![1, 2]));
    assert_eq!(cursor.position(), 2);
    assert_eq!(Entry::load_part(&mut cursor, 4), Err(WdbError::Format));
    assert_eq!(cursor.position(), 2);
    assert_eq!(Entry::load_part(&mut cursor, 3), Ok(vec![3, 4, 5]));
    assert_eq!(Entry::load_part(&mut cursor, 0), Ok(vec![]));
    assert_eq!(cursor.position(), 5);
}

#[test]
fn text_reads_keep_the_terminator() {
    let mut cursor = ByteCursor::new(b"ab\0cd\0ef".to_vec());
    assert_eq!(Entry::load_string_eof(&mut cursor), Ok("ab\0".to_string()));
    assert_eq!(Entry::load_string(&mut cursor, 2), Ok("cd".to_string()));
    assert_eq!(Entry::load_string_eof(&mut cursor), Ok("\0".to_string()));
    assert_eq!(Entry::load_string_eof(&mut cursor), Err(WdbError::Format));
    assert_eq!(cursor.position(), 6);
    assert_eq!(Entry::load_string(&mut cursor, 3), Err(WdbError::Format));
}

#[test]
fn text_reads_reject_bad_utf8() {
    let mut cursor = ByteCursor::new(vec![0xFF, 0xFE, 0, 0]);
    assert_eq!(Entry::load_string_eof(&mut cursor), Err(WdbError::Format));
    assert_eq!(Entry::load_string(&mut cursor, 2), Err(WdbError::Format));
    assert_eq!(cursor.position(), 0);
}

#[test]
fn directory_round_trip() {
    let mut bytes = vec![0xAA; 8];
    bytes.extend(reserved_entry("!!version", 100, 4));
    bytes.extend(node_entry("cr_lt00020105", 0x01020304, -2));
    bytes.extend(reserved_entry("!23456789012345", i32::MIN, i32::MAX));
    bytes.extend(node_entry("cr_faat01010000", 7, 12));
    bytes.extend(node_entry("x", 1, 2));
    let total = bytes.len();
    assert_eq!(total, 8 + 32 + 30 + 32 + 32 + 18);
    bytes.extend_from_slice(&[0x55; 5]);

    let mut cursor = ByteCursor::new(bytes);
    let entries = Entry::load_entries(&mut cursor, 5).unwrap();
    assert_eq!(cursor.position(), total);
    let found: Vec<(&str, i32, i32)> =
        entries.iter().map(|e| (e.name.as_str(), e.offset, e.length)).collect();
    assert_eq!(
        found,
        vec![
            ("!!version\0", 100, 4),
            ("cr_lt00020105\0", 0x01020304, -2),
            ("!23456789012345\0", i32::MIN, i32::MAX),
            ("cr_faat01010000\0", 7, 12),
            ("x\0", 1, 2),
        ]
    );
}

#[test]
fn directory_with_no_count_is_empty() {
    let mut cursor = ByteCursor::new(vec![0; 8]);
    assert_eq!(Entry::load_entries(&mut cursor, 0).unwrap().len(), 0);
    assert_eq!(cursor.position(), 8);
    let mut cursor = ByteCursor::new(vec![0; 8]);
    assert_eq!(Entry::load_entries(&mut cursor, -3).unwrap().len(), 0);
}

#[test]
fn directory_that_ends_early_fails() {
    let mut bytes = vec![0xAA; 8];
    bytes.extend(reserved_entry("!!version", 100, 4));
    bytes.pop();
    let mut cursor = ByteCursor::new(bytes.clone());
    assert!(matches!(Entry::load_entries(&mut cursor, 1), Err(WdbError::Format)));
    assert_eq!(cursor.position(), 0);
    let mut cursor = ByteCursor::new(vec![0; 7]);
    assert!(matches!(Entry::load_entries(&mut cursor, 0), Err(WdbError::Format)));
}

#[test]
fn reserved_name_longer_than_its_field_fails() {
    let mut bytes = vec![0xAA; 8];
    bytes.extend(node_entry("!234567890123456", 1, 2));
    bytes.extend_from_slice(&[0; 16]);
    let mut cursor = ByteCursor::new(bytes);
    assert!(matches!(Entry::load_entries(&mut cursor, 1), Err(WdbError::Format)));
}

#[test]
fn new_entry_is_empty() {
    let entry = Entry::new();
    assert_eq!(entry.name, "");
    assert_eq!(entry.offset, 0);
    assert_eq!(entry.length, 0);
}

#[test]
fn chunk_must_occur_exactly_once() {
    let entry = |name: &str| Entry { name: name.to_string(), offset: 0, length: 0 };
    let entries = vec![entry("!!version\0"), entry("a\0"), entry("!!string\0"), entry("a\0")];
    assert_eq!(find_chunk(&entries, "!!string\0"), Ok(2));
    assert_eq!(find_chunk(&entries, "!!version\0"), Ok(0));
    assert_eq!(find_chunk(&entries, "!!typelist\0"), Err(WdbError::MissingChunk));
    assert_eq!(find_chunk(&entries, "a\0"), Err(WdbError::MissingChunk));
    assert_eq!(find_chunk(&Vec::new(), "a\0"), Err(WdbError::MissingChunk));
}

#[test]
fn whole_structure_is_read_in_order() {
    let bytes = file(&[("cr_lt00020105", record(1, 2, 3, 4, 5))], 0);
    let mut cursor = ByteCursor::new(bytes);
    let structure = FileStructure::load(&mut cursor).unwrap();
    assert_eq!(structure.magic(), "WPD\0");
    assert_eq!(structure.count(), 5);
    assert_eq!(structure.entries().len(), 5);
    assert_eq!(structure.stringlist(), &vec!["alpha\0".to_string(), "beta\0".to_string()]);
    assert_eq!(structure.stringtypelist(), &vec![1u8, 2, 3]);
    assert_eq!(structure.typelist(), &vec![9u8, 8]);
    assert_eq!(structure.version(), 7);
}

#[test]
fn string_table_at_wrong_offset_is_a_position_mismatch() {
    let bytes = file(&[("cr_lt00020105", record(1, 2, 3, 4, 5))], 1);
    assert!(matches!(read_crystal_wdb(bytes), Err(WdbError::PositionMismatch)));
    let bytes = file(&[], -1);
    let mut cursor = ByteCursor::new(bytes);
    assert!(matches!(FileStructure::load(&mut cursor), Err(WdbError::PositionMismatch)));
    assert_eq!(cursor.position(), 0);
}

#[test]
fn missing_reserved_entry_is_a_missing_chunk() {
    let mut bytes = b"WPD\0".to_vec();
    bytes.extend_from_slice(&0i32.to_be_bytes());
    bytes.extend_from_slice(&[0; 8]);
    assert!(matches!(read_crystal_wdb(bytes), Err(WdbError::MissingChunk)));

    let mut bytes = b"WPD\0".to_vec();
    bytes.extend_from_slice(&3i32.to_be_bytes());
    bytes.extend_from_slice(&[0; 8]);
    bytes.extend(reserved_entry("!!string", 112, 0));
    bytes.extend(reserved_entry("!!strtypelist", 0, 0));
    bytes.extend(reserved_entry("!!typelist", 0, 0));
    bytes.extend_from_slice(&[0; 4]);
    assert!(matches!(read_crystal_wdb(bytes), Err(WdbError::MissingChunk)));
}

#[test]
fn repeated_reserved_entry_is_a_missing_chunk() {
    let mut bytes = b"WPD\0".to_vec();
    bytes.extend_from_slice(&5i32.to_be_bytes());
    bytes.extend_from_slice(&[0; 8]);
    bytes.extend(reserved_entry("!!string", 176, 0));
    bytes.extend(reserved_entry("!!strtypelist", 0, 0));
    bytes.extend(reserved_entry("!!typelist", 0, 0));
    bytes.extend(reserved_entry("!!version", 0, 4));
    bytes.extend(reserved_entry("!!version", 0, 4));
    bytes.extend_from_slice(&[0; 4]);
    assert!(matches!(read_crystal_wdb(bytes), Err(WdbError::MissingChunk)));
}

#[test]
fn short_header_is_a_format_error() {
    assert!(matches!(read_crystal_wdb(Vec::new()), Err(WdbError::Format)));
    assert!(matches!(read_crystal_wdb(b"WPD\0\0\0".to_vec()), Err(WdbError::Format)));
}

#[test]
fn directory_of_reserved_entries_only_decodes_to_nothing() {
    let bytes = file(&[], 0);
    let crystarium = read_crystal_wdb(bytes.clone()).unwrap();
    assert!(crystarium.nodes.is_empty());

    let mut fragments = crystarium.nodes.convert();
    assert!(fragments.is_empty());
    assert!(CrystalPage::convert("None", &mut fragments).is_empty());

    let mut data = CrystalData::new();
    assert_eq!(data.upload(bytes), Ok(()));
    assert!(data.pages().is_empty());
}

#[test]
fn nodes_are_decoded_in_directory_order() {
    let bytes = file(
        &[
            ("cr_lt00020105", record(0x2EE0, 0x01D9, 0x00C3, 1, 0x5B)),
            ("cr_faat01010000", record(-1, i32::MIN, -2, 7, 0x10)),
            ("zz", record(0, 0, i16::MAX, 0, 0xFF)),
        ],
        0,
    );
    let crystarium = read_crystal_wdb(bytes).unwrap();
    assert_eq!(crystarium.nodes.len(), 3);
    let first = &crystarium.nodes[0];
    assert_eq!(first.char_name, "Lightning");
    assert_eq!(first.node_name, "cr_lt00020105\0");
    assert_eq!(first.cp_cost, 12000);
    assert_eq!(first.ability_ref, 473);
    assert_eq!(first.node_value, 195);
    assert_eq!(first.node_type, NodeType::HP);
    assert_eq!(first.stage, 5);
    assert_eq!(first.role, 11);
    let second = &crystarium.nodes[1];
    assert_eq!(second.char_name, "Fang");
    assert_eq!(second.cp_cost, -1);
    assert_eq!(second.ability_ref, i32::MIN);
    assert_eq!(second.node_value, -2);
    assert_eq!(second.node_type, NodeType::ROLE);
    assert_eq!((second.stage, second.role), (1, 0));
    let third = &crystarium.nodes[2];
    assert_eq!(third.char_name, "None");
    assert_eq!(third.node_name, "zz\0");
    assert_eq!(third.node_value, i16::MAX);
    assert_eq!(third.node_type, NodeType::INVALID);
    assert_eq!((third.stage, third.role), (15, 15));
}

#[test]
fn short_node_record_is_a_decode_error() {
    let mut bytes = file(&[("cr_lt00020105", record(1, 2, 3, 4, 5))], 0);
    bytes.pop();
    assert!(matches!(read_crystal_wdb(bytes), Err(WdbError::Decode)));
}

#[test]
fn cursor_moves_forward_to_the_first_node() {
    let mut bytes = file(&[("cr_hp00020105", record(1, 2, 3, 4, 0x21))], 0);
    let mut cursor = ByteCursor::new(bytes.clone());
    let structure = FileStructure::load(&mut cursor).unwrap();
    let end = cursor.position();
    assert!(cursor.seek(0));
    let crystarium = Crystarium::create(&mut cursor, &structure).unwrap();
    assert_eq!(cursor.position(), end + 12);
    assert_eq!(crystarium.nodes[0].char_name, "Hope");
    assert_eq!(crystarium.nodes[0].cp_cost, 1);

    // a cursor past the first node's offset reads where it stands
    bytes.extend(record(9, 9, 9, 2, 0x34));
    let mut cursor = ByteCursor::new(bytes);
    assert!(cursor.seek(end + 12));
    assert!(!cursor.seek(end + 25));
    assert_eq!(cursor.position(), end + 12);
    let crystarium = Crystarium::create(&mut cursor, &structure).unwrap();
    assert_eq!(crystarium.nodes[0].cp_cost, 9);
    assert_eq!(crystarium.nodes[0].node_type, NodeType::STR);
    assert_eq!((crystarium.nodes[0].stage, crystarium.nodes[0].role), (3, 4));
}

#[test]
fn node_is_built_from_its_fields() {
    let node = Node::new("Snow".to_string(), "cr_sn\0".to_string(), 1, 2, 3, NodeType::ATB, 4, 5);
    assert_eq!(node.char_name, "Snow");
    assert_eq!(node.node_name, "cr_sn\0");
    assert_eq!((node.cp_cost, node.ability_ref, node.node_value), (1, 2, 3));
    assert_eq!(node.node_type, NodeType::ATB);
    assert_eq!((node.stage, node.role), (4, 5));
    let copy = node.clone();
    assert_eq!(copy.node_name, node.node_name);
}

#[test]
fn error_says_what_went_wrong() {
    assert_eq!(WdbError::Format.to_string(), "the file is malformed or ends early");
    assert_eq!(
        WdbError::MissingChunk.to_string(),
        "a reserved directory entry is missing or repeated"
    );
    assert_eq!(
        WdbError::PositionMismatch.to_string(),
        "the string table is not where the directory says"
    );
    assert_eq!(WdbError::Decode.to_string(), "the file ends inside a node record");
}

#[test]
fn default_entry_and_node_are_empty() {
    let entry = Entry::default();
    assert_eq!((entry.name.as_str(), entry.offset, entry.length), ("", 0, 0));
    let node = Node::default();
    assert_eq!(node.char_name, "");
    assert_eq!(node.node_name, "");
    assert_eq!((node.cp_cost, node.ability_ref, node.node_value), (0, 0, 0));
    assert_eq!(node.node_type, NodeType::HP);
    assert_eq!(node.node_type, NodeType::default());
    assert_eq!((node.stage, node.role), (0, 0));
}

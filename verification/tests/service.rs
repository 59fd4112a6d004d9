use crystarium::crystal::{Crystarium, Node, NodeType};
use crystarium::crystal_page::CrystalPage;
use crystarium::error::WdbError;
use crystarium::view::{CrystalData, NodeFragment, NodeViewer};

fn node(character: &str, name: &str, stage: u8, role: u8) -> Node {
    Node::new(character.to_string(), name.to_string(), 1, 2, 3, NodeType::HP, stage, role)
}

fn fragment(name: &str, stage: i16, role: &str) -> NodeFragment {
    NodeFragment {
        name: name.to_string(),
        cost: 1,
        value: 2,
        role: role.to_string(),
        stage,
        kind: "HP".to_string(),
        image: "Green Orb".to_string(),
    }
}

fn names(pages: &[CrystalPage]) -> Vec<(i16, Vec<&str>)> {
    pages
        .iter()
        .map(|p| {
            (p.stage, p.roles.iter().flat_map(|r| &r.nodes).map(|n| n.name.as_str()).collect())
        })
        .collect()
}

fn reserved_entry(name: &str, offset: i32, length: i32) -> Vec<u8> {
    let mut bytes = name.as_bytes().to_vec();
    bytes.resize(16, 0);
    bytes.extend_from_slice(&offset.to_be_bytes());
    bytes.extend_from_slice(&length.to_be_bytes());
    bytes.extend_from_slice(&[0; 8]);
    bytes
}

/// A file with one node, `cr_sn01`, at stage 2 in role 3.
fn small_file() -> Vec<u8> {
    let mut bytes = b"WPD\0".to_vec();
    bytes.extend_from_slice(&5i32.to_be_bytes());
    bytes.extend_from_slice(&[0; 8]);
    let at_strings = 16 + 4 * 32 + 8 + 16;
    bytes.extend(reserved_entry("!!string", at_strings, 2));
    bytes.extend(reserved_entry("!!strtypelist", 0, 1));
    bytes.extend(reserved_entry("!!typelist", 0, 1));
    bytes.extend(reserved_entry("!!version", 0, 4));
    bytes.extend_from_slice(b"cr_sn01\0");
    bytes.extend_from_slice(&(at_strings + 8).to_be_bytes());
    bytes.extend_from_slice(&12i32.to_be_bytes());
    bytes.extend_from_slice(&[0; 8]);
    assert_eq!(bytes.len(), at_strings as usize);
    bytes.extend_from_slice(b"a\0");
    bytes.extend_from_slice(&[1, 1]);
    bytes.extend_from_slice(&1i32.to_be_bytes());
    bytes.extend_from_slice(&[0, 0, 0, 9, 0, 0, 0, 8, 0, 7, 2, 0x23]);
    bytes
}

#[test]
fn pages_follow_the_tree_that_is_held() {
    let mut data = CrystalData::new();
    assert!(data.pages().is_empty());

    data.replace(Crystarium { nodes: vec![node("Fang", "a", 2, 1), node("Fang", "b", 1, 1)] });
    let first = data.pages();
    assert_eq!(names(&first), vec![(1, vec!["b"]), (2, vec!["a"])]);
    assert_eq!(first[0].character, "Fang");
    assert_eq!(first[0].roles[0].name, "1");
    assert_eq!(names(&data.pages()), names(&first));

    data.replace(Crystarium { nodes: vec![node("Hope", "c", 7, 0)] });
    let second = data.pages();
    assert_eq!(names(&second), vec![(7, vec!["c"])]);
    assert_eq!(second[0].character, "Hope");
    assert_eq!(data.crystal_data().nodes.len(), 1);
}

#[test]
fn upload_replaces_or_clears_the_tree() {
    let mut data = CrystalData::default();
    data.replace(Crystarium { nodes: vec![node("Fang", "a", 2, 1)] });
    assert_eq!(names(&data.pages()), vec![(2, vec!["a"])]);

    assert_eq!(data.upload(small_file()), Ok(()));
    let pages = data.pages();
    assert_eq!(names(&pages), vec![(2, vec!["cr_sn01\0"])]);
    assert_eq!(pages[0].character, "Snow");
    assert_eq!(pages[0].roles[0].name, "3");
    assert_eq!(pages[0].roles[0].nodes[0].cost, 9);
    assert_eq!(pages[0].roles[0].nodes[0].value, 7);
    assert_eq!(pages[0].roles[0].nodes[0].kind, "STR");
    assert_eq!(pages[0].roles[0].nodes[0].image, "Red Orb");

    assert_eq!(data.upload(vec![1, 2, 3]), Err(WdbError::Format));
    assert!(data.crystal_data().nodes.is_empty());
    assert!(data.pages().is_empty());
}

#[test]
fn tree_character_is_that_of_its_first_node() {
    assert_eq!(Crystarium::default().character(), "None");
    let tree = Crystarium { nodes: vec![node("Sazh", "a", 1, 1), node("Fang", "b", 1, 1)] };
    assert_eq!(tree.character(), "Sazh");
    assert_eq!(tree.clone().nodes.len(), 2);
}

#[test]
fn viewer_shows_the_page_nearest_to_the_one_asked_for() {
    let mut nodes = vec![fragment("a", 1, "x"), fragment("b", 3, "x"), fragment("c", 4, "y")];
    let pages = CrystalPage::convert("Vanille", &mut nodes);

    let viewer = NodeViewer::select(&pages, 3).unwrap();
    assert_eq!(viewer.character, "Vanille");
    assert_eq!((viewer.prev_page, viewer.current_page, viewer.next_page), (2, 3, 4));
    assert_eq!(viewer.roles.len(), 1);
    assert_eq!(viewer.roles[0].nodes[0].name, "b");

    let viewer = NodeViewer::select(&pages, 1).unwrap();
    assert_eq!((viewer.prev_page, viewer.current_page, viewer.next_page), (1, 1, 2));
    let viewer = NodeViewer::select(&pages, 4).unwrap();
    assert_eq!((viewer.prev_page, viewer.current_page, viewer.next_page), (3, 4, 4));
    let viewer = NodeViewer::select(&pages, i16::MAX).unwrap();
    assert_eq!((viewer.prev_page, viewer.current_page, viewer.next_page), (4, 4, 4));
    let viewer = NodeViewer::select(&pages, i16::MIN).unwrap();
    assert_eq!((viewer.prev_page, viewer.current_page, viewer.next_page), (1, 1, 1));
    let viewer = NodeViewer::select(&pages, 0).unwrap();
    assert_eq!((viewer.prev_page, viewer.current_page, viewer.next_page), (1, 1, 1));

    assert!(NodeViewer::select(&pages, 2).is_none());
}

#[test]
fn viewer_has_nothing_to_show_without_a_stage_above_zero() {
    assert!(NodeViewer::select(&Vec::new(), 1).is_none());
    let mut nodes = vec![fragment("a", 0, "x"), fragment("b", -2, "x")];
    let pages = CrystalPage::convert("Vanille", &mut nodes);
    assert!(NodeViewer::select(&pages, 1).is_none());
    assert!(NodeViewer::select(&pages, 0).is_none());
    let empty = NodeViewer::default();
    assert_eq!((empty.prev_page, empty.current_page, empty.next_page), (0, 0, 0));
}

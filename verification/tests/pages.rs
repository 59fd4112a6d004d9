use crystarium::crystal::{Node, NodeType};
use crystarium::crystal_page::{select_stage, stages, CrystalPage};
use crystarium::text::{text_standing, Standing};
use crystarium::view::{
    role_label, role_labels, select_role, ConvertVecNode, ListRoleFragment, NodeFragment,
};

fn fragment(name: &str, kind: &str, stage: i16, role: &str) -> NodeFragment {
    NodeFragment {
        name: name.to_string(),
        cost: 5,
        kind: kind.to_string(),
        value: 10,
        stage,
        role: role.to_string(),
        image: "templates/assets/Blue Orb.png".to_string(),
    }
}

#[test]
fn test_convert() {
    let node_fragments = [
        fragment("cr_faat01010000", "STR", 1, "Commander"),
        fragment("cr_faat02010000", "MAG", 2, "Commander"),
        fragment("cr_faat02010000", "ATB", 3, "Commander"),
        fragment("cr_faat02010000", "ACCESSORY", 1, "Commander"),
        fragment("cr_faat03010000", "ATB", 1, "Commander"),
    ];

    let mut node_fragments: Vec<NodeFragment> = node_fragments.to_vec();
    let crystal_page = CrystalPage::convert("Lightning", &mut node_fragments);
    assert_eq!(node_fragments.len(), 5);
    assert_eq!(crystal_page.len(), 3);
    assert_eq!(crystal_page[0].stage, 1);
    assert_eq!(crystal_page[1].stage, 2);
    assert_eq!(crystal_page[2].stage, 3);
    assert_eq!(crystal_page[2].roles[0].name, "Commander");
    assert_eq!(crystal_page[0].character, "Lightning");
    assert_eq!(crystal_page[0].node_count, 0);
    assert_eq!(crystal_page[0].roles.len(), 1);
    let kinds: Vec<&str> = crystal_page[0].roles[0].nodes.iter().map(|n| n.kind.as_str()).collect();
    assert_eq!(kinds, vec!["STR", "ACCESSORY", "ATB"]);
}

#[test]
fn pages_are_ordered_by_stage_then_role_label() {
    let mut nodes = vec![
        fragment("a", "HP", 3, "b"),
        fragment("b", "HP", -1, "z"),
        fragment("c", "HP", 3, "a"),
        fragment("d", "HP", 3, "b"),
        fragment("e", "HP", -1, "10"),
        fragment("f", "HP", -1, "2"),
        fragment("g", "HP", 3, "ab"),
        fragment("h", "HP", -1, "z"),
    ];
    let pages = CrystalPage::convert("Fang", &mut nodes);
    let shape: Vec<(i16, Vec<(&str, Vec<&str>)>)> = pages
        .iter()
        .map(|p| {
            (
                p.stage,
                p.roles
                    .iter()
                    .map(|r| (r.name.as_str(), r.nodes.iter().map(|n| n.name.as_str()).collect()))
                    .collect(),
            )
        })
        .collect();
    assert_eq!(
        shape,
        vec![
            (-1, vec![("10", vec!["e"]), ("2", vec!["f"]), ("z", vec!["b", "h"])]),
            (3, vec![("a", vec!["c"]), ("ab", vec!["g"]), ("b", vec!["a", "d"])]),
        ]
    );
    let mut seen: Vec<&str> =
        pages.iter().flat_map(|p| &p.roles).flat_map(|r| &r.nodes).map(|n| n.name.as_str()).collect();
    seen.sort();
    assert_eq!(seen, vec!["a", "b", "c", "d", "e", "f", "g", "h"]);
}

#[test]
fn no_fragments_give_no_pages() {
    let mut nodes: Vec<NodeFragment> = Vec::new();
    assert!(CrystalPage::convert("Hope", &mut nodes).is_empty());
    assert!(ListRoleFragment::from(Vec::new()).0.is_empty());
}

#[test]
fn stages_and_labels_are_collected_once_in_order() {
    let nodes = vec![
        fragment("a", "HP", 3, "b"),
        fragment("b", "HP", -1, "z"),
        fragment("c", "HP", 3, "a"),
        fragment("d", "HP", 0, "b"),
    ];
    assert_eq!(stages(&nodes), vec![-1, 0, 3]);
    assert_eq!(role_labels(&nodes), vec!["a", "b", "z"]);
    let picked: Vec<String> = select_stage(&nodes, 3).into_iter().map(|n| n.name).collect();
    assert_eq!(picked, vec!["a", "c"]);
    let picked: Vec<String> = select_role(&nodes, "b").into_iter().map(|n| n.name).collect();
    assert_eq!(picked, vec!["a", "d"]);
    assert!(select_role(&nodes, "none").is_empty());
}

#[test]
fn roles_are_grouped_by_label() {
    let nodes = vec![
        fragment("a", "HP", 1, "b"),
        fragment("b", "HP", 2, "a"),
        fragment("c", "HP", 3, "b"),
    ];
    let list = ListRoleFragment::from(nodes);
    let shape: Vec<(&str, Vec<&str>)> = list
        .0
        .iter()
        .map(|r| (r.name.as_str(), r.nodes.iter().map(|n| n.name.as_str()).collect()))
        .collect();
    assert_eq!(shape, vec![("a", vec!["b"]), ("b", vec!["a", "c"])]);
}

#[test]
fn texts_are_ordered_character_by_character() {
    assert_eq!(text_standing("a", "b"), Standing::Before);
    assert_eq!(text_standing("b", "a"), Standing::After);
    assert_eq!(text_standing("ab", "ab"), Standing::Same);
    assert_eq!(text_standing("", ""), Standing::Same);
    assert_eq!(text_standing("", "a"), Standing::Before);
    assert_eq!(text_standing("ab", "a"), Standing::After);
    assert_eq!(text_standing("10", "2"), Standing::Before);
    assert_eq!(text_standing("é", "z"), Standing::After);
    assert_eq!("é" > "z", true);
}

#[test]
fn role_label_is_the_number_in_decimal() {
    assert_eq!(role_label(0), "0");
    assert_eq!(role_label(9), "9");
    assert_eq!(role_label(11), "11");
    assert_eq!(role_label(100), "100");
    assert_eq!(role_label(255), "255");
    for role in 0..=255u8 {
        assert_eq!(role_label(role), role.to_string());
    }
}

#[test]
fn node_becomes_fragment() {
    let node = Node::new(
        "Lightning".to_string(),
        "cr_lt00020105\0".to_string(),
        12000,
        473,
        195,
        NodeType::MAG,
        5,
        11,
    );
    let fragments = vec![node.clone(), node].convert();
    assert_eq!(fragments.len(), 2);
    let fragment = NodeFragment::from(Node::new(
        "Lightning".to_string(),
        "cr_lt00020105\0".to_string(),
        12000,
        473,
        195,
        NodeType::MAG,
        5,
        11,
    ));
    for f in [&fragments[0], &fragments[1], &fragment] {
        assert_eq!(f.name, "cr_lt00020105\0");
        assert_eq!(f.cost, 12000);
        assert_eq!(f.value, 195);
        assert_eq!(f.stage, 5);
        assert_eq!(f.role, "11");
        assert_eq!(f.kind, "MAG");
        assert_eq!(f.image, "Purple Orb");
    }
}

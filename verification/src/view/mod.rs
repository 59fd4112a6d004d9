use crate::crystal::{
    node_views, read_crystal_wdb, spec_crystarium, tree_character, Crystarium, Node, NodeView,
};
use crate::crystal_page::{
    clone_pages, has_stage, is_grouping, page_views, CrystalPage, CrystalPageView,
};
use crate::error::WdbError;
use crate::ordered::{ascends, lemma_ascending_keys_unique, strict_order};
use crate::partition::{lemma_partition, passes_one};
use crate::text::{
    lemma_text_lt_irreflexive, lemma_text_lt_transitive, lemma_texts_ascend_insert,
    string_views, text_lt, text_standing, texts_ascend, Standing,
};
use vstd::prelude::*;
use vstd::std_specs::convert::FromSpecImpl;
use vstd::string::*;

verus! {

/// One node as a page shows it.
#[derive(Debug)]
pub struct NodeFragment {
    pub name: String,
    pub cost: i32,
    pub value: i16,
    /// The label of the node's role.
    pub role: String,
    pub stage: i16,
    /// The name of the node's category.
    pub kind: String,
    /// The icon of the node's category.
    pub image: String,
}

/// The value of a `NodeFragment`.
pub struct NodeFragmentView {
    pub name: Seq<char>,
    pub cost: int,
    pub value: int,
    pub role: Seq<char>,
    pub stage: int,
    pub kind: Seq<char>,
    pub image: Seq<char>,
}

impl View for NodeFragment {
    type V = NodeFragmentView;

    open spec fn view(&self) -> NodeFragmentView {
        NodeFragmentView {
            name: self.name@,
            cost: self.cost as int,
            value: self.value as int,
            role: self.role@,
            stage: self.stage as int,
            kind: self.kind@,
            image: self.image@,
        }
    }
}

impl Clone for NodeFragment {
    fn clone(&self) -> (copy: NodeFragment)
        ensures
            copy == *self,
    {
        NodeFragment {
            name: self.name.clone(),
            cost: self.cost,
            value: self.value,
            role: self.role.clone(),
            stage: self.stage,
            kind: self.kind.clone(),
            image: self.image.clone(),
        }
    }
}

/// The values of a list of fragments, in order.
pub open spec fn fragment_views(fragments: Seq<NodeFragment>) -> Seq<NodeFragmentView> {
    Seq::new(fragments.len(), |i: int| fragments[i]@)
}

/// The character that stands for a digit.
pub open spec fn digit_char(digit: int) -> char {
    if digit == 0 {
        '0'
    } else if digit == 1 {
        '1'
    } else if digit == 2 {
        '2'
    } else if digit == 3 {
        '3'
    } else if digit == 4 {
        '4'
    } else if digit == 5 {
        '5'
    } else if digit == 6 {
        '6'
    } else if digit == 7 {
        '7'
    } else if digit == 8 {
        '8'
    } else {
        '9'
    }
}

/// A number written in decimal, without leading zeros.
pub open spec fn decimal(number: nat) -> Seq<char>
    decreases number,
{
    if number < 10 {
        seq![digit_char(number as int)]
    } else {
        decimal(number / 10).push(digit_char(number as int % 10))
    }
}

/// The label under which a role is shown: its number in decimal.
pub open spec fn role_label_of(role: int) -> Seq<char> {
    decimal(role as nat)
}

/// The text of one digit.
fn digit_text(digit: u8) -> (text: &'static str)
    requires
        digit < 10,
    ensures
        text@ == seq![digit_char(digit as int)],
{
    proof {
        reveal_strlit("0");
        reveal_strlit("1");
        reveal_strlit("2");
        reveal_strlit("3");
        reveal_strlit("4");
        reveal_strlit("5");
        reveal_strlit("6");
        reveal_strlit("7");
        reveal_strlit("8");
        reveal_strlit("9");
    }
    let text = match digit {
        0 => "0",
        1 => "1",
        2 => "2",
        3 => "3",
        4 => "4",
        5 => "5",
        6 => "6",
        7 => "7",
        8 => "8",
        _ => "9",
    };
    assert(text@ =~= seq![digit_char(digit as int)]);
    text
}

/// Writes the label of a role.
pub fn role_label(role: u8) -> (label: String)
    ensures
        label@ == role_label_of(role as int),
{
    let mut label = String::new();
    if role >= 100 {
        label.append(digit_text(role / 100));
    }
    if role >= 10 {
        label.append(digit_text(role / 10 % 10));
    }
    label.append(digit_text(role % 10));
    proof {
        reveal_with_fuel(decimal, 3);
        assert(label@ =~= decimal(role as nat));
    }
    label
}

/// The fragment that shows a node: the entry's name, cost and value as they
/// are, the stage widened, the role as its label, and the category as its
/// name and its icon.
pub open spec fn fragment_of(node: NodeView) -> NodeFragmentView {
    NodeFragmentView {
        name: node.node_name,
        cost: node.cp_cost,
        value: node.node_value,
        role: role_label_of(node.role),
        stage: node.stage,
        kind: node.node_type.label(),
        image: node.node_type.icon(),
    }
}

/// The fragments that show the nodes, in order.
pub open spec fn fragments_of(nodes: Seq<NodeView>) -> Seq<NodeFragmentView> {
    nodes.map_values(|node: NodeView| fragment_of(node))
}

/// What `from` returns is stated by its own `ensures`, over views: a
/// fragment holds texts that are written anew, and no spec function can
/// name those.
impl FromSpecImpl<Node> for NodeFragment {
    open spec fn obeys_from_spec() -> bool {
        false
    }

    open spec fn from_spec(node: Node) -> NodeFragment {
        arbitrary()
    }
}

impl From<Node> for NodeFragment {
    /// Makes the fragment that shows a node.
    fn from(value: Node) -> (fragment: NodeFragment)
        ensures
            fragment@ == fragment_of(value@),
    {
        NodeFragment {
            name: value.node_name,
            cost: value.cp_cost,
            value: value.node_value,
            stage: value.stage as i16,
            role: role_label(value.role),
            kind: value.node_type.to_string(),
            image: value.node_type.to_imagesrc().to_owned(),
        }
    }
}

/// Turns a list of nodes into the fragments that show them.
pub trait ConvertVecNode {
    /// The nodes of the list, in order.
    spec fn nodes(self) -> Seq<NodeView>;

    /// The fragments that show the nodes, in the order of the nodes.
    fn convert(self) -> (fragments: Vec<NodeFragment>)
        ensures
            fragment_views(fragments@) == fragments_of(self.nodes()),
    ;
}

impl ConvertVecNode for Vec<Node> {
    open spec fn nodes(self) -> Seq<NodeView> {
        node_views(self@)
    }

    fn convert(self) -> (fragments: Vec<NodeFragment>) {
        let mut fragments: Vec<NodeFragment> = Vec::new();
        let mut i: usize = 0;
        while i < self.len()
            invariant
                i <= self.len(),
                fragments@.len() == i,
                forall|j: int|
                    0 <= j < i ==> (#[trigger] fragments@[j])@ == fragment_of(self@[j]@),
            decreases self.len() - i,
        {
            fragments.push(NodeFragment::from(self[i].clone()));
            i += 1;
        }
        assert(fragment_views(fragments@) =~= fragments_of(node_views(self@)));
        fragments
    }
}

/// The nodes of one role, under the role's label.
#[derive(Debug)]
pub struct RoleFragment {
    pub name: String,
    pub nodes: Vec<NodeFragment>,
}

/// The value of a `RoleFragment`.
pub struct RoleFragmentView {
    pub name: Seq<char>,
    pub nodes: Seq<NodeFragmentView>,
}

impl View for RoleFragment {
    type V = RoleFragmentView;

    open spec fn view(&self) -> RoleFragmentView {
        RoleFragmentView { name: self.name@, nodes: fragment_views(self.nodes@) }
    }
}

impl Clone for RoleFragment {
    fn clone(&self) -> (copy: RoleFragment)
        ensures
            copy@ == self@,
    {
        let nodes = self.nodes.clone();
        assert(fragment_views(nodes@) =~= fragment_views(self.nodes@));
        RoleFragment { name: self.name.clone(), nodes }
    }
}

impl Default for RoleFragment {
    fn default() -> (empty: RoleFragment)
        ensures
            empty@ == (RoleFragmentView { name: Seq::empty(), nodes: Seq::empty() }),
    {
        let empty = RoleFragment { name: String::new(), nodes: Vec::new() };
        assert(fragment_views(empty.nodes@) =~= Seq::empty());
        empty
    }
}

/// The values of a list of roles, in order.
pub open spec fn role_views(roles: Seq<RoleFragment>) -> Seq<RoleFragmentView> {
    Seq::new(roles.len(), |i: int| roles[i]@)
}

/// The test that tells the fragments of one role from the rest.
pub open spec fn with_role(role: Seq<char>) -> spec_fn(NodeFragmentView) -> bool {
    |node: NodeFragmentView| node.role == role
}

/// `roles` groups `nodes` by role: the roles stand in ascending order of
/// their labels, without repetition; each holds the nodes of its label, all
/// of them and in the order of `nodes`; and the label of every node is there.
pub open spec fn is_role_grouping(
    nodes: Seq<NodeFragmentView>,
    roles: Seq<RoleFragmentView>,
) -> bool {
    &&& forall|i: int, j: int|
        0 <= i < j < roles.len() ==> text_lt(#[trigger] roles[i].name, #[trigger] roles[j].name)
    &&& forall|r: int|
        0 <= r < roles.len() ==> (#[trigger] roles[r]).nodes == nodes.filter(
            with_role(roles[r].name),
        ) && roles[r].nodes.len() > 0
    &&& forall|k: int|
        0 <= k < nodes.len() ==> has_label(roles, (#[trigger] nodes[k]).role)
}

/// One of `roles` has the label `label`.
pub open spec fn has_label(roles: Seq<RoleFragmentView>, label: Seq<char>) -> bool {
    exists|r: int| 0 <= r < roles.len() && (#[trigger] roles[r]).name == label
}

/// Picks the fragments of one role, in their order.
pub fn select_role(nodes: &Vec<NodeFragment>, role: &str) -> (picked: Vec<NodeFragment>)
    ensures
        fragment_views(picked@) == fragment_views(nodes@).filter(with_role(role@)),
{
    let ghost views = fragment_views(nodes@);
    let ghost keep = with_role(role@);
    let mut picked: Vec<NodeFragment> = Vec::new();
    let mut i: usize = 0;
    assert(views.take(0).filter(keep) =~= Seq::empty()) by {
        reveal(Seq::filter);
    }
    while i < nodes.len()
        invariant
            i <= nodes.len(),
            views == fragment_views(nodes@),
            keep == with_role(role@),
            fragment_views(picked@) == views.take(i as int).filter(keep),
        decreases nodes.len() - i,
    {
        proof {
            assert(views.take(i + 1) =~= views.take(i as int).push(views[i as int]));
            views.take(i as int).lemma_filter_push(views[i as int], keep);
        }
        if text_standing(nodes[i].role.as_str(), role) == Standing::Same {
            let node = nodes[i].clone();
            assert(fragment_views(picked@.push(node)) =~= fragment_views(picked@).push(node@));
            picked.push(node);
        }
        i += 1;
    }
    assert(views.take(i as int) =~= views);
    picked
}

/// The nodes of all `roles`, role after role.
pub open spec fn role_nodes(roles: Seq<RoleFragmentView>) -> Seq<NodeFragmentView> {
    roles.map_values(|role: RoleFragmentView| role.nodes).flatten()
}

/// A grouping by role holds every node exactly once: the nodes of its roles
/// are those that were grouped, each as often as it came.
pub proof fn lemma_role_grouping_keeps_nodes(
    nodes: Seq<NodeFragmentView>,
    roles: Seq<RoleFragmentView>,
)
    requires
        is_role_grouping(nodes, roles),
    ensures
        role_nodes(roles).to_multiset() == nodes.to_multiset(),
{
    let parts = roles.map_values(|role: RoleFragmentView| role.nodes);
    let picks = Seq::new(roles.len(), |r: int| with_role(roles[r].name));
    assert forall|i: int, j: int, x: NodeFragmentView|
        #![trigger picks[i](x), picks[j](x)]
        0 <= i < j < picks.len() implies !(picks[i](x) && picks[j](x)) by {
        assert(text_lt(roles[i].name, roles[j].name));
        lemma_text_lt_irreflexive(roles[i].name);
    }
    assert forall|k: int| 0 <= k < nodes.len() implies passes_one(
        picks,
        #[trigger] nodes[k],
    ) by {
        assert(has_label(roles, nodes[k].role));
        let r = choose|r: int| 0 <= r < roles.len() && (#[trigger] roles[r]).name == nodes[k].role;
        assert(picks[r](nodes[k]));
    }
    assert forall|i: int| 0 <= i < parts.len() implies (#[trigger] parts[i]).to_multiset()
        == nodes.filter(picks[i]).to_multiset() by {
        assert(parts[i] == roles[i].nodes);
    }
    lemma_partition(nodes, parts, picks);
}

/// The label of every role of a grouping is the role of one of the nodes.
proof fn lemma_role_has_node(nodes: Seq<NodeFragmentView>, roles: Seq<RoleFragmentView>, r: int)
    requires
        is_role_grouping(nodes, roles),
        0 <= r < roles.len(),
    ensures
        exists|k: int| 0 <= k < nodes.len() && (#[trigger] nodes[k]).role == roles[r].name,
{
    let keep = with_role(roles[r].name);
    let first = roles[r].nodes[0];
    nodes.lemma_filter_pred(keep, 0);
    assert(nodes.filter(keep).contains(first));
    nodes.lemma_filter_contains_rev(keep, first);
    let k = choose|k: int| 0 <= k < nodes.len() && nodes[k] == first;
    assert(nodes[k].role == roles[r].name);
}

/// Nodes can be grouped by role in one way only.
pub proof fn lemma_role_grouping_unique(
    nodes: Seq<NodeFragmentView>,
    a: Seq<RoleFragmentView>,
    b: Seq<RoleFragmentView>,
)
    requires
        is_role_grouping(nodes, a),
        is_role_grouping(nodes, b),
    ensures
        a == b,
{
    let lt = |x: Seq<char>, y: Seq<char>| text_lt(x, y);
    let names = a.map_values(|role: RoleFragmentView| role.name);
    let others = b.map_values(|role: RoleFragmentView| role.name);
    assert(strict_order(lt)) by {
        assert forall|x: Seq<char>| !#[trigger] lt(x, x) by {
            lemma_text_lt_irreflexive(x);
        }
        assert forall|x: Seq<char>, y: Seq<char>, z: Seq<char>| #[trigger]
            lt(x, y) && #[trigger] lt(y, z) implies lt(x, z) by {
            lemma_text_lt_transitive(x, y, z);
        }
    }
    assert(ascends(names, lt)) by {
        assert forall|i: int, j: int| 0 <= i < j < names.len() implies lt(
            #[trigger] names[i],
            #[trigger] names[j],
        ) by {
            assert(text_lt(a[i].name, a[j].name));
        }
    }
    assert(ascends(others, lt)) by {
        assert forall|i: int, j: int| 0 <= i < j < others.len() implies lt(
            #[trigger] others[i],
            #[trigger] others[j],
        ) by {
            assert(text_lt(b[i].name, b[j].name));
        }
    }
    assert forall|i: int| 0 <= i < names.len() implies others.contains(#[trigger] names[i]) by {
        lemma_role_has_node(nodes, a, i);
        let k = choose|k: int| 0 <= k < nodes.len() && (#[trigger] nodes[k]).role == a[i].name;
        assert(has_label(b, nodes[k].role));
        let r = choose|r: int| 0 <= r < b.len() && (#[trigger] b[r]).name == nodes[k].role;
        assert(others[r] == names[i]);
    }
    assert forall|j: int| 0 <= j < others.len() implies names.contains(#[trigger] others[j]) by {
        lemma_role_has_node(nodes, b, j);
        let k = choose|k: int| 0 <= k < nodes.len() && (#[trigger] nodes[k]).role == b[j].name;
        assert(has_label(a, nodes[k].role));
        let r = choose|r: int| 0 <= r < a.len() && (#[trigger] a[r]).name == nodes[k].role;
        assert(names[r] == others[j]);
    }
    lemma_ascending_keys_unique(names, others, lt);
    assert(a.len() == b.len());
    assert forall|r: int| 0 <= r < a.len() implies a[r] == b[r] by {
        assert(names[r] == others[r]);
        assert(a[r].name == b[r].name);
    }
    assert(a =~= b);
}

/// One of the first `n` of `nodes` has the role `role`.
pub open spec fn has_role(nodes: Seq<NodeFragmentView>, n: int, role: Seq<char>) -> bool {
    exists|k: int| 0 <= k < n && (#[trigger] nodes[k]).role == role
}

/// Collects the labels of the roles that occur in `nodes`, in ascending
/// order and each once.
pub fn role_labels(nodes: &Vec<NodeFragment>) -> (labels: Vec<String>)
    ensures
        texts_ascend(string_views(labels@)),
        forall|l: int|
            0 <= l < labels@.len() ==> has_role(
                fragment_views(nodes@),
                nodes@.len() as int,
                #[trigger] string_views(labels@)[l],
            ),
        forall|k: int|
            0 <= k < nodes@.len() ==> string_views(labels@).contains(
                (#[trigger] fragment_views(nodes@)[k]).role,
            ),
{
    let ghost views = fragment_views(nodes@);
    let mut labels: Vec<String> = Vec::new();
    let mut i: usize = 0;
    while i < nodes.len()
        invariant
            i <= nodes.len(),
            views == fragment_views(nodes@),
            texts_ascend(string_views(labels@)),
            forall|l: int|
                0 <= l < labels@.len() ==> has_role(
                    views,
                    i as int,
                    #[trigger] string_views(labels@)[l],
                ),
            forall|k: int|
                0 <= k < i ==> string_views(labels@).contains((#[trigger] views[k]).role),
        decreases nodes.len() - i,
    {
        let role = &nodes[i].role;
        let ghost known = string_views(labels@);
        let mut at: usize = 0;
        let mut found = false;
        while at < labels.len()
            invariant_except_break
                !found,
            invariant
                at <= labels.len(),
                known == string_views(labels@),
                forall|l: int| 0 <= l < at ==> text_lt(#[trigger] known[l], role@),
            ensures
                at <= labels.len(),
                forall|l: int| 0 <= l < at ==> text_lt(#[trigger] known[l], role@),
                found ==> at < labels.len() && known[at as int] == role@,
                !found && at < labels.len() ==> text_lt(role@, known[at as int]),
            decreases labels.len() - at,
        {
            match text_standing(labels[at].as_str(), role.as_str()) {
                Standing::Before => {
                    at += 1;
                },
                Standing::Same => {
                    found = true;
                    break ;
                },
                Standing::After => {
                    break ;
                },
            }
        }
        proof {
            assert(has_role(views, i + 1, role@)) by {
                assert(views[i as int].role == role@);
            }
            assert forall|l: int| 0 <= l < known.len() implies has_role(
                views,
                i + 1,
                #[trigger] known[l],
            ) by {
                assert(has_role(views, i as int, known[l]));
                let k = choose|k: int| 0 <= k < i && (#[trigger] views[k]).role == known[l];
                assert(views[k].role == known[l]);
            }
        }
        if !found {
            labels.insert(at, role.clone());
            proof {
                let longer = string_views(labels@);
                assert(longer =~= known.insert(at as int, role@));
                known.insert_ensures(at as int, role@);
                lemma_texts_ascend_insert(known, at as int, role@);
                assert forall|k: int| 0 <= k < i + 1 implies longer.contains(
                    (#[trigger] views[k]).role,
                ) by {
                    if k < i {
                        assert(known.contains(views[k].role));
                        let l = choose|l: int| 0 <= l < known.len() && known[l] == views[k].role;
                        if l < at {
                            assert(longer[l] == views[k].role);
                        } else {
                            assert(longer[l + 1] == views[k].role);
                        }
                    } else {
                        assert(longer[at as int] == views[k].role);
                    }
                }
                assert forall|l: int| 0 <= l < longer.len() implies has_role(
                    views,
                    i + 1,
                    #[trigger] longer[l],
                ) by {
                    if l < at {
                        assert(longer[l] == known[l]);
                    } else if l > at {
                        assert(longer[l] == known[l - 1]);
                    }
                }
            }
        } else {
            proof {
                assert(known[at as int] == views[i as int].role);
            }
        }
        i += 1;
    }
    labels
}

/// The roles of a list of fragments.
#[derive(Debug)]
pub struct ListRoleFragment(pub Vec<RoleFragment>);

impl Default for ListRoleFragment {
    fn default() -> (empty: ListRoleFragment)
        ensures
            empty.0@.len() == 0,
    {
        ListRoleFragment(Vec::new())
    }
}

/// What `from` returns is stated by its own `ensures`, over views.
impl FromSpecImpl<Vec<NodeFragment>> for ListRoleFragment {
    open spec fn obeys_from_spec() -> bool {
        false
    }

    open spec fn from_spec(nodes: Vec<NodeFragment>) -> ListRoleFragment {
        arbitrary()
    }
}

impl From<Vec<NodeFragment>> for ListRoleFragment {
    /// Groups the fragments by role.
    fn from(node_fragments: Vec<NodeFragment>) -> (list: ListRoleFragment)
        ensures
            is_role_grouping(fragment_views(node_fragments@), role_views(list.0@)),
            role_nodes(role_views(list.0@)).to_multiset() == fragment_views(
                node_fragments@,
            ).to_multiset(),
    {
        let ghost views = fragment_views(node_fragments@);
        let labels = role_labels(&node_fragments);
        let ghost names = string_views(labels@);
        let mut roles: Vec<RoleFragment> = Vec::new();
        let mut r: usize = 0;
        while r < labels.len()
            invariant
                r <= labels.len(),
                views == fragment_views(node_fragments@),
                names == string_views(labels@),
                roles@.len() == r,
                forall|l: int| 0 <= l < names.len() ==> has_role(
                    views,
                    views.len() as int,
                    #[trigger] names[l],
                ),
                forall|q: int|
                    0 <= q < r ==> (#[trigger] role_views(roles@)[q]).name == names[q]
                        && role_views(roles@)[q].nodes == views.filter(with_role(names[q]))
                        && role_views(roles@)[q].nodes.len() > 0,
            decreases labels.len() - r,
        {
            let nodes = select_role(&node_fragments, labels[r].as_str());
            proof {
                assert(has_role(views, views.len() as int, names[r as int]));
                let k = choose|k: int|
                    0 <= k < views.len() && (#[trigger] views[k]).role == names[r as int];
                views.lemma_filter_contains(with_role(names[r as int]), k);
            }
            let role = RoleFragment { name: labels[r].clone(), nodes };
            proof {
                let before = role_views(roles@);
                let after = role_views(roles@.push(role));
                assert forall|q: int| 0 <= q < r implies after[q] == before[q] by {}
                assert(after[r as int] == role@);
            }
            roles.push(role);
            r += 1;
        }
        proof {
            let grouped = role_views(roles@);
            assert forall|k: int| 0 <= k < views.len() implies has_label(
                grouped,
                (#[trigger] views[k]).role,
            ) by {
                assert(names.contains(views[k].role));
                let l = choose|l: int| 0 <= l < names.len() && names[l] == views[k].role;
                assert(grouped[l].name == views[k].role);
            }
            assert forall|i: int, j: int| 0 <= i < j < grouped.len() implies text_lt(
                #[trigger] grouped[i].name,
                #[trigger] grouped[j].name,
            ) by {
                assert(text_lt(names[i], names[j]));
            }
            lemma_role_grouping_keeps_nodes(views, grouped);
        }
        ListRoleFragment(roles)
    }
}

/// The start page.
#[derive(Debug, Default)]
pub struct Index;

/// What the viewer shows: one page, and the pages to go to from it.
#[derive(Debug)]
pub struct NodeViewer {
    pub character: String,
    pub current_page: i16,
    pub next_page: i16,
    pub prev_page: i16,
    pub roles: Vec<RoleFragment>,
}

/// The value of a `NodeViewer`.
pub struct NodeViewerView {
    pub character: Seq<char>,
    pub current_page: int,
    pub next_page: int,
    pub prev_page: int,
    pub roles: Seq<RoleFragmentView>,
}

impl View for NodeViewer {
    type V = NodeViewerView;

    open spec fn view(&self) -> NodeViewerView {
        NodeViewerView {
            character: self.character@,
            current_page: self.current_page as int,
            next_page: self.next_page as int,
            prev_page: self.prev_page as int,
            roles: role_views(self.roles@),
        }
    }
}

impl Default for NodeViewer {
    fn default() -> (empty: NodeViewer)
        ensures
            empty@ == (NodeViewerView {
                character: Seq::empty(),
                current_page: 0,
                next_page: 0,
                prev_page: 0,
                roles: Seq::empty(),
            }),
    {
        let empty = NodeViewer {
            character: String::new(),
            current_page: 0,
            next_page: 0,
            prev_page: 0,
            roles: Vec::new(),
        };
        assert(role_views(empty.roles@) =~= Seq::empty());
        empty
    }
}

/// The highest stage among `pages`; zero where there are none.
pub open spec fn last_stage(pages: Seq<CrystalPageView>) -> int
    decreases pages.len(),
{
    if pages.len() == 0 {
        0
    } else if pages.len() == 1 || pages.last().stage > last_stage(pages.drop_last()) {
        pages.last().stage
    } else {
        last_stage(pages.drop_last())
    }
}

/// The page number within one and `last` that is nearest to `page`.
pub open spec fn clamp_page(page: int, last: int) -> int {
    if page < 1 {
        1
    } else if page > last {
        last
    } else {
        page
    }
}

/// The page at `at` is the first of `pages` at the stage `stage`.
pub open spec fn first_at_stage(pages: Seq<CrystalPageView>, stage: int, at: int) -> bool {
    &&& 0 <= at < pages.len()
    &&& pages[at].stage == stage
    &&& forall|q: int| 0 <= q < at ==> (#[trigger] pages[q]).stage != stage
}

/// What the viewer shows when `page` is asked for: pages are numbered from
/// one to the highest stage, and a number outside is taken for the nearest
/// inside. There is nothing to show where no stage is above zero or the
/// page asked for has no nodes.
pub open spec fn spec_select(pages: Seq<CrystalPageView>, page: int) -> Option<NodeViewerView> {
    let last = last_stage(pages);
    let shown = clamp_page(page, last);
    if last < 1 || !has_stage(pages, shown) {
        None
    } else {
        let at = choose|at: int| first_at_stage(pages, shown, at);
        Some(
            NodeViewerView {
                character: pages[at].character,
                current_page: shown,
                next_page: clamp_page(page + 1, last),
                prev_page: clamp_page(page - 1, last),
                roles: pages[at].roles,
            },
        )
    }
}

/// Brings a page number within one and `last`.
fn clamp_to(page: i32, last: i16) -> (clamped: i16)
    requires
        last >= 1,
    ensures
        clamped == clamp_page(page as int, last as int),
{
    if page < 1 {
        1
    } else if page > last as i32 {
        last
    } else {
        page as i16
    }
}

impl NodeViewer {
    /// Picks the page to show for the page number asked for.
    pub fn select(pages: &Vec<CrystalPage>, page: i16) -> (viewer: Option<NodeViewer>)
        ensures
            match spec_select(page_views(pages@), page as int) {
                Some(view) => viewer is Some && viewer->0@ == view,
                None => viewer is None,
            },
    {
        let ghost views = page_views(pages@);
        let mut last: i16 = 0;
        let mut i: usize = 0;
        while i < pages.len()
            invariant
                i <= pages.len(),
                views == page_views(pages@),
                last == last_stage(views.take(i as int)),
            decreases pages.len() - i,
        {
            proof {
                assert(views.take(i + 1).drop_last() =~= views.take(i as int));
            }
            if i == 0 || pages[i].stage > last {
                last = pages[i].stage;
            }
            i += 1;
        }
        proof {
            assert(views.take(i as int) =~= views);
        }
        if last < 1 {
            return None;
        }
        let shown = clamp_to(page as i32, last);
        let mut at: usize = 0;
        while at < pages.len() && pages[at].stage != shown
            invariant
                at <= pages.len(),
                views == page_views(pages@),
                forall|q: int| 0 <= q < at ==> (#[trigger] views[q]).stage != shown,
            decreases pages.len() - at,
        {
            at += 1;
        }
        if at == pages.len() {
            return None;
        }
        proof {
            assert(views[at as int].stage == shown);
            assert(first_at_stage(views, shown as int, at as int));
            let chosen = choose|chosen: int| first_at_stage(views, shown as int, chosen);
            assert(chosen == at);
        }
        let mut roles: Vec<RoleFragment> = Vec::new();
        let mut r: usize = 0;
        while r < pages[at as usize].roles.len()
            invariant
                at < pages.len(),
                r <= pages[at as int].roles.len(),
                roles@.len() == r,
                forall|j: int|
                    0 <= j < r ==> (#[trigger] roles@[j])@ == pages[at as int].roles@[j]@,
            decreases pages[at as int].roles.len() - r,
        {
            roles.push(pages[at].roles[r].clone());
            r += 1;
        }
        assert(role_views(roles@) =~= role_views(pages[at as int].roles@));
        Some(
            NodeViewer {
                character: pages[at].character.clone(),
                current_page: shown,
                next_page: clamp_to(page as i32 + 1, last),
                prev_page: clamp_to(page as i32 - 1, last),
                roles,
            },
        )
    }
}

/// The tree that was decoded last, with the pages made from it. The pages
/// are made when first asked for and dropped when the tree is replaced, so
/// that pages handed out always show the tree that is held.
#[derive(Debug)]
pub struct CrystalData {
    crystal_data: Crystarium,
    pages: Option<Vec<CrystalPage>>,
}

/// `pages` are the pages of the tree `nodes`: its nodes grouped by stage and
/// role, under the tree's character.
pub open spec fn pages_of(nodes: Seq<NodeView>, pages: Seq<CrystalPageView>) -> bool {
    is_grouping(tree_character(nodes), fragments_of(nodes), pages)
}

impl CrystalData {
    #[verifier::type_invariant]
    spec fn pages_are_current(self) -> bool {
        self.pages matches Some(pages) ==> pages_of(self.crystal_data@, page_views(pages@))
    }

    /// The nodes of the tree that is held.
    pub closed spec fn nodes(&self) -> Seq<NodeView> {
        self.crystal_data@
    }

    /// Whether pages of the tree that is held are kept.
    pub closed spec fn has_pages(&self) -> bool {
        self.pages is Some
    }

    /// Holds the tree without nodes.
    pub fn new() -> (data: CrystalData)
        ensures
            data.nodes() == Seq::<NodeView>::empty(),
            !data.has_pages(),
    {
        let data = CrystalData { crystal_data: Crystarium::default(), pages: None };
        assert(data.crystal_data@ =~= Seq::empty());
        data
    }

    /// The tree that is held.
    pub fn crystal_data(&self) -> (tree: &Crystarium)
        ensures
            tree@ == self.nodes(),
    {
        &self.crystal_data
    }

    /// Holds `tree` from now on and drops the pages of the tree held before.
    pub fn replace(&mut self, tree: Crystarium)
        ensures
            final(self).nodes() == tree@,
            !final(self).has_pages(),
    {
        self.pages = None;
        self.crystal_data = tree;
    }

    /// Takes in a file: the tree held before is dropped with its pages, and
    /// the tree that the file decodes to is held. Where the file does not
    /// decode, the tree without nodes is held.
    pub fn upload(&mut self, data: Vec<u8>) -> (outcome: Result<(), WdbError>)
        ensures
            !final(self).has_pages(),
            match spec_crystarium(data@) {
                Ok(nodes) => outcome is Ok && final(self).nodes() == nodes,
                Err(e) => outcome == Err::<(), WdbError>(e) && final(self).nodes() == Seq::<
                    NodeView,
                >::empty(),
            },
    {
        self.replace(Crystarium::default());
        assert(self.nodes() =~= Seq::empty());
        match read_crystal_wdb(data) {
            Ok(tree) => {
                self.replace(tree);
                Ok(())
            },
            Err(e) => Err(e),
        }
    }

    /// The pages of the tree that is held, made now unless they are kept
    /// from an earlier call.
    pub fn pages(&mut self) -> (pages: Vec<CrystalPage>)
        ensures
            final(self).nodes() == old(self).nodes(),
            final(self).has_pages(),
            pages_of(old(self).nodes(), page_views(pages@)),
    {
        proof {
            use_type_invariant(&*self);
        }
        match &self.pages {
            Some(kept) => clone_pages(kept),
            None => {
                let nodes = self.crystal_data.nodes.clone();
                assert(node_views(nodes@) =~= self.crystal_data@);
                let mut fragments = nodes.convert();
                let character = self.crystal_data.character();
                let pages = CrystalPage::convert(character.as_str(), &mut fragments);
                let copy = clone_pages(&pages);
                self.pages = Some(pages);
                copy
            },
        }
    }
}

impl Default for CrystalData {
    fn default() -> (data: CrystalData)
        ensures
            data.nodes() == Seq::<NodeView>::empty(),
            !data.has_pages(),
    {
        CrystalData::new()
    }
}

} // verus!

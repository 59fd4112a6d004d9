use crate::ordered::{ascends, lemma_ascending_keys_unique, strict_order};
use crate::partition::{lemma_partition, passes_one};
use crate::view::{
    fragment_views, has_label, is_role_grouping, lemma_role_grouping_keeps_nodes,
    lemma_role_grouping_unique, role_nodes, role_views, with_role, ListRoleFragment,
    NodeFragment, NodeFragmentView, RoleFragment, RoleFragmentView,
};
use vstd::prelude::*;
use vstd::string::*;

verus! {

/// The nodes of one stage, role by role.
#[derive(Debug)]
pub struct CrystalPage {
    pub character: String,
    pub stage: i16,
    /// Not filled in by `convert`, which leaves it at zero.
    pub node_count: usize,
    pub roles: Vec<RoleFragment>,
}

/// The value of a `CrystalPage`.
pub struct CrystalPageView {
    pub character: Seq<char>,
    pub stage: int,
    pub node_count: int,
    pub roles: Seq<RoleFragmentView>,
}

impl View for CrystalPage {
    type V = CrystalPageView;

    open spec fn view(&self) -> CrystalPageView {
        CrystalPageView {
            character: self.character@,
            stage: self.stage as int,
            node_count: self.node_count as int,
            roles: role_views(self.roles@),
        }
    }
}

impl Clone for CrystalPage {
    fn clone(&self) -> (copy: CrystalPage)
        ensures
            copy@ == self@,
    {
        let mut roles: Vec<RoleFragment> = Vec::new();
        let mut i: usize = 0;
        while i < self.roles.len()
            invariant
                i <= self.roles.len(),
                roles@.len() == i,
                forall|j: int| 0 <= j < i ==> (#[trigger] roles@[j])@ == self.roles@[j]@,
            decreases self.roles.len() - i,
        {
            roles.push(self.roles[i].clone());
            i += 1;
        }
        assert(role_views(roles@) =~= role_views(self.roles@));
        CrystalPage {
            character: self.character.clone(),
            stage: self.stage,
            node_count: self.node_count,
            roles,
        }
    }
}

impl Default for CrystalPage {
    fn default() -> (empty: CrystalPage)
        ensures
            empty@ == (CrystalPageView {
                character: Seq::empty(),
                stage: 0,
                node_count: 0,
                roles: Seq::empty(),
            }),
    {
        let empty = CrystalPage {
            character: String::new(),
            stage: 0,
            node_count: 0,
            roles: Vec::new(),
        };
        assert(role_views(empty.roles@) =~= Seq::empty());
        empty
    }
}

/// A copy of a list of pages.
pub fn clone_pages(pages: &Vec<CrystalPage>) -> (copy: Vec<CrystalPage>)
    ensures
        page_views(copy@) == page_views(pages@),
{
    let mut copy: Vec<CrystalPage> = Vec::new();
    let mut i: usize = 0;
    while i < pages.len()
        invariant
            i <= pages.len(),
            copy@.len() == i,
            forall|j: int| 0 <= j < i ==> (#[trigger] copy@[j])@ == pages@[j]@,
        decreases pages.len() - i,
    {
        copy.push(pages[i].clone());
        i += 1;
    }
    assert(page_views(copy@) =~= page_views(pages@));
    copy
}

/// The values of a list of pages, in order.
pub open spec fn page_views(pages: Seq<CrystalPage>) -> Seq<CrystalPageView> {
    Seq::new(pages.len(), |i: int| pages[i]@)
}

/// The test that tells the fragments of one stage from the rest.
pub open spec fn at_stage(stage: int) -> spec_fn(NodeFragmentView) -> bool {
    |node: NodeFragmentView| node.stage == stage
}

/// One of `pages` is the page of the stage `stage`.
pub open spec fn has_stage(pages: Seq<CrystalPageView>, stage: int) -> bool {
    exists|p: int| 0 <= p < pages.len() && (#[trigger] pages[p]).stage == stage
}

/// `pages` groups `nodes` by stage, then by role: the pages stand in
/// ascending order of their stages, without repetition; each page carries
/// `character`, groups the nodes of its stage by role and holds at least one
/// role; and the stage of every node has its page.
pub open spec fn is_grouping(
    character: Seq<char>,
    nodes: Seq<NodeFragmentView>,
    pages: Seq<CrystalPageView>,
) -> bool {
    &&& forall|i: int, j: int|
        0 <= i < j < pages.len() ==> (#[trigger] pages[i]).stage < (#[trigger] pages[j]).stage
    &&& forall|p: int|
        0 <= p < pages.len() ==> {
            &&& (#[trigger] pages[p]).character == character
            &&& pages[p].node_count == 0
            &&& pages[p].roles.len() > 0
            &&& is_role_grouping(nodes.filter(at_stage(pages[p].stage)), pages[p].roles)
        }
    &&& forall|k: int| 0 <= k < nodes.len() ==> has_stage(pages, (#[trigger] nodes[k]).stage)
}

/// The nodes of all `pages`, page after page and role after role.
pub open spec fn page_nodes(pages: Seq<CrystalPageView>) -> Seq<NodeFragmentView> {
    pages.map_values(|page: CrystalPageView| role_nodes(page.roles)).flatten()
}

/// A grouping holds every node exactly once: the nodes of its pages are
/// those that were grouped, each as often as it came.
pub proof fn lemma_grouping_keeps_nodes(
    character: Seq<char>,
    nodes: Seq<NodeFragmentView>,
    pages: Seq<CrystalPageView>,
)
    requires
        is_grouping(character, nodes, pages),
    ensures
        page_nodes(pages).to_multiset() == nodes.to_multiset(),
{
    let parts = pages.map_values(|page: CrystalPageView| role_nodes(page.roles));
    let picks = Seq::new(pages.len(), |p: int| at_stage(pages[p].stage));
    assert forall|i: int, j: int, x: NodeFragmentView|
        #![trigger picks[i](x), picks[j](x)]
        0 <= i < j < picks.len() implies !(picks[i](x) && picks[j](x)) by {
        assert(pages[i].stage < pages[j].stage);
    }
    assert forall|k: int| 0 <= k < nodes.len() implies passes_one(
        picks,
        #[trigger] nodes[k],
    ) by {
        assert(has_stage(pages, nodes[k].stage));
        let p = choose|p: int|
            0 <= p < pages.len() && (#[trigger] pages[p]).stage == nodes[k].stage;
        assert(picks[p](nodes[k]));
    }
    assert forall|i: int| 0 <= i < parts.len() implies (#[trigger] parts[i]).to_multiset()
        == nodes.filter(picks[i]).to_multiset() by {
        assert(parts[i] == role_nodes(pages[i].roles));
        lemma_role_grouping_keeps_nodes(nodes.filter(at_stage(pages[i].stage)), pages[i].roles);
    }
    lemma_partition(nodes, parts, picks);
}

/// The stage of every page of a grouping is the stage of one of the nodes.
proof fn lemma_page_has_node(
    character: Seq<char>,
    nodes: Seq<NodeFragmentView>,
    pages: Seq<CrystalPageView>,
    p: int,
)
    requires
        is_grouping(character, nodes, pages),
        0 <= p < pages.len(),
    ensures
        exists|k: int| 0 <= k < nodes.len() && (#[trigger] nodes[k]).stage == pages[p].stage,
{
    let keep = at_stage(pages[p].stage);
    let staged = nodes.filter(keep);
    let first = pages[p].roles[0].nodes[0];
    assert(staged.filter(with_role(pages[p].roles[0].name)).contains(first));
    staged.lemma_filter_contains_rev(with_role(pages[p].roles[0].name), first);
    let n = choose|n: int| 0 <= n < staged.len() && staged[n] == first;
    nodes.lemma_filter_pred(keep, n);
    nodes.lemma_filter_contains_rev(keep, first);
    let k = choose|k: int| 0 <= k < nodes.len() && nodes[k] == first;
    assert(nodes[k].stage == pages[p].stage);
}

/// Nodes can be grouped in one way only: what `is_grouping` holds of is
/// fixed by the character and the nodes.
pub proof fn lemma_grouping_unique(
    character: Seq<char>,
    nodes: Seq<NodeFragmentView>,
    a: Seq<CrystalPageView>,
    b: Seq<CrystalPageView>,
)
    requires
        is_grouping(character, nodes, a),
        is_grouping(character, nodes, b),
    ensures
        a == b,
{
    let lt = |x: int, y: int| x < y;
    let stages = a.map_values(|page: CrystalPageView| page.stage);
    let others = b.map_values(|page: CrystalPageView| page.stage);
    assert(strict_order(lt));
    assert(ascends(stages, lt)) by {
        assert forall|i: int, j: int| 0 <= i < j < stages.len() implies lt(
            #[trigger] stages[i],
            #[trigger] stages[j],
        ) by {
            assert(a[i].stage < a[j].stage);
        }
    }
    assert(ascends(others, lt)) by {
        assert forall|i: int, j: int| 0 <= i < j < others.len() implies lt(
            #[trigger] others[i],
            #[trigger] others[j],
        ) by {
            assert(b[i].stage < b[j].stage);
        }
    }
    assert forall|i: int| 0 <= i < stages.len() implies others.contains(#[trigger] stages[i]) by {
        lemma_page_has_node(character, nodes, a, i);
        let k = choose|k: int| 0 <= k < nodes.len() && (#[trigger] nodes[k]).stage == a[i].stage;
        assert(has_stage(b, nodes[k].stage));
        let p = choose|p: int| 0 <= p < b.len() && (#[trigger] b[p]).stage == nodes[k].stage;
        assert(others[p] == stages[i]);
    }
    assert forall|j: int| 0 <= j < others.len() implies stages.contains(#[trigger] others[j]) by {
        lemma_page_has_node(character, nodes, b, j);
        let k = choose|k: int| 0 <= k < nodes.len() && (#[trigger] nodes[k]).stage == b[j].stage;
        assert(has_stage(a, nodes[k].stage));
        let p = choose|p: int| 0 <= p < a.len() && (#[trigger] a[p]).stage == nodes[k].stage;
        assert(stages[p] == others[j]);
    }
    lemma_ascending_keys_unique(stages, others, lt);
    assert(a.len() == b.len());
    assert forall|p: int| 0 <= p < a.len() implies a[p] == b[p] by {
        assert(stages[p] == others[p]);
        assert(a[p].stage == b[p].stage);
        lemma_role_grouping_unique(nodes.filter(at_stage(a[p].stage)), a[p].roles, b[p].roles);
    }
    assert(a =~= b);
}

/// One of the first `n` of `nodes` is at the stage `stage`.
pub open spec fn stage_occurs(nodes: Seq<NodeFragmentView>, n: int, stage: int) -> bool {
    exists|k: int| 0 <= k < n && (#[trigger] nodes[k]).stage == stage
}

/// Collects the stages that occur in `nodes`, in ascending order and each
/// once.
pub fn stages(nodes: &Vec<NodeFragment>) -> (found: Vec<i16>)
    ensures
        forall|i: int, j: int| 0 <= i < j < found@.len() ==> found@[i] < found@[j],
        forall|s: int|
            0 <= s < found@.len() ==> stage_occurs(
                fragment_views(nodes@),
                nodes@.len() as int,
                #[trigger] found@[s] as int,
            ),
        forall|k: int|
            0 <= k < nodes@.len() ==> found@.contains((#[trigger] nodes@[k]).stage),
{
    let ghost views = fragment_views(nodes@);
    let mut found: Vec<i16> = Vec::new();
    let mut i: usize = 0;
    while i < nodes.len()
        invariant
            i <= nodes.len(),
            views == fragment_views(nodes@),
            forall|a: int, b: int| 0 <= a < b < found@.len() ==> found@[a] < found@[b],
            forall|s: int|
                0 <= s < found@.len() ==> stage_occurs(
                    views,
                    i as int,
                    #[trigger] found@[s] as int,
                ),
            forall|k: int| 0 <= k < i ==> found@.contains((#[trigger] nodes@[k]).stage),
        decreases nodes.len() - i,
    {
        let stage = nodes[i].stage;
        let ghost known = found@;
        let mut at: usize = 0;
        while at < found.len() && found[at] < stage
            invariant
                at <= found.len(),
                known == found@,
                forall|s: int| 0 <= s < at ==> #[trigger] known[s] < stage,
            decreases found.len() - at,
        {
            at += 1;
        }
        proof {
            assert(stage_occurs(views, i + 1, stage as int)) by {
                assert(views[i as int].stage == stage);
            }
            assert forall|s: int| 0 <= s < known.len() implies stage_occurs(
                views,
                i + 1,
                #[trigger] known[s] as int,
            ) by {
                assert(stage_occurs(views, i as int, known[s] as int));
                let k = choose|k: int| 0 <= k < i && (#[trigger] views[k]).stage == known[s];
                assert(views[k].stage == known[s]);
            }
        }
        if at == found.len() || found[at] != stage {
            found.insert(at, stage);
            proof {
                let longer = found@;
                known.insert_ensures(at as int, stage);
                assert forall|a: int, b: int| 0 <= a < b < longer.len() implies longer[a]
                    < longer[b] by {
                    if a > at {
                        assert(longer[a] == known[a - 1]);
                    }
                    if b > at {
                        assert(longer[b] == known[b - 1]);
                    }
                }
                assert forall|k: int| 0 <= k < i + 1 implies longer.contains(
                    (#[trigger] nodes@[k]).stage,
                ) by {
                    if k < i {
                        assert(known.contains(nodes@[k].stage));
                        let s = choose|s: int| 0 <= s < known.len() && known[s] == nodes@[k].stage;
                        if s < at {
                            assert(longer[s] == nodes@[k].stage);
                        } else {
                            assert(longer[s + 1] == nodes@[k].stage);
                        }
                    } else {
                        assert(longer[at as int] == nodes@[k].stage);
                    }
                }
                assert forall|s: int| 0 <= s < longer.len() implies stage_occurs(
                    views,
                    i + 1,
                    #[trigger] longer[s] as int,
                ) by {
                    if s < at {
                        assert(longer[s] == known[s]);
                    } else if s > at {
                        assert(longer[s] == known[s - 1]);
                    }
                }
            }
        } else {
            proof {
                assert(known[at as int] == nodes@[i as int].stage);
            }
        }
        i += 1;
    }
    found
}

/// Picks the fragments of one stage, in their order.
pub fn select_stage(nodes: &Vec<NodeFragment>, stage: i16) -> (picked: Vec<NodeFragment>)
    ensures
        fragment_views(picked@) == fragment_views(nodes@).filter(at_stage(stage as int)),
{
    let ghost views = fragment_views(nodes@);
    let ghost keep = at_stage(stage as int);
    let mut picked: Vec<NodeFragment> = Vec::new();
    let mut i: usize = 0;
    assert(views.take(0).filter(keep) =~= Seq::empty()) by {
        reveal(Seq::filter);
    }
    while i < nodes.len()
        invariant
            i <= nodes.len(),
            views == fragment_views(nodes@),
            keep == at_stage(stage as int),
            fragment_views(picked@) == views.take(i as int).filter(keep),
        decreases nodes.len() - i,
    {
        proof {
            assert(views.take(i + 1) =~= views.take(i as int).push(views[i as int]));
            views.take(i as int).lemma_filter_push(views[i as int], keep);
        }
        if nodes[i].stage == stage {
            let node = nodes[i].clone();
            assert(fragment_views(picked@.push(node)) =~= fragment_views(picked@).push(node@));
            picked.push(node);
        }
        i += 1;
    }
    assert(views.take(i as int) =~= views);
    picked
}

impl CrystalPage {
    /// Groups the fragments into pages, one for each stage in ascending
    /// order; within a page the roles stand in ascending order of their
    /// labels, and within a role the fragments keep the order they came in.
    /// The fragments themselves are left as they are.
    pub fn convert(character: &str, node_fragments: &mut Vec<NodeFragment>) -> (pages: Vec<
        CrystalPage,
    >)
        ensures
            *final(node_fragments) == *old(node_fragments),
            is_grouping(character@, fragment_views(old(node_fragments)@), page_views(pages@)),
            page_nodes(page_views(pages@)).to_multiset() == fragment_views(
                old(node_fragments)@,
            ).to_multiset(),
    {
        let ghost views = fragment_views(node_fragments@);
        let found = stages(node_fragments);
        let mut pages: Vec<CrystalPage> = Vec::new();
        let mut s: usize = 0;
        while s < found.len()
            invariant
                s <= found.len(),
                *node_fragments == *old(node_fragments),
                views == fragment_views(node_fragments@),
                pages@.len() == s,
                forall|i: int, j: int| 0 <= i < j < found@.len() ==> found@[i] < found@[j],
                forall|q: int|
                    0 <= q < found@.len() ==> stage_occurs(
                        views,
                        views.len() as int,
                        #[trigger] found@[q] as int,
                    ),
                forall|p: int|
                    0 <= p < s ==> {
                        &&& (#[trigger] page_views(pages@)[p]).stage == found@[p]
                        &&& page_views(pages@)[p].character == character@
                        &&& page_views(pages@)[p].node_count == 0
                        &&& page_views(pages@)[p].roles.len() > 0
                        &&& is_role_grouping(
                            views.filter(at_stage(found@[p] as int)),
                            page_views(pages@)[p].roles,
                        )
                    },
            decreases found.len() - s,
        {
            let stage = found[s];
            let nodes = select_stage(node_fragments, stage);
            let ghost staged = fragment_views(nodes@);
            let roles = ListRoleFragment::from(nodes).0;
            proof {
                assert(stage_occurs(views, views.len() as int, found@[s as int] as int));
                let k = choose|k: int|
                    0 <= k < views.len() && (#[trigger] views[k]).stage == stage;
                views.lemma_filter_contains(at_stage(stage as int), k);
                let n = choose|n: int| 0 <= n < staged.len() && staged[n] == views[k];
                assert(has_label(role_views(roles@), staged[n].role));
            }
            let page = CrystalPage { character: character.to_owned(), stage, node_count: 0, roles };
            proof {
                let before = page_views(pages@);
                let after = page_views(pages@.push(page));
                assert forall|p: int| 0 <= p < s implies after[p] == before[p] by {}
                assert(after[s as int] == page@);
            }
            pages.push(page);
            s += 1;
        }
        proof {
            let grouped = page_views(pages@);
            assert forall|k: int| 0 <= k < views.len() implies has_stage(
                grouped,
                (#[trigger] views[k]).stage,
            ) by {
                assert(found@.contains(node_fragments@[k].stage));
                let q = choose|q: int|
                    0 <= q < found@.len() && found@[q] == node_fragments@[k].stage;
                assert(grouped[q].stage == views[k].stage);
            }
            lemma_grouping_keeps_nodes(character@, views, grouped);
        }
        pages
    }
}

} // verus!

//! The flattener: the pure projection of (tree, sessions) into one ordered
//! list of display rows — ungrouped sessions first, then groups depth-first
//! in sibling name order, each group followed by its direct member sessions
//! and then its subgroups; a collapsed group suppresses its whole subtree.

use vstd::prelude::*;

use crate::groups::{Group, GroupTree};
use crate::instance::Instance;
use crate::model::{lemma_nodes_ok_iff, node_ok, roots_ok};
use crate::paths::{in_subtree, str_eq, str_in_subtree};

verus! {

/// One display row: a group header or a session line, with its indent depth.
#[derive(Debug)]
pub enum Item {
    Group { path: String, name: String, depth: usize, collapsed: bool, session_count: usize },
    Session { id: String, depth: usize },
}

/// The mathematical shadow of an `Item`, over character sequences.
pub enum ItemModel {
    GroupRow { path: Seq<char>, name: Seq<char>, depth: nat, collapsed: bool, session_count: nat },
    SessionRow { id: Seq<char>, depth: nat },
}

pub open spec fn item_model(it: Item) -> ItemModel {
    match it {
        Item::Group { path, name, depth, collapsed, session_count } => ItemModel::GroupRow {
            path: path@,
            name: name@,
            depth: depth as nat,
            collapsed,
            session_count: session_count as nat,
        },
        Item::Session { id, depth } => ItemModel::SessionRow { id: id@, depth: depth as nat },
    }
}

pub open spec fn items_model(s: Seq<Item>) -> Seq<ItemModel> {
    s.map_values(|it: Item| item_model(it))
}

pub open spec fn depth_of(it: Item) -> usize {
    match it {
        Item::Group { depth, .. } => depth,
        Item::Session { depth, .. } => depth,
    }
}

impl Item {
    /// The indent depth of the row, whichever kind it is.
    pub fn depth(&self) -> (d: usize)
        ensures
            d == depth_of(*self),
    {
        match self {
            Item::Group { depth, .. } => *depth,
            Item::Session { depth, .. } => *depth,
        }
    }
}

/// Number of the first `i` instances whose `group_path` equals `p` exactly.
pub open spec fn direct_count_to(instances: Seq<Instance>, p: Seq<char>, i: int) -> nat
    decreases i,
{
    if i <= 0 || i > instances.len() {
        0
    } else {
        direct_count_to(instances, p, i - 1) + if instances[i - 1].group_path@ == p {
            1nat
        } else {
            0nat
        }
    }
}

/// Number of the first `i` instances lying in the subtree of `p`.
pub open spec fn count_subtree_to(instances: Seq<Instance>, p: Seq<char>, i: int) -> nat
    decreases i,
{
    if i <= 0 || i > instances.len() {
        0
    } else {
        count_subtree_to(instances, p, i - 1) + if in_subtree(p, instances[i - 1].group_path@) {
            1nat
        } else {
            0nat
        }
    }
}

/// Number of instances whose `group_path` is `p` or lies below it.
pub open spec fn count_subtree(instances: Seq<Instance>, p: Seq<char>) -> nat {
    count_subtree_to(instances, p, instances.len() as int)
}

/// Number of ungrouped instances.
pub open spec fn ungrouped_count(instances: Seq<Instance>) -> nat {
    direct_count_to(instances, Seq::<char>::empty(), instances.len() as int)
}

/// Session rows for the first `i` instances whose `group_path` equals `p`
/// exactly, in index order, at the given depth.
pub open spec fn session_rows_to(
    instances: Seq<Instance>,
    p: Seq<char>,
    depth: nat,
    i: int,
) -> Seq<ItemModel>
    decreases i,
{
    if i <= 0 || i > instances.len() {
        Seq::empty()
    } else {
        session_rows_to(instances, p, depth, i - 1) + if instances[i - 1].group_path@ == p {
            seq![ItemModel::SessionRow { id: instances[i - 1].id@, depth }]
        } else {
            Seq::empty()
        }
    }
}

/// The header row a group contributes: its subtree session count is
/// independent of collapse state.
pub open spec fn group_row(g: Group, instances: Seq<Instance>, depth: nat) -> ItemModel {
    ItemModel::GroupRow {
        path: g.path@,
        name: g.name@,
        depth,
        collapsed: g.collapsed,
        session_count: count_subtree(instances, g.path@),
    }
}

/// All rows of the subtree rooted at `g`: the header; then — unless the
/// group is collapsed, which suppresses everything below it — its direct
/// member sessions and its children's rows, one level deeper.
pub open spec fn flat_node(g: Group, instances: Seq<Instance>, depth: nat) -> Seq<ItemModel>
    decreases g, 0int,
{
    seq![group_row(g, instances, depth)] + if g.collapsed {
        Seq::empty()
    } else {
        session_rows_to(instances, g.path@, depth + 1, instances.len() as int) + flat_nodes_to(
            g.children@,
            instances,
            depth + 1,
            g.children@.len() as int,
        )
    }
}

/// Concatenated rows of the first `i` nodes of a sibling list.
pub open spec fn flat_nodes_to(
    cs: Seq<Group>,
    instances: Seq<Instance>,
    depth: nat,
    i: int,
) -> Seq<ItemModel>
    decreases cs, i,
{
    if i <= 0 || i > cs.len() {
        Seq::empty()
    } else {
        flat_nodes_to(cs, instances, depth, i - 1) + flat_node(cs[i - 1], instances, depth)
    }
}

/// The whole projection: ungrouped sessions at depth 0, then every root
/// subtree in root order.
pub open spec fn flat_model(roots: Seq<Group>, instances: Seq<Instance>) -> Seq<ItemModel> {
    session_rows_to(instances, Seq::<char>::empty(), 0, instances.len() as int) + flat_nodes_to(
        roots,
        instances,
        0,
        roots.len() as int,
    )
}

/// Height of a derived tree node; bounds the depth values the flattener
/// must be able to represent.
pub open spec fn height(g: Group) -> nat
    decreases g, 0int,
{
    1 + heights_max(g.children@, 0)
}

pub open spec fn heights_max(cs: Seq<Group>, i: int) -> nat
    decreases cs, cs.len() - i,
{
    if i < 0 || i >= cs.len() {
        0
    } else {
        let h = height(cs[i]);
        let rest = heights_max(cs, i + 1);
        if h >= rest {
            h
        } else {
            rest
        }
    }
}

pub proof fn lemma_heights_max_ge(cs: Seq<Group>, k: int, i: int)
    requires
        0 <= k <= i < cs.len(),
    ensures
        height(cs[i]) <= heights_max(cs, k),
    decreases i - k,
{
    if k < i {
        lemma_heights_max_ge(cs, k + 1, i);
    }
}

pub proof fn lemma_items_model_push(s: Seq<Item>, it: Item)
    ensures
        items_model(s.push(it)) == items_model(s).push(item_model(it)),
{
    assert(items_model(s.push(it)) =~= items_model(s).push(item_model(it)));
}

/// Count the sessions whose `group_path` is `path` or lies below it.
pub(crate) fn count_subtree_exec(path: &str, instances: &Vec<Instance>) -> (c: usize)
    ensures
        c as nat == count_subtree(instances@, path@),
{
    let mut c: usize = 0;
    let mut i: usize = 0;
    while i < instances.len()
        invariant
            i <= instances@.len(),
            c <= i,
            c as nat == count_subtree_to(instances@, path@, i as int),
        decreases instances@.len() - i,
    {
        if str_in_subtree(path, instances[i].group_path.as_str()) {
            c = c + 1;
        }
        i = i + 1;
    }
    c
}

/// Sessions directly in the group `path`, or anywhere below it.
fn count_sessions_in_group(path: &str, instances: &Vec<Instance>, _tree: &GroupTree) -> (c: usize)
    ensures
        c as nat == count_subtree(instances@, path@),
{
    count_subtree_exec(path, instances)
}

/// Emit the subtree of `group` into `items`, starting at `depth`.
fn flatten_group(
    group: &Group,
    instances: &Vec<Instance>,
    items: &mut Vec<Item>,
    depth: usize,
    tree: &GroupTree,
)
    requires
        node_ok(tree.gmap(), *group),
        depth + height(*group) <= usize::MAX,
    ensures
        items_model(final(items)@) == items_model(old(items)@) + flat_node(
            *group,
            instances@,
            depth as nat,
        ),
    decreases *group,
{
    let ghost m = tree.gmap();
    let ghost base = items@;
    let session_count = count_sessions_in_group(group.path.as_str(), instances, tree);
    let row = Item::Group {
        path: group.path.clone(),
        name: group.name.clone(),
        depth,
        collapsed: group.collapsed,
        session_count,
    };
    proof {
        lemma_items_model_push(base, row);
        assert(item_model(row) == group_row(*group, instances@, depth as nat));
    }
    items.push(row);
    proof {
        assert(items_model(items@) =~= items_model(base) + seq![
            group_row(*group, instances@, depth as nat),
        ]);
    }
    if group.collapsed {
        proof {
            assert(flat_node(*group, instances@, depth as nat) =~= seq![
                group_row(*group, instances@, depth as nat),
            ]);
            assert(items_model(items@) =~= items_model(base) + flat_node(
                *group,
                instances@,
                depth as nat,
            ));
        }
        return ;
    }
    let dp1 = depth + 1;
    let ghost after_header = items@;
    let mut i: usize = 0;
    while i < instances.len()
        invariant
            i <= instances@.len(),
            items_model(items@) == items_model(after_header) + session_rows_to(
                instances@,
                group.path@,
                dp1 as nat,
                i as int,
            ),
        decreases instances@.len() - i,
    {
        if str_eq(instances[i].group_path.as_str(), group.path.as_str()) {
            let srow = Item::Session { id: instances[i].id.clone(), depth: dp1 };
            proof {
                lemma_items_model_push(items@, srow);
            }
            items.push(srow);
            proof {
                assert(items_model(items@) =~= items_model(after_header) + session_rows_to(
                    instances@,
                    group.path@,
                    dp1 as nat,
                    i as int + 1,
                ));
            }
        } else {
            proof {
                assert(session_rows_to(instances@, group.path@, dp1 as nat, i as int + 1)
                    =~= session_rows_to(instances@, group.path@, dp1 as nat, i as int));
            }
        }
        i = i + 1;
    }
    let ghost after_sessions = items@;
    let mut j: usize = 0;
    while j < group.children.len()
        invariant
            j <= group.children@.len(),
            node_ok(m, *group),
            m == tree.gmap(),
            depth + height(*group) <= usize::MAX,
            dp1 == depth + 1,
            items_model(items@) == items_model(after_sessions) + flat_nodes_to(
                group.children@,
                instances@,
                dp1 as nat,
                j as int,
            ),
        decreases group.children@.len() - j,
    {
        proof {
            lemma_nodes_ok_iff(m, group.children@, 0);
            assert(node_ok(m, group.children@[j as int]));
            lemma_heights_max_ge(group.children@, 0, j as int);
            assert(height(group.children@[j as int]) <= heights_max(group.children@, 0));
            assert(dp1 + height(group.children@[j as int]) <= usize::MAX);
        }
        flatten_group(&group.children[j], instances, items, dp1, tree);
        proof {
            assert(items_model(items@) =~= items_model(after_sessions) + flat_nodes_to(
                group.children@,
                instances@,
                dp1 as nat,
                j as int + 1,
            ));
        }
        j = j + 1;
    }
    proof {
        assert(items_model(items@) =~= items_model(base) + flat_node(
            *group,
            instances@,
            depth as nat,
        ));
    }
}

/// Project tree and sessions into the ordered list of display rows.
pub fn flatten_tree(group_tree: &GroupTree, instances: &Vec<Instance>) -> (items: Vec<Item>)
    requires
        group_tree.wf(),
        forall|i: int|
            0 <= i < group_tree.roots_seq().len() ==> height(#[trigger] group_tree.roots_seq()[i])
                <= usize::MAX,
    ensures
        items_model(items@) == flat_model(group_tree.roots_seq(), instances@),
{
    let mut items: Vec<Item> = Vec::new();
    let mut i: usize = 0;
    while i < instances.len()
        invariant
            i <= instances@.len(),
            items_model(items@) == session_rows_to(instances@, Seq::<char>::empty(), 0, i as int),
        decreases instances@.len() - i,
    {
        if instances[i].group_path.as_str().is_empty() {
            let srow = Item::Session { id: instances[i].id.clone(), depth: 0 };
            proof {
                lemma_items_model_push(items@, srow);
                assert(instances@[i as int].group_path@.len() == 0);
                assert(instances@[i as int].group_path@ =~= Seq::<char>::empty());
            }
            items.push(srow);
            proof {
                assert(items_model(items@) =~= session_rows_to(
                    instances@,
                    Seq::<char>::empty(),
                    0,
                    i as int + 1,
                ));
            }
        } else {
            proof {
                assert(instances@[i as int].group_path@.len() > 0);
                assert(Seq::<char>::empty().len() == 0);
                assert(instances@[i as int].group_path@ != Seq::<char>::empty());
                assert(session_rows_to(instances@, Seq::<char>::empty(), 0, i as int + 1)
                    =~= session_rows_to(instances@, Seq::<char>::empty(), 0, i as int));
            }
        }
        i = i + 1;
    }
    let ghost after_ungrouped = items@;
    let roots = group_tree.get_roots();
    let ghost rs = group_tree.roots_seq();
    let mut j: usize = 0;
    while j < roots.len()
        invariant
            j <= rs.len(),
            roots@ == rs,
            group_tree.wf(),
            roots_ok(group_tree.gmap(), rs),
            forall|i2: int| 0 <= i2 < rs.len() ==> height(#[trigger] rs[i2]) <= usize::MAX,
            items_model(items@) == items_model(after_ungrouped) + flat_nodes_to(
                rs,
                instances@,
                0,
                j as int,
            ),
        decreases rs.len() - j,
    {
        proof {
            assert(node_ok(group_tree.gmap(), rs[j as int]));
            assert(height(rs[j as int]) <= usize::MAX);
        }
        flatten_group(&roots[j], instances, &mut items, 0, group_tree);
        proof {
            assert(items_model(items@) =~= items_model(after_ungrouped) + flat_nodes_to(
                rs,
                instances@,
                0,
                j as int + 1,
            ));
        }
        j = j + 1;
    }
    proof {
        assert(items_model(items@) =~= flat_model(rs, instances@));
    }
    items
}

/// A session inside the subtree makes the subtree count positive.
pub proof fn lemma_count_subtree_pos(instances: Seq<Instance>, p: Seq<char>, j: int, i: int)
    requires
        0 <= j < i <= instances.len(),
        in_subtree(p, instances[j].group_path@),
    ensures
        count_subtree_to(instances, p, i) > 0,
    decreases i,
{
    if j < i - 1 {
        lemma_count_subtree_pos(instances, p, j, i - 1);
    }
}

/// Session rows for a group are as many as its direct members.
pub proof fn lemma_session_rows_len(instances: Seq<Instance>, p: Seq<char>, depth: nat, i: int)
    ensures
        session_rows_to(instances, p, depth, i).len() == direct_count_to(instances, p, i),
    decreases i,
{
    if 0 < i <= instances.len() {
        lemma_session_rows_len(instances, p, depth, i - 1);
    }
}

/// Rows a visible subtree contributes: one for the group itself and, when
/// it is not collapsed, one per direct member session plus its children's
/// rows; a collapsed group's entire subtree is its single header row.
pub open spec fn visible_rows(g: Group, instances: Seq<Instance>) -> nat
    decreases g, 0int,
{
    1 + if g.collapsed {
        0nat
    } else {
        direct_count_to(instances, g.path@, instances.len() as int) + visible_rows_to(
            g.children@,
            instances,
            g.children@.len() as int,
        )
    }
}

pub open spec fn visible_rows_to(cs: Seq<Group>, instances: Seq<Instance>, i: int) -> nat
    decreases cs, i,
{
    if i <= 0 || i > cs.len() {
        0
    } else {
        visible_rows_to(cs, instances, i - 1) + visible_rows(cs[i - 1], instances)
    }
}

/// The flattened subtree of `g` has exactly `visible_rows(g, instances)`
/// rows, whatever the depth.
pub proof fn lemma_flat_node_len(g: Group, instances: Seq<Instance>, depth: nat)
    ensures
        flat_node(g, instances, depth).len() == visible_rows(g, instances),
    decreases g, 0int,
{
    if !g.collapsed {
        lemma_session_rows_len(instances, g.path@, depth + 1, instances.len() as int);
        lemma_flat_nodes_len(g.children@, instances, depth + 1, g.children@.len() as int);
    }
}

pub proof fn lemma_flat_nodes_len(cs: Seq<Group>, instances: Seq<Instance>, depth: nat, i: int)
    ensures
        flat_nodes_to(cs, instances, depth, i).len() == visible_rows_to(cs, instances, i),
    decreases cs, i,
{
    if 0 < i <= cs.len() {
        lemma_flat_nodes_len(cs, instances, depth, i - 1);
        lemma_flat_node_len(cs[i - 1], instances, depth);
    }
}

/// The projection's length invariant: total rows = ungrouped sessions,
/// plus, over the visible groups, one row each and the direct members of
/// the groups that are not collapsed.
pub proof fn lemma_flatten_length(roots: Seq<Group>, instances: Seq<Instance>)
    ensures
        flat_model(roots, instances).len() == ungrouped_count(instances) + visible_rows_to(
            roots,
            instances,
            roots.len() as int,
        ),
{
    lemma_session_rows_len(instances, Seq::<char>::empty(), 0, instances.len() as int);
    lemma_flat_nodes_len(roots, instances, 0, roots.len() as int);
}

/// A collapsed group's subtree flattens to exactly its own header row:
/// nothing below it appears, not even children that are themselves not
/// collapsed.
pub proof fn lemma_collapsed_group_single_row(g: Group, instances: Seq<Instance>, depth: nat)
    requires
        g.collapsed,
    ensures
        flat_node(g, instances, depth) =~= seq![group_row(g, instances, depth)],
        flat_node(g, instances, depth).len() == 1,
{
    assert(flat_node(g, instances, depth) =~= seq![group_row(g, instances, depth)]);
}

} // verus!

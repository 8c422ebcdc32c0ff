//! Mathematical model of the group store: a sequence of groups with
//! pairwise-distinct paths viewed as a map from path to (name, collapsed),
//! and the predicates that say when a derived tree of root nodes reflects
//! that map.

use vstd::prelude::*;

use crate::groups::Group;
use crate::instance::Instance;
use crate::paths::{
    is_root_path, is_direct_child, in_prefixes, in_subtree, lemma_str_lt_irrefl,
    lemma_str_lt_total, lemma_str_lt_trans, seg_name, str_le, str_lt,
};

verus! {

/// The pair of facts the map records about one group: its display name and
/// its collapsed flag.
pub type GroupEntry = (Seq<char>, bool);

/// No two groups in the sequence share a path.
pub open spec fn distinct_paths(s: Seq<Group>) -> bool {
    forall|i: int, j: int| 0 <= i < j < s.len() ==> s[i].path@ != s[j].path@
}

/// Some group in the sequence has the given path.
pub open spec fn hasp(s: Seq<Group>, q: Seq<char>) -> bool {
    exists|i: int| 0 <= i < s.len() && s[i].path@ == q
}

/// Index of the group with the given path (meaningful under `hasp` and
/// `distinct_paths`).
pub open spec fn idxp(s: Seq<Group>, q: Seq<char>) -> int {
    choose|i: int| 0 <= i < s.len() && s[i].path@ == q
}

/// The entry recorded for the given path.
pub open spec fn entp(s: Seq<Group>, q: Seq<char>) -> GroupEntry {
    (s[idxp(s, q)].name@, s[idxp(s, q)].collapsed)
}

/// The sequence of groups seen as a map from path to entry: the canonical
/// view of the group store.
pub open spec fn gmap_of(s: Seq<Group>) -> Map<Seq<char>, GroupEntry> {
    Map::new(|q: Seq<char>| hasp(s, q), |q: Seq<char>| entp(s, q))
}

pub proof fn lemma_idxp(s: Seq<Group>, i: int)
    requires
        distinct_paths(s),
        0 <= i < s.len(),
    ensures
        idxp(s, s[i].path@) == i,
        hasp(s, s[i].path@),
{
    let q = s[i].path@;
    assert(hasp(s, q));
    let j = idxp(s, q);
    assert(0 <= j < s.len() && s[j].path@ == q);
    if j != i {
        assert(s[i].path@ != s[j].path@);
    }
}

pub proof fn lemma_gmap_of(s: Seq<Group>)
    ensures
        forall|q: Seq<char>| #[trigger] gmap_of(s).contains_key(q) <==> hasp(s, q),
        forall|q: Seq<char>| hasp(s, q) ==> #[trigger] gmap_of(s)[q] == entp(s, q),
{
}

/// Appending a group with a fresh path: the effect on the map view.
pub proof fn lemma_push_entry(s: Seq<Group>, g: Group)
    requires
        distinct_paths(s),
        !hasp(s, g.path@),
    ensures
        distinct_paths(s.push(g)),
        forall|q: Seq<char>| #[trigger] hasp(s.push(g), q) <==> hasp(s, q) || q == g.path@,
        forall|q: Seq<char>| #[trigger] hasp(s, q) ==> entp(s.push(g), q) == entp(s, q),
        entp(s.push(g), g.path@) == (g.name@, g.collapsed),
{
    let s2 = s.push(g);
    assert forall|q: Seq<char>| #[trigger] hasp(s2, q) implies hasp(s, q) || q == g.path@ by {
        let i = choose|i: int| 0 <= i < s2.len() && s2[i].path@ == q;
        if i < s.len() {
            assert(s[i].path@ == q);
        }
    }
    assert forall|q: Seq<char>| hasp(s, q) || q == g.path@ implies #[trigger] hasp(s2, q) by {
        if hasp(s, q) {
            let i = choose|i: int| 0 <= i < s.len() && s[i].path@ == q;
            assert(s2[i].path@ == q);
        } else {
            assert(s2[s.len() as int].path@ == q);
        }
    }
    assert forall|i: int, j: int| 0 <= i < j < s2.len() implies s2[i].path@ != s2[j].path@ by {
        if j < s.len() {
        } else {
            assert(s2[j] == g);
            assert(s[i].path@ == s2[i].path@);
            assert(hasp(s, s[i].path@));
        }
    }
    assert forall|q: Seq<char>| #[trigger] hasp(s, q) implies entp(s2, q) == entp(s, q) by {
        let i = idxp(s, q);
        assert(0 <= i < s.len() && s[i].path@ == q);
        lemma_idxp(s, i);
        assert(s2[i] == s[i]);
        lemma_idxp(s2, i);
    }
    lemma_idxp(s2, s.len() as int);
}

/// The strict order derived siblings are kept in: by name ascending, with
/// ties between equal names broken by path (paths are unique, so the order
/// is total on any sibling list).
pub open spec fn node_lt(a: Group, b: Group) -> bool {
    str_lt(a.name@, b.name@) || (a.name@ == b.name@ && str_lt(a.path@, b.path@))
}

/// The sequence ascends strictly in the sibling order.
pub open spec fn sorted_nodes(s: Seq<Group>) -> bool {
    forall|i: int, j: int| 0 <= i < j < s.len() ==> node_lt(s[i], s[j])
}

pub proof fn lemma_node_lt_total(a: Group, b: Group)
    requires
        a.path@ != b.path@,
    ensures
        node_lt(a, b) || node_lt(b, a),
{
    lemma_str_lt_total(a.name@, b.name@);
    if a.name@ == b.name@ {
        lemma_str_lt_total(a.path@, b.path@);
    }
}

pub proof fn lemma_node_lt_trans(a: Group, b: Group, c: Group)
    requires
        node_lt(a, b),
        node_lt(b, c),
    ensures
        node_lt(a, c),
{
    if a.name@ == b.name@ && b.name@ == c.name@ {
        lemma_str_lt_irrefl(a.name@);
        lemma_str_lt_trans(a.path@, b.path@, c.path@);
    } else if str_lt(a.name@, b.name@) && str_lt(b.name@, c.name@) {
        lemma_str_lt_trans(a.name@, b.name@, c.name@);
    }
}

pub proof fn lemma_node_lt_asymm(a: Group, b: Group)
    requires
        node_lt(a, b),
    ensures
        !node_lt(b, a),
{
    lemma_str_lt_irrefl(a.name@);
    lemma_str_lt_irrefl(a.path@);
    if str_lt(a.name@, b.name@) && str_lt(b.name@, a.name@) {
        lemma_str_lt_trans(a.name@, b.name@, a.name@);
    }
    if str_lt(a.path@, b.path@) && str_lt(b.path@, a.path@) {
        lemma_str_lt_trans(a.path@, b.path@, a.path@);
    }
}

/// Paths are weakly ascending along the sequence.
pub open spec fn sorted_paths(s: Seq<Group>) -> bool {
    forall|i: int, j: int| 0 <= i < j < s.len() ==> str_le(s[i].path@, s[j].path@)
}

/// The derived node `g` faithfully reflects the map `m`: its own entry is
/// in `m`, and its `children` are exactly the direct-child paths of its
/// path in `m`, in the sibling order, each faithful in turn.
pub open spec fn node_ok(m: Map<Seq<char>, GroupEntry>, g: Group) -> bool
    decreases g, 0int,
{
    &&& m.contains_key(g.path@)
    &&& m[g.path@] == (g.name@, g.collapsed)
    &&& sorted_nodes(g.children@)
    &&& distinct_paths(g.children@)
    &&& (forall|i: int| 0 <= i < g.children@.len() ==> is_direct_child(
        g.path@,
        (#[trigger] g.children@[i]).path@,
    ))
    &&& (forall|q: Seq<char>| #[trigger] m.contains_key(q) && is_direct_child(g.path@, q)
        ==> hasp(g.children@, q))
    &&& nodes_ok(m, g.children@, 0)
}

/// Every node of the sequence from position `i` on is faithful to `m`.
pub open spec fn nodes_ok(m: Map<Seq<char>, GroupEntry>, cs: Seq<Group>, i: int) -> bool
    decreases cs, cs.len() - i,
{
    if i < 0 || i >= cs.len() {
        true
    } else {
        node_ok(m, cs[i]) && nodes_ok(m, cs, i + 1)
    }
}

pub proof fn lemma_nodes_ok_iff(m: Map<Seq<char>, GroupEntry>, cs: Seq<Group>, k: int)
    requires
        0 <= k <= cs.len(),
    ensures
        nodes_ok(m, cs, k) <==> (forall|i: int| k <= i < cs.len() ==> node_ok(
            m,
            #[trigger] cs[i],
        )),
    decreases cs.len() - k,
{
    if k < cs.len() {
        lemma_nodes_ok_iff(m, cs, k + 1);
    }
}

/// The derived list of roots faithfully reflects the map: exactly the
/// slash-free paths of `m`, in the sibling order, each subtree faithful.
pub open spec fn roots_ok(m: Map<Seq<char>, GroupEntry>, rs: Seq<Group>) -> bool {
    &&& sorted_nodes(rs)
    &&& distinct_paths(rs)
    &&& (forall|i: int| 0 <= i < rs.len() ==> is_root_path((#[trigger] rs[i]).path@) && node_ok(
        m,
        rs[i],
    ))
    &&& (forall|q: Seq<char>| #[trigger] m.contains_key(q) && is_root_path(q) ==> hasp(rs, q))
}

/// The map after materializing path `p`: `p` and its ancestors are present,
/// fresh ones uncollapsed and named by their last segment; everything that
/// was present is unchanged.
pub open spec fn created_map(m: Map<Seq<char>, GroupEntry>, p: Seq<char>) -> Map<
    Seq<char>,
    GroupEntry,
> {
    Map::new(
        |q: Seq<char>| m.contains_key(q) || in_prefixes(p, q),
        |q: Seq<char>|
            if m.contains_key(q) {
                m[q]
            } else {
                (seg_name(q), false)
            },
    )
}

/// Materializing a path is idempotent: the first call brings `p` into the
/// map, and materializing into a map that already holds `p` and its
/// ancestors changes nothing, so applying it twice yields the same map as
/// applying it once.
pub proof fn lemma_create_group_idempotent(m: Map<Seq<char>, GroupEntry>, p: Seq<char>)
    ensures
        created_map(m, p).contains_key(p),
        created_map(created_map(m, p), p) == created_map(m, p),
{
    assert(created_map(created_map(m, p), p) =~= created_map(m, p));
}


/// The derived tree's mathematical shadow, over character sequences.
pub struct NodeModel {
    pub path: Seq<char>,
    pub name: Seq<char>,
    pub collapsed: bool,
    pub children: Seq<NodeModel>,
}

pub open spec fn node_model(g: Group) -> NodeModel
    decreases g, 0int,
{
    NodeModel {
        path: g.path@,
        name: g.name@,
        collapsed: g.collapsed,
        children: nodes_model(g.children@, g.children@.len() as int),
    }
}

/// The shadows of the first `i` nodes of a sibling list.
pub open spec fn nodes_model(cs: Seq<Group>, i: int) -> Seq<NodeModel>
    decreases cs, i,
{
    if i <= 0 || i > cs.len() {
        Seq::empty()
    } else {
        nodes_model(cs, i - 1).push(node_model(cs[i - 1]))
    }
}

pub proof fn lemma_nodes_model(cs: Seq<Group>, i: int)
    requires
        0 <= i <= cs.len(),
    ensures
        nodes_model(cs, i).len() == i,
        forall|j: int| 0 <= j < i ==> #[trigger] nodes_model(cs, i)[j] == node_model(cs[j]),
    decreases i,
{
    if i > 0 {
        lemma_nodes_model(cs, i - 1);
    }
}

/// Two faithful nodes at the same path have the same derived shape: the map
/// determines the subtree.
pub proof fn lemma_node_determined(
    m: Map<Seq<char>, GroupEntry>,
    g1: Group,
    g2: Group,
    maxlen: nat,
)
    requires
        node_ok(m, g1),
        node_ok(m, g2),
        g1.path@ == g2.path@,
        forall|q: Seq<char>| #[trigger] m.contains_key(q) ==> q.len() <= maxlen,
    ensures
        node_model(g1) == node_model(g2),
    decreases maxlen - g1.path@.len(), 1int, 0int,
{
    assert(g1.path@.len() <= maxlen);
    let cs1 = g1.children@;
    let cs2 = g2.children@;
    lemma_nodes_ok_iff(m, cs1, 0);
    lemma_nodes_ok_iff(m, cs2, 0);
    assert forall|q: Seq<char>| #[trigger] hasp(cs1, q) implies hasp(cs2, q) by {
        let i = choose|i: int| 0 <= i < cs1.len() && cs1[i].path@ == q;
        assert(node_ok(m, cs1[i]));
        assert(is_direct_child(g1.path@, cs1[i].path@));
        assert(m.contains_key(q));
    }
    assert forall|q: Seq<char>| #[trigger] hasp(cs2, q) implies hasp(cs1, q) by {
        let i = choose|i: int| 0 <= i < cs2.len() && cs2[i].path@ == q;
        assert(node_ok(m, cs2[i]));
        assert(is_direct_child(g2.path@, cs2[i].path@));
        assert(m.contains_key(q));
    }
    assert forall|i: int| 0 <= i < cs1.len() implies (#[trigger] cs1[i]).path@.len() >= g1.path@.len()
        + 1 by {
        assert(is_direct_child(g1.path@, cs1[i].path@));
    }
    lemma_lists_determined(m, cs1, cs2, maxlen, (g1.path@.len() + 1) as nat);
}

/// Two sibling-ordered, faithful lists with the same member paths have the
/// same derived shapes, position by position.
pub proof fn lemma_lists_determined(
    m: Map<Seq<char>, GroupEntry>,
    cs1: Seq<Group>,
    cs2: Seq<Group>,
    maxlen: nat,
    low: nat,
)
    requires
        sorted_nodes(cs1),
        sorted_nodes(cs2),
        distinct_paths(cs1),
        distinct_paths(cs2),
        forall|i: int| 0 <= i < cs1.len() ==> node_ok(m, #[trigger] cs1[i]),
        forall|i: int| 0 <= i < cs2.len() ==> node_ok(m, #[trigger] cs2[i]),
        forall|q: Seq<char>| #[trigger] hasp(cs1, q) <==> hasp(cs2, q),
        forall|q: Seq<char>| #[trigger] m.contains_key(q) ==> q.len() <= maxlen,
        forall|i: int| 0 <= i < cs1.len() ==> (#[trigger] cs1[i]).path@.len() >= low,
        low <= maxlen + 1,
    ensures
        nodes_model(cs1, cs1.len() as int) == nodes_model(cs2, cs2.len() as int),
    decreases maxlen + 1 - low, 0int, cs1.len(),
{
    if cs1.len() == 0 {
        if cs2.len() > 0 {
            assert(hasp(cs2, cs2[0].path@));
            assert(hasp(cs1, cs2[0].path@));
            assert(false);
        }
        assert(nodes_model(cs1, 0) =~= nodes_model(cs2, 0));
    } else {
        assert(hasp(cs1, cs1[0].path@));
        assert(hasp(cs2, cs1[0].path@));
        assert(cs2.len() > 0);
        let a = cs1[0];
        let b = cs2[0];
        if a.path@ != b.path@ {
            let j = choose|j: int| 0 <= j < cs2.len() && cs2[j].path@ == a.path@;
            assert(j != 0);
            assert(hasp(cs2, b.path@));
            assert(hasp(cs1, b.path@));
            let i = choose|i: int| 0 <= i < cs1.len() && cs1[i].path@ == b.path@;
            assert(i != 0);
            // entries at the same path carry the same name, read off the map
            assert(node_ok(m, cs2[j]) && node_ok(m, a));
            assert(cs2[j].name@ == m[a.path@].0 && a.name@ == m[a.path@].0);
            assert(node_ok(m, cs1[i]) && node_ok(m, b));
            assert(cs1[i].name@ == m[b.path@].0 && b.name@ == m[b.path@].0);
            assert(node_lt(b, cs2[j]));
            assert(node_lt(b, a));
            assert(node_lt(a, cs1[i]));
            assert(node_lt(a, b));
            lemma_node_lt_asymm(a, b);
            assert(false);
        }
        assert(a.path@.len() >= low);
        lemma_node_determined(m, a, b, maxlen);
        let t1 = cs1.drop_first();
        let t2 = cs2.drop_first();
        assert forall|i: int| 0 <= i < t1.len() implies t1[i] == cs1[i + 1] by {}
        assert forall|i: int| 0 <= i < t2.len() implies t2[i] == cs2[i + 1] by {}
        assert forall|q: Seq<char>| #[trigger] hasp(t1, q) implies hasp(t2, q) by {
            let i = choose|i: int| 0 <= i < t1.len() && t1[i].path@ == q;
            assert(cs1[i + 1].path@ == q);
            assert(hasp(cs1, q));
            assert(q != a.path@);
            assert(hasp(cs2, q));
            let j = choose|j: int| 0 <= j < cs2.len() && cs2[j].path@ == q;
            assert(j != 0);
            assert(t2[j - 1].path@ == q);
        }
        assert forall|q: Seq<char>| #[trigger] hasp(t2, q) implies hasp(t1, q) by {
            let i = choose|i: int| 0 <= i < t2.len() && t2[i].path@ == q;
            assert(cs2[i + 1].path@ == q);
            assert(hasp(cs2, q));
            assert(q != b.path@);
            assert(hasp(cs1, q));
            let j = choose|j: int| 0 <= j < cs1.len() && cs1[j].path@ == q;
            assert(j != 0);
            assert(t1[j - 1].path@ == q);
        }
        lemma_lists_determined(m, t1, t2, maxlen, low);
        assert(t1.len() == nodes_model(t1, t1.len() as int).len()) by {
            lemma_nodes_model(t1, t1.len() as int);
        }
        assert(t2.len() == nodes_model(t2, t2.len() as int).len()) by {
            lemma_nodes_model(t2, t2.len() as int);
        }
        assert(cs1.len() == cs2.len());
        lemma_nodes_model(cs1, cs1.len() as int);
        lemma_nodes_model(cs2, cs2.len() as int);
        lemma_nodes_model(t1, t1.len() as int);
        lemma_nodes_model(t2, t2.len() as int);
        assert forall|k: int| 0 <= k < cs1.len() implies nodes_model(cs1, cs1.len() as int)[k]
            == nodes_model(cs2, cs2.len() as int)[k] by {
            if k == 0 {
                assert(nodes_model(cs1, cs1.len() as int)[0] == node_model(a));
                assert(nodes_model(cs2, cs2.len() as int)[0] == node_model(b));
            } else {
                assert(nodes_model(cs1, cs1.len() as int)[k] == node_model(cs1[k]));
                assert(node_model(cs1[k]) == node_model(t1[k - 1]));
                assert(nodes_model(t1, t1.len() as int)[k - 1] == node_model(t1[k - 1]));
                assert(nodes_model(t2, t2.len() as int)[k - 1] == node_model(t2[k - 1]));
                assert(node_model(t2[k - 1]) == node_model(cs2[k]));
                assert(nodes_model(cs2, cs2.len() as int)[k] == node_model(cs2[k]));
            }
        }
        assert(nodes_model(cs1, cs1.len() as int) =~= nodes_model(cs2, cs2.len() as int));
    }
}

/// The map after deleting path `p`: exactly `p` and every path below it are
/// gone; everything else is unchanged.
pub open spec fn deleted_map(m: Map<Seq<char>, GroupEntry>, p: Seq<char>) -> Map<
    Seq<char>,
    GroupEntry,
> {
    Map::new(|q: Seq<char>| m.contains_key(q) && !in_subtree(p, q), |q: Seq<char>| m[q])
}

/// Group `q` is brought into the map by one of the first `upto` instances:
/// the instance carries a non-empty group path, and `q` is that path or one
/// of its ancestors.
pub open spec fn added_by(inst: Seq<Instance>, upto: int, q: Seq<char>) -> bool {
    exists|j: int|
        0 <= j < upto && (#[trigger] inst[j]).group_path@.len() > 0 && in_prefixes(
            inst[j].group_path@,
            q,
        )
}

/// Group `q` is auto-materialized by some instance during construction.
pub open spec fn materialized(inst: Seq<Instance>, q: Seq<char>) -> bool {
    added_by(inst, inst.len() as int, q)
}

/// Longest path length in the store; bounds the depth of the derived tree.
pub open spec fn max_plen(s: Seq<Group>) -> nat
    decreases s.len(),
{
    if s.len() == 0 {
        0
    } else {
        let rest = max_plen(s.drop_first());
        if s[0].path@.len() >= rest {
            s[0].path@.len()
        } else {
            rest
        }
    }
}

pub proof fn lemma_max_plen(s: Seq<Group>, i: int)
    requires
        0 <= i < s.len(),
    ensures
        s[i].path@.len() <= max_plen(s),
    decreases i,
{
    if i > 0 {
        lemma_max_plen(s.drop_first(), i - 1);
        assert(s.drop_first()[i - 1] == s[i]);
    }
}

} // verus!

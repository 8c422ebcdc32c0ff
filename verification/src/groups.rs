//! The group tree: a flat map from slash-delimited path to group metadata
//! as the single source of truth, plus a derived tree of root groups with
//! sorted children, rebuilt after every mutation.

use vstd::prelude::*;

use crate::instance::Instance;
use crate::model::{
    created_map, deleted_map, distinct_paths, entp, gmap_of, hasp, idxp, lemma_gmap_of, lemma_idxp,
    lemma_lists_determined, lemma_max_plen, lemma_node_lt_total, lemma_node_lt_trans,
    lemma_nodes_ok_iff, lemma_push_entry, materialized, max_plen, node_lt, node_ok, nodes_model,
    roots_ok, sorted_nodes, sorted_paths, GroupEntry, NodeModel,
};
use crate::paths::{
    in_prefixes, in_subtree, is_direct_child, is_proper_ancestor, is_root_path, lemma_str_le_trans,
    lemma_str_lt_total, seg_name, seg_name_exec, str_eq, str_has_slash, str_in_subtree,
    str_is_direct_child, str_le, str_le_exec, str_lt, str_lt_exec,
};

verus! {

/// A named node of the hierarchy, identified by its full slash-delimited
/// path. `children` is derived data, recomputed on every tree rebuild and
/// never persisted.
#[derive(Debug)]
pub struct Group {
    pub name: String,
    pub path: String,
    pub collapsed: bool,
    pub children: Vec<Group>,
}

impl Group {
    /// A fresh group with the given name and full path, not collapsed and
    /// with no derived children yet.
    pub fn new(name: &str, path: &str) -> (g: Group)
        ensures
            g.name@ == name@,
            g.path@ == path@,
            !g.collapsed,
            g.children@.len() == 0,
    {
        Group {
            name: String::from_str(name),
            path: String::from_str(path),
            collapsed: false,
            children: Vec::new(),
        }
    }
}

/// A copy of one stored entry, with the derived `children` left empty.
fn copy_entry(g: &Group) -> (r: Group)
    ensures
        r.name@ == g.name@,
        r.path@ == g.path@,
        r.collapsed == g.collapsed,
        r.children@.len() == 0,
{
    Group {
        name: g.name.clone(),
        path: g.path.clone(),
        collapsed: g.collapsed,
        children: Vec::new(),
    }
}

fn find_idx(groups: &Vec<Group>, path: &str) -> (r: Option<usize>)
    ensures
        match r {
            Some(i) => i < groups@.len() && groups@[i as int].path@ == path@,
            None => !hasp(groups@, path@),
        },
{
    let mut i: usize = 0;
    while i < groups.len()
        invariant
            i <= groups@.len(),
            forall|j: int| 0 <= j < i ==> groups@[j].path@ != path@,
        decreases groups@.len() - i,
    {
        if str_eq(groups[i].path.as_str(), path) {
            return Some(i);
        }
        i = i + 1;
    }
    None
}

fn contains_path(groups: &Vec<Group>, path: &str) -> (r: bool)
    ensures
        r == hasp(groups@, path@),
{
    match find_idx(groups, path) {
        Some(i) => {
            proof {
                assert(groups@[i as int].path@ == path@);
            }
            true
        },
        None => false,
    }
}

fn node_lt_exec(a: &Group, b: &Group) -> (r: bool)
    ensures
        r == node_lt(*a, *b),
{
    if str_lt_exec(a.name.as_str(), b.name.as_str()) {
        true
    } else if str_eq(a.name.as_str(), b.name.as_str()) {
        str_lt_exec(a.path.as_str(), b.path.as_str())
    } else {
        false
    }
}

fn find_pos_by_node(v: &Vec<Group>, g: &Group) -> (k: usize)
    ensures
        k <= v@.len(),
        forall|i: int| 0 <= i < k ==> node_lt(v@[i], *g),
        k < v@.len() ==> !node_lt(v@[k as int], *g),
{
    let mut k: usize = 0;
    while k < v.len()
        invariant
            k <= v@.len(),
            forall|i: int| 0 <= i < k ==> node_lt(v@[i], *g),
        decreases v@.len() - k,
    {
        if !node_lt_exec(&v[k], g) {
            return k;
        }
        k = k + 1;
    }
    k
}

/// Insert `g` into a sibling-ordered vector with a path it does not yet
/// hold, keeping the order.
fn insert_by_name(v: &mut Vec<Group>, g: Group)
    requires
        sorted_nodes(old(v)@),
        !hasp(old(v)@, g.path@),
    ensures
        final(v)@.len() == old(v)@.len() + 1,
        sorted_nodes(final(v)@),
        forall|x: Group| #[trigger] final(v)@.contains(x) <==> old(v)@.contains(x) || x == g,
        forall|q: Seq<char>| #[trigger] hasp(final(v)@, q) <==> hasp(old(v)@, q) || q == g.path@,
        distinct_paths(old(v)@) ==> distinct_paths(final(v)@),
{
    let ghost s = old(v)@;
    let ghost gg = g;
    let k = find_pos_by_node(v, &g);
    v.insert(k, g);
    proof {
        s.insert_ensures(k as int, gg);
        let t = v@;
        assert(t == s.insert(k as int, gg));
        assert forall|i: int| 0 <= i < t.len() implies t[i] == (if i < k {
            s[i]
        } else if i == k {
            gg
        } else {
            s[i - 1]
        }) by {
            if i < k {
                assert(s.insert(k as int, gg)[i] == s[i]);
            } else if i > k {
                assert(s.insert(k as int, gg)[(i - 1) + 1] == s[i - 1]);
            }
        }
        if (k as int) < s.len() {
            assert(s[k as int].path@ != gg.path@) by {
                if s[k as int].path@ == gg.path@ {
                    assert(hasp(s, gg.path@));
                }
            }
            lemma_node_lt_total(s[k as int], gg);
            assert(node_lt(gg, s[k as int]));
        }
        assert forall|i: int, j: int| 0 <= i < j < t.len() implies node_lt(t[i], t[j]) by {
            if i < k && j == k {
                assert(node_lt(s[i], gg));
            } else if i == k && j > k {
                if j - 1 > k {
                    lemma_node_lt_trans(gg, s[k as int], s[j - 1]);
                }
            } else if i < k && j > k {
                assert(node_lt(s[i], s[j - 1]));
            }
        }
        assert forall|x: Group| #[trigger] t.contains(x) implies s.contains(x) || x == gg by {
            let i = choose|i: int| 0 <= i < t.len() && t[i] == x;
            if i < k {
                assert(s[i] == x);
            } else if i > k {
                assert(s[i - 1] == x);
            }
        }
        assert forall|x: Group| s.contains(x) || x == gg implies #[trigger] t.contains(x) by {
            if s.contains(x) {
                let i = choose|i: int| 0 <= i < s.len() && s[i] == x;
                if i < k {
                    assert(t[i] == x);
                } else {
                    assert(t[i + 1] == x);
                }
            } else {
                assert(t[k as int] == x);
            }
        }
        assert forall|q: Seq<char>| #[trigger] hasp(t, q) implies hasp(s, q) || q == gg.path@ by {
            let i = choose|i: int| 0 <= i < t.len() && t[i].path@ == q;
            if i < k {
                assert(s[i].path@ == q);
            } else if i > k {
                assert(s[i - 1].path@ == q);
            }
        }
        assert forall|q: Seq<char>| hasp(s, q) || q == gg.path@ implies #[trigger] hasp(t, q) by {
            if hasp(s, q) {
                let i = choose|i: int| 0 <= i < s.len() && s[i].path@ == q;
                if i < k {
                    assert(t[i].path@ == q);
                } else {
                    assert(t[i + 1].path@ == q);
                }
            } else {
                assert(t[k as int].path@ == q);
            }
        }
        if distinct_paths(s) {
            assert forall|i: int, j: int| 0 <= i < j < t.len() implies t[i].path@ != t[j].path@ by {
                if i == k {
                    assert(t[j] == s[j - 1]);
                    assert(hasp(s, s[j - 1].path@));
                } else if j == k {
                    assert(t[i] == s[i]);
                    assert(hasp(s, s[i].path@));
                }
            }
        }
    }
}

fn find_pos_by_path(v: &Vec<Group>, path: &str) -> (k: usize)
    ensures
        k <= v@.len(),
        forall|i: int| 0 <= i < k ==> str_lt(v@[i].path@, path@),
        k < v@.len() ==> str_le(path@, v@[k as int].path@),
{
    let mut k: usize = 0;
    while k < v.len()
        invariant
            k <= v@.len(),
            forall|i: int| 0 <= i < k ==> str_lt(v@[i].path@, path@),
        decreases v@.len() - k,
    {
        if str_le_exec(path, v[k].path.as_str()) {
            return k;
        }
        proof {
            lemma_str_lt_total(path@, v@[k as int].path@);
        }
        k = k + 1;
    }
    k
}

/// Insert `g` into a path-sorted vector, keeping it sorted.
fn insert_by_path(v: &mut Vec<Group>, g: Group)
    requires
        sorted_paths(old(v)@),
    ensures
        final(v)@.len() == old(v)@.len() + 1,
        sorted_paths(final(v)@),
        forall|x: Group| #[trigger] final(v)@.contains(x) <==> old(v)@.contains(x) || x == g,
        forall|q: Seq<char>| #[trigger] hasp(final(v)@, q) <==> hasp(old(v)@, q) || q == g.path@,
        distinct_paths(old(v)@) && !hasp(old(v)@, g.path@) ==> distinct_paths(final(v)@),
{
    let ghost s = old(v)@;
    let ghost gg = g;
    let k = find_pos_by_path(v, g.path.as_str());
    v.insert(k, g);
    proof {
        s.insert_ensures(k as int, gg);
        let t = v@;
        assert forall|i: int| 0 <= i < t.len() implies t[i] == (if i < k {
            s[i]
        } else if i == k {
            gg
        } else {
            s[i - 1]
        }) by {
            if i < k {
                assert(s.insert(k as int, gg)[i] == s[i]);
            } else if i > k {
                assert(s.insert(k as int, gg)[(i - 1) + 1] == s[i - 1]);
            }
        }
        assert forall|i: int, j: int| 0 <= i < j < t.len() implies str_le(
            t[i].path@,
            t[j].path@,
        ) by {
            if i < k && j == k {
                assert(str_lt(s[i].path@, gg.path@));
            } else if i == k && j > k {
                assert(str_le(gg.path@, s[k as int].path@));
                if j - 1 > k {
                    lemma_str_le_trans(gg.path@, s[k as int].path@, s[j - 1].path@);
                }
            } else if i < k && j > k {
                assert(str_le(s[i].path@, s[j - 1].path@));
            }
        }
        assert forall|x: Group| #[trigger] t.contains(x) implies s.contains(x) || x == gg by {
            let i = choose|i: int| 0 <= i < t.len() && t[i] == x;
            if i < k {
                assert(s[i] == x);
            } else if i > k {
                assert(s[i - 1] == x);
            }
        }
        assert forall|x: Group| s.contains(x) || x == gg implies #[trigger] t.contains(x) by {
            if s.contains(x) {
                let i = choose|i: int| 0 <= i < s.len() && s[i] == x;
                if i < k {
                    assert(t[i] == x);
                } else {
                    assert(t[i + 1] == x);
                }
            } else {
                assert(t[k as int] == x);
            }
        }
        assert forall|q: Seq<char>| #[trigger] hasp(t, q) implies hasp(s, q) || q == gg.path@ by {
            let i = choose|i: int| 0 <= i < t.len() && t[i].path@ == q;
            if i < k {
                assert(s[i].path@ == q);
            } else if i > k {
                assert(s[i - 1].path@ == q);
            }
        }
        assert forall|q: Seq<char>| hasp(s, q) || q == gg.path@ implies #[trigger] hasp(t, q) by {
            if hasp(s, q) {
                let i = choose|i: int| 0 <= i < s.len() && s[i].path@ == q;
                if i < k {
                    assert(t[i].path@ == q);
                } else {
                    assert(t[i + 1].path@ == q);
                }
            } else {
                assert(t[k as int].path@ == q);
            }
        }
        if distinct_paths(s) && !hasp(s, gg.path@) {
            assert forall|i: int, j: int| 0 <= i < j < t.len() implies t[i].path@ != t[j].path@ by {
                if i == k {
                    assert(t[j] == s[j - 1]);
                    assert(hasp(s, s[j - 1].path@));
                } else if j == k {
                    assert(t[i] == s[i]);
                    assert(hasp(s, s[i].path@));
                }
            }
        }
    }
}

/// Materialize `path` and its ancestors in the store: every missing
/// slash-boundary prefix is inserted, named by its last segment and not
/// collapsed; entries that are already present are never overwritten, even
/// when the full path itself is.
fn ensure_group_exists(groups: &mut Vec<Group>, path: &str)
    requires
        distinct_paths(old(groups)@),
    ensures
        distinct_paths(final(groups)@),
        forall|q: Seq<char>|
            #[trigger] hasp(final(groups)@, q) <==> hasp(old(groups)@, q) || in_prefixes(path@, q),
        forall|q: Seq<char>|
            #[trigger] hasp(old(groups)@, q) ==> entp(final(groups)@, q) == entp(old(groups)@, q),
        forall|q: Seq<char>|
            !hasp(old(groups)@, q) && #[trigger] hasp(final(groups)@, q) ==> entp(
                final(groups)@,
                q,
            ) == (seg_name(q), false),
{
    let n = path.unicode_len();
    let mut i: usize = 0;
    while i < n
        invariant
            i <= n,
            n == path@.len(),
            distinct_paths(groups@),
            forall|q: Seq<char>|
                #[trigger] hasp(groups@, q) <==> hasp(old(groups)@, q) || (is_proper_ancestor(
                    q,
                    path@,
                ) && q.len() < i),
            forall|q: Seq<char>|
                #[trigger] hasp(old(groups)@, q) ==> entp(groups@, q) == entp(old(groups)@, q),
            forall|q: Seq<char>|
                !hasp(old(groups)@, q) && #[trigger] hasp(groups@, q) ==> entp(groups@, q) == (
                seg_name(q),
                false,
                ),
        decreases n - i,
    {
        if path.get_char(i) == '/' {
            let pre = path.substring_char(0, i);
            proof {
                assert(pre@ == path@.subrange(0, i as int));
                assert(is_proper_ancestor(pre@, path@));
            }
            if !contains_path(groups, pre) {
                let name = seg_name_exec(pre);
                let g = Group::new(name.as_str(), pre);
                let ghost before = groups@;
                let ghost gname = g.name@;
                let ghost gpath = g.path@;
                proof {
                    lemma_push_entry(before, g);
                }
                groups.push(g);
                proof {
                    assert forall|q: Seq<char>| #[trigger] hasp(old(groups)@, q) implies entp(
                        groups@,
                        q,
                    ) == entp(old(groups)@, q) by {
                        assert(hasp(before, q));
                    }
                    assert forall|q: Seq<char>|
                        !hasp(old(groups)@, q) && #[trigger] hasp(groups@, q) implies entp(
                        groups@,
                        q,
                    ) == (seg_name(q), false) by {
                        if q == gpath {
                            assert(entp(groups@, q) == (gname, false));
                            assert(gname == seg_name(q));
                        } else {
                            assert(hasp(before, q));
                        }
                    }
                    assert forall|q: Seq<char>| #[trigger] hasp(groups@, q) implies hasp(
                        old(groups)@,
                        q,
                    ) || (is_proper_ancestor(q, path@) && q.len() < i + 1) by {
                        if q == pre@ {
                            assert(pre@.len() == i);
                        }
                    }
                    assert forall|q: Seq<char>|
                        hasp(old(groups)@, q) || (is_proper_ancestor(q, path@) && q.len() < i
                            + 1) implies #[trigger] hasp(groups@, q) by {
                        if !hasp(old(groups)@, q) && is_proper_ancestor(q, path@) && q.len() == i {
                            assert(q == path@.subrange(0, i as int));
                            assert(q == pre@);
                        }
                    }
                }
            } else {
                proof {
                    assert forall|q: Seq<char>|
                        hasp(old(groups)@, q) || (is_proper_ancestor(q, path@) && q.len() < i
                            + 1) implies #[trigger] hasp(groups@, q) by {
                        if !hasp(old(groups)@, q) && is_proper_ancestor(q, path@) && q.len() == i {
                            assert(q == path@.subrange(0, i as int));
                            assert(q == pre@);
                        }
                    }
                }
            }
        } else {
            proof {
                assert forall|q: Seq<char>|
                    hasp(old(groups)@, q) || (is_proper_ancestor(q, path@) && q.len() < i
                        + 1) implies #[trigger] hasp(groups@, q) by {
                    if is_proper_ancestor(q, path@) && q.len() == i {
                        assert(path@[i as int] == '/');
                    }
                }
            }
        }
        i = i + 1;
    }
    if !contains_path(groups, path) {
        let name = seg_name_exec(path);
        let g = Group::new(name.as_str(), path);
        let ghost before = groups@;
        let ghost gname = g.name@;
        let ghost gpath = g.path@;
        proof {
            lemma_push_entry(before, g);
        }
        groups.push(g);
        proof {
            assert forall|q: Seq<char>| #[trigger] hasp(old(groups)@, q) implies entp(groups@, q)
                == entp(old(groups)@, q) by {
                assert(hasp(before, q));
            }
            assert forall|q: Seq<char>|
                !hasp(old(groups)@, q) && #[trigger] hasp(groups@, q) implies entp(groups@, q) == (
                seg_name(q),
                false,
            ) by {
                if q == gpath {
                    assert(entp(groups@, q) == (gname, false));
                    assert(gname == seg_name(q));
                } else {
                    assert(hasp(before, q));
                }
            }
        }
    }
    proof {
        assert forall|q: Seq<char>| #[trigger] hasp(groups@, q) implies hasp(old(groups)@, q)
            || in_prefixes(path@, q) by {}
        assert forall|q: Seq<char>|
            hasp(old(groups)@, q) || in_prefixes(path@, q) implies #[trigger] hasp(
            groups@,
            q,
        ) by {
            if in_prefixes(path@, q) && q != path@ {
                assert(is_proper_ancestor(q, path@) && q.len() < n);
            }
        }
    }
}

/// Build the derived node for the stored group with the given data: its
/// children are exactly the direct-child entries of `path`, sorted by
/// name, each built recursively.
fn build_node(groups: &Vec<Group>, path: &str, name: &str, collapsed: bool) -> (g: Group)
    requires
        distinct_paths(groups@),
        hasp(groups@, path@),
        entp(groups@, path@) == (name@, collapsed),
    ensures
        node_ok(gmap_of(groups@), g),
        g.path@ == path@,
        g.name@ == name@,
        g.collapsed == collapsed,
    decreases max_plen(groups@) - path@.len(),
{
    let ghost m = gmap_of(groups@);
    proof {
        lemma_gmap_of(groups@);
    }
    let mut kids: Vec<Group> = Vec::new();
    let mut j: usize = 0;
    while j < groups.len()
        invariant
            j <= groups@.len(),
            distinct_paths(groups@),
            hasp(groups@, path@),
            m == gmap_of(groups@),
            sorted_nodes(kids@),
            distinct_paths(kids@),
            forall|x: Group|
                #[trigger] kids@.contains(x) ==> is_direct_child(path@, x.path@) && node_ok(m, x),
            forall|q: Seq<char>|
                #[trigger] hasp(kids@, q) <==> (exists|j2: int|
                    0 <= j2 < j && (#[trigger] groups@[j2]).path@ == q && is_direct_child(
                        path@,
                        q,
                    )),
        decreases groups@.len() - j,
    {
        if str_is_direct_child(path, groups[j].path.as_str()) {
            proof {
                lemma_idxp(groups@, j as int);
                lemma_max_plen(groups@, j as int);
                assert(groups@[j as int].path@.len() > path@.len());
            }
            let child = build_node(
                groups,
                groups[j].path.as_str(),
                groups[j].name.as_str(),
                groups[j].collapsed,
            );
            proof {
                assert(!hasp(kids@, child.path@));
            }
            insert_by_name(&mut kids, child);
            proof {
                assert forall|q: Seq<char>| #[trigger] hasp(kids@, q) implies (exists|j2: int|
                    0 <= j2 < j + 1 && (#[trigger] groups@[j2]).path@ == q && is_direct_child(
                        path@,
                        q,
                    )) by {
                    if q == child.path@ {
                        assert(groups@[j as int].path@ == q);
                    }
                }
            }
        } else {
            proof {
                assert forall|q: Seq<char>|
                    (exists|j2: int|
                        0 <= j2 < j + 1 && (#[trigger] groups@[j2]).path@ == q && is_direct_child(
                            path@,
                            q,
                        )) implies #[trigger] hasp(kids@, q) by {
                    let j2 = choose|j2: int|
                        0 <= j2 < j + 1 && (#[trigger] groups@[j2]).path@ == q && is_direct_child(
                            path@,
                            q,
                        );
                    assert(j2 < j);
                }
            }
        }
        j = j + 1;
    }
    let g = Group {
        name: String::from_str(name),
        path: String::from_str(path),
        collapsed,
        children: kids,
    };
    proof {
        assert(m.contains_key(g.path@));
        assert(m[g.path@] == (g.name@, g.collapsed));
        assert forall|i: int| 0 <= i < g.children@.len() implies is_direct_child(
            g.path@,
            (#[trigger] g.children@[i]).path@,
        ) && node_ok(m, g.children@[i]) by {
            assert(g.children@.contains(g.children@[i]));
        }
        assert forall|q: Seq<char>| #[trigger] m.contains_key(q) && is_direct_child(
            g.path@,
            q,
        ) implies hasp(g.children@, q) by {
            assert(hasp(groups@, q));
            let i = choose|i: int| 0 <= i < groups@.len() && groups@[i].path@ == q;
            assert(groups@[i].path@ == q && is_direct_child(path@, q));
        }
        lemma_nodes_ok_iff(m, g.children@, 0);
        assert(node_ok(m, g));
    }
    g
}

/// Recompute the derived tree for the store: one node per slash-free path,
/// sorted by name.
fn rebuild(groups: &Vec<Group>) -> (roots: Vec<Group>)
    requires
        distinct_paths(groups@),
    ensures
        roots_ok(gmap_of(groups@), roots@),
{
    let ghost m = gmap_of(groups@);
    proof {
        lemma_gmap_of(groups@);
    }
    let mut roots: Vec<Group> = Vec::new();
    let mut j: usize = 0;
    while j < groups.len()
        invariant
            j <= groups@.len(),
            distinct_paths(groups@),
            m == gmap_of(groups@),
            sorted_nodes(roots@),
            distinct_paths(roots@),
            forall|x: Group|
                #[trigger] roots@.contains(x) ==> is_root_path(x.path@) && node_ok(m, x),
            forall|q: Seq<char>|
                #[trigger] hasp(roots@, q) <==> (exists|j2: int|
                    0 <= j2 < j && (#[trigger] groups@[j2]).path@ == q && is_root_path(q)),
        decreases groups@.len() - j,
    {
        if !str_has_slash(groups[j].path.as_str()) {
            proof {
                lemma_idxp(groups@, j as int);
            }
            let node = build_node(
                groups,
                groups[j].path.as_str(),
                groups[j].name.as_str(),
                groups[j].collapsed,
            );
            proof {
                assert(!hasp(roots@, node.path@));
            }
            insert_by_name(&mut roots, node);
            proof {
                assert forall|q: Seq<char>| #[trigger] hasp(roots@, q) implies (exists|j2: int|
                    0 <= j2 < j + 1 && (#[trigger] groups@[j2]).path@ == q && is_root_path(
                        q,
                    )) by {
                    if q == node.path@ {
                        assert(groups@[j as int].path@ == q);
                    }
                }
            }
        } else {
            proof {
                assert forall|q: Seq<char>|
                    (exists|j2: int|
                        0 <= j2 < j + 1 && (#[trigger] groups@[j2]).path@ == q && is_root_path(
                            q,
                        )) implies #[trigger] hasp(roots@, q) by {
                    let j2 = choose|j2: int|
                        0 <= j2 < j + 1 && (#[trigger] groups@[j2]).path@ == q && is_root_path(q);
                    assert(j2 < j);
                }
            }
        }
        j = j + 1;
    }
    proof {
        assert forall|i: int| 0 <= i < roots@.len() implies is_root_path(
            (#[trigger] roots@[i]).path@,
        ) && node_ok(m, roots@[i]) by {
            assert(roots@.contains(roots@[i]));
        }
        assert forall|q: Seq<char>| #[trigger] m.contains_key(q) && is_root_path(q) implies hasp(
            roots@,
            q,
        ) by {
            assert(hasp(groups@, q));
            let i = choose|i: int| 0 <= i < groups@.len() && groups@[i].path@ == q;
            assert(groups@[i].path@ == q && is_root_path(q));
        }
    }
    roots
}

/// The canonical map from path to group metadata, plus the derived list of
/// root groups with populated children.
#[derive(Debug)]
pub struct GroupTree {
    groups: Vec<Group>,
    roots: Vec<Group>,
}

impl GroupTree {
    /// The store seen as a map from path to (name, collapsed): the single
    /// source of truth every contract of this type speaks of.
    pub closed spec fn gmap(&self) -> Map<Seq<char>, GroupEntry> {
        gmap_of(self.groups@)
    }

    /// The derived root nodes, in their rendered order.
    pub closed spec fn roots_seq(&self) -> Seq<Group> {
        self.roots@
    }

    /// The derived tree's shape, as a pure value: what the rendered
    /// hierarchy looks like, independent of how the store is laid out.
    pub closed spec fn tree_view(&self) -> Seq<NodeModel> {
        nodes_model(self.roots@, self.roots@.len() as int)
    }

    /// Well-formed: paths are unique and the derived tree reflects the map.
    pub closed spec fn wf(&self) -> bool {
        &&& distinct_paths(self.groups@)
        &&& roots_ok(self.gmap(), self.roots@)
    }

    /// Build a tree from persisted groups and the sessions that reference
    /// groups: seed the map with the persisted entries, then materialize
    /// every non-empty `group_path` an instance carries, together with all
    /// of its ancestor prefixes, then derive the tree.
    pub fn new_with_groups(instances: &Vec<Instance>, existing_groups: &Vec<Group>) -> (tree:
        GroupTree)
        requires
            distinct_paths(existing_groups@),
        ensures
            tree.wf(),
            forall|q: Seq<char>|
                #[trigger] tree.gmap().contains_key(q) <==> hasp(existing_groups@, q)
                    || materialized(instances@, q),
            forall|q: Seq<char>|
                #[trigger] hasp(existing_groups@, q) ==> tree.gmap()[q] == entp(
                    existing_groups@,
                    q,
                ),
            forall|q: Seq<char>|
                #[trigger] tree.gmap().contains_key(q) && !hasp(existing_groups@, q)
                    ==> tree.gmap()[q] == (seg_name(q), false),
            // every instance's non-empty group path exists afterwards, and
            // so does every ancestor prefix of it
            forall|j: int, q: Seq<char>|
                0 <= j < instances@.len() && (#[trigger] instances@[j]).group_path@.len() > 0
                    && #[trigger] in_prefixes(instances@[j].group_path@, q)
                    ==> tree.gmap().contains_key(q),
    {
        let ghost ex = existing_groups@;
        let mut groups: Vec<Group> = Vec::new();
        let mut i: usize = 0;
        while i < existing_groups.len()
            invariant
                i <= ex.len(),
                existing_groups@ == ex,
                distinct_paths(ex),
                groups@.len() == i,
                forall|j: int|
                    0 <= j < i ==> (#[trigger] groups@[j]).path@ == ex[j].path@ && groups@[j].name@
                        == ex[j].name@ && groups@[j].collapsed == ex[j].collapsed,
            decreases ex.len() - i,
        {
            let c = copy_entry(&existing_groups[i]);
            groups.push(c);
            i = i + 1;
        }
        proof {
            assert forall|i2: int, j2: int| 0 <= i2 < j2 < groups@.len() implies groups@[i2].path@
                != groups@[j2].path@ by {
                assert(ex[i2].path@ != ex[j2].path@);
            }
            assert forall|q: Seq<char>| #[trigger] hasp(groups@, q) implies hasp(ex, q) by {
                let j2 = choose|j2: int| 0 <= j2 < groups@.len() && groups@[j2].path@ == q;
                assert(ex[j2].path@ == q);
            }
            assert forall|q: Seq<char>| #[trigger] hasp(ex, q) implies hasp(groups@, q) by {
                let j2 = choose|j2: int| 0 <= j2 < ex.len() && ex[j2].path@ == q;
                assert(groups@[j2].path@ == q);
            }
            assert forall|q: Seq<char>| #[trigger] hasp(ex, q) implies entp(groups@, q) == entp(
                ex,
                q,
            ) by {
                let j2 = choose|j2: int| 0 <= j2 < ex.len() && ex[j2].path@ == q;
                lemma_idxp(ex, j2);
                lemma_idxp(groups@, j2);
            }
        }
        let mut k: usize = 0;
        while k < instances.len()
            invariant
                k <= instances@.len(),
                distinct_paths(groups@),
                distinct_paths(ex),
                forall|q: Seq<char>|
                    #[trigger] hasp(groups@, q) <==> hasp(ex, q) || crate::model::added_by(
                        instances@,
                        k as int,
                        q,
                    ),
                forall|q: Seq<char>| #[trigger] hasp(ex, q) ==> entp(groups@, q) == entp(ex, q),
                forall|q: Seq<char>|
                    !hasp(ex, q) && #[trigger] hasp(groups@, q) ==> entp(groups@, q) == (
                    seg_name(q),
                    false,
                    ),
            decreases instances@.len() - k,
        {
            let gp = instances[k].group_path.as_str();
            let ghost before = groups@;
            if !gp.is_empty() {
                ensure_group_exists(&mut groups, gp);
                proof {
                    let p = instances@[k as int].group_path@;
                    assert forall|q: Seq<char>| #[trigger] hasp(groups@, q) implies hasp(ex, q)
                        || crate::model::added_by(instances@, k as int + 1, q) by {
                        if !hasp(before, q) {
                            assert(in_prefixes(p, q));
                            assert(instances@[k as int].group_path@.len() > 0);
                        }
                    }
                    assert forall|q: Seq<char>|
                        hasp(ex, q) || crate::model::added_by(
                            instances@,
                            k as int + 1,
                            q,
                        ) implies #[trigger] hasp(groups@, q) by {
                        if !hasp(ex, q) && !crate::model::added_by(instances@, k as int, q)
                            && crate::model::added_by(instances@, k as int + 1, q) {
                            let j2 = choose|j2: int|
                                0 <= j2 < k as int + 1 && (#[trigger] instances@[j2]).group_path@.len()
                                    > 0 && in_prefixes(instances@[j2].group_path@, q);
                            assert(j2 == k as int);
                            assert(in_prefixes(p, q));
                        }
                    }
                    assert forall|q: Seq<char>| #[trigger] hasp(ex, q) implies entp(groups@, q)
                        == entp(ex, q) by {
                        assert(hasp(before, q));
                    }
                    assert forall|q: Seq<char>|
                        !hasp(ex, q) && #[trigger] hasp(groups@, q) implies entp(groups@, q) == (
                        seg_name(q),
                        false,
                    ) by {
                        if hasp(before, q) {
                            assert(entp(groups@, q) == entp(before, q));
                        }
                    }
                }
            } else {
                proof {
                    assert forall|q: Seq<char>|
                        hasp(ex, q) || crate::model::added_by(
                            instances@,
                            k as int + 1,
                            q,
                        ) implies #[trigger] hasp(groups@, q) by {
                        if !hasp(ex, q) && crate::model::added_by(instances@, k as int + 1, q) {
                            let j2 = choose|j2: int|
                                0 <= j2 < k as int + 1 && (#[trigger] instances@[j2]).group_path@.len()
                                    > 0 && in_prefixes(instances@[j2].group_path@, q);
                            assert(j2 < k as int);
                        }
                    }
                }
            }
            k = k + 1;
        }
        let roots = rebuild(&groups);
        let tree = GroupTree { groups, roots };
        proof {
            lemma_gmap_of(tree.groups@);
            assert forall|j: int, q: Seq<char>|
                0 <= j < instances@.len() && (#[trigger] instances@[j]).group_path@.len() > 0
                    && #[trigger] in_prefixes(instances@[j].group_path@, q) implies tree.gmap().contains_key(
                q,
            ) by {
                assert(crate::model::added_by(instances@, instances@.len() as int, q));
            }
        }
        tree
    }

    /// Materialize `path` and its absent ancestors, then rebuild the tree.
    /// Present entries keep their name and collapsed flag, and no key is
    /// removed; calling it again with the same path leaves the map unchanged.
    pub fn create_group(&mut self, path: &str)
        requires
            old(self).wf(),
        ensures
            final(self).wf(),
            final(self).gmap() == created_map(old(self).gmap(), path@),
    {
        proof {
            lemma_gmap_of(self.groups@);
        }
        ensure_group_exists(&mut self.groups, path);
        let roots = rebuild(&self.groups);
        self.roots = roots;
        proof {
            lemma_gmap_of(old(self).groups@);
            lemma_gmap_of(self.groups@);
            assert(self.gmap() =~= created_map(old(self).gmap(), path@));
        }
    }

    /// Remove `path` and every path below it from the map, touching no
    /// session record, then rebuild the tree.
    pub fn delete_group(&mut self, path: &str)
        requires
            old(self).wf(),
        ensures
            final(self).wf(),
            final(self).gmap() == deleted_map(old(self).gmap(), path@),
            forall|q: Seq<char>|
                old(self).gmap().contains_key(q) && in_subtree(path@, q)
                    ==> !(#[trigger] final(self).gmap().contains_key(q)),
            forall|q: Seq<char>|
                old(self).gmap().contains_key(q) && !in_subtree(path@, q) ==> (
                #[trigger] final(self).gmap().contains_key(q)) && final(self).gmap()[q] == old(self).gmap()[q],
            forall|q: Seq<char>|
                #[trigger] final(self).gmap().contains_key(q) ==> old(self).gmap().contains_key(q),
    {
        proof {
            lemma_gmap_of(old(self).groups@);
        }
        let ghost s0 = self.groups@;
        let mut kept: Vec<Group> = Vec::new();
        let mut i: usize = 0;
        while i < self.groups.len()
            invariant
                i <= s0.len(),
                self.groups@ == s0,
                distinct_paths(s0),
                distinct_paths(kept@),
                forall|q: Seq<char>|
                    #[trigger] hasp(kept@, q) <==> (exists|j2: int|
                        0 <= j2 < i && (#[trigger] s0[j2]).path@ == q && !in_subtree(path@, q)),
                forall|q: Seq<char>|
                    #[trigger] hasp(kept@, q) ==> hasp(s0, q) && entp(kept@, q) == entp(s0, q),
            decreases s0.len() - i,
        {
            if !str_in_subtree(path, self.groups[i].path.as_str()) {
                let c = copy_entry(&self.groups[i]);
                let ghost before = kept@;
                proof {
                    assert(!hasp(before, c.path@));
                    lemma_push_entry(before, c);
                }
                kept.push(c);
                proof {
                    lemma_idxp(s0, i as int);
                    assert forall|q: Seq<char>| #[trigger] hasp(kept@, q) implies (exists|j2: int|
                        0 <= j2 < i + 1 && (#[trigger] s0[j2]).path@ == q && !in_subtree(
                            path@,
                            q,
                        )) by {
                        if q == c.path@ {
                            assert(s0[i as int].path@ == q);
                        }
                    }
                    assert forall|q: Seq<char>|
                        (exists|j2: int|
                            0 <= j2 < i + 1 && (#[trigger] s0[j2]).path@ == q && !in_subtree(
                                path@,
                                q,
                            )) implies #[trigger] hasp(kept@, q) by {}
                }
            } else {
                proof {
                    assert forall|q: Seq<char>|
                        (exists|j2: int|
                            0 <= j2 < i + 1 && (#[trigger] s0[j2]).path@ == q && !in_subtree(
                                path@,
                                q,
                            )) implies #[trigger] hasp(kept@, q) by {
                        let j2 = choose|j2: int|
                            0 <= j2 < i + 1 && (#[trigger] s0[j2]).path@ == q && !in_subtree(
                                path@,
                                q,
                            );
                        assert(j2 < i);
                    }
                }
            }
            i = i + 1;
        }
        self.groups = kept;
        let roots = rebuild(&self.groups);
        self.roots = roots;
        proof {
            lemma_gmap_of(self.groups@);
            assert forall|q: Seq<char>| #[trigger] hasp(self.groups@, q) implies hasp(s0, q)
                && !in_subtree(path@, q) by {}
            assert forall|q: Seq<char>| hasp(s0, q) && !in_subtree(path@, q) implies #[trigger] hasp(
                self.groups@,
                q,
            ) by {
                let j2 = choose|j2: int| 0 <= j2 < s0.len() && s0[j2].path@ == q;
                assert(s0[j2].path@ == q && !in_subtree(path@, q));
            }
            assert(self.gmap() =~= deleted_map(old(self).gmap(), path@));
        }
    }

    /// Is the path present in the map?
    pub fn group_exists(&self, path: &str) -> (r: bool)
        ensures
            r == self.gmap().contains_key(path@),
    {
        proof {
            lemma_gmap_of(self.groups@);
        }
        contains_path(&self.groups, path)
    }

    /// Every group of the map, sorted by full path, ascending; the derived
    /// `children` of the returned copies are left empty.
    pub fn get_all_groups(&self) -> (r: Vec<Group>)
        requires
            self.wf(),
        ensures
            sorted_paths(r@),
            distinct_paths(r@),
            forall|i: int|
                0 <= i < r@.len() ==> self.gmap().contains_key((#[trigger] r@[i]).path@)
                    && self.gmap()[r@[i].path@] == (r@[i].name@, r@[i].collapsed),
            forall|q: Seq<char>| #[trigger] self.gmap().contains_key(q) ==> hasp(r@, q),
    {
        proof {
            lemma_gmap_of(self.groups@);
        }
        let ghost s0 = self.groups@;
        let mut out: Vec<Group> = Vec::new();
        let mut i: usize = 0;
        while i < self.groups.len()
            invariant
                i <= s0.len(),
                self.groups@ == s0,
                distinct_paths(s0),
                sorted_paths(out@),
                distinct_paths(out@),
                forall|q: Seq<char>|
                    #[trigger] hasp(out@, q) <==> (exists|j2: int|
                        0 <= j2 < i && (#[trigger] s0[j2]).path@ == q),
                forall|x: Group|
                    #[trigger] out@.contains(x) ==> hasp(s0, x.path@) && entp(s0, x.path@) == (
                    x.name@,
                    x.collapsed,
                    ),
            decreases s0.len() - i,
        {
            let c = copy_entry(&self.groups[i]);
            proof {
                lemma_idxp(s0, i as int);
                assert(!hasp(out@, c.path@));
            }
            insert_by_path(&mut out, c);
            proof {
                assert forall|q: Seq<char>| #[trigger] hasp(out@, q) implies (exists|j2: int|
                    0 <= j2 < i + 1 && (#[trigger] s0[j2]).path@ == q) by {
                    if q == c.path@ {
                        assert(s0[i as int].path@ == q);
                    }
                }
                assert forall|q: Seq<char>|
                    (exists|j2: int| 0 <= j2 < i + 1 && (#[trigger] s0[j2]).path@ == q) implies
                    #[trigger] hasp(out@, q) by {}
            }
            i = i + 1;
        }
        proof {
            assert forall|i2: int| 0 <= i2 < out@.len() implies self.gmap().contains_key(
                (#[trigger] out@[i2]).path@,
            ) && self.gmap()[out@[i2].path@] == (out@[i2].name@, out@[i2].collapsed) by {
                assert(out@.contains(out@[i2]));
            }
            assert forall|q: Seq<char>| #[trigger] self.gmap().contains_key(q) implies hasp(
                out@,
                q,
            ) by {
                let j2 = choose|j2: int| 0 <= j2 < s0.len() && s0[j2].path@ == q;
                assert(s0[j2].path@ == q);
            }
        }
        out
    }

    /// The derived root groups, in sibling order, children populated.
    pub fn get_roots(&self) -> (r: &[Group])
        requires
            self.wf(),
        ensures
            r@ == self.roots_seq(),
            roots_ok(self.gmap(), r@),
            nodes_model(r@, r@.len() as int) == self.tree_view(),
    {
        self.roots.as_slice()
    }

    /// Flip the collapsed flag of an existing group and rebuild; a path
    /// that is not present leaves the tree untouched.
    pub fn toggle_collapsed(&mut self, path: &str)
        requires
            old(self).wf(),
        ensures
            final(self).wf(),
            old(self).gmap().contains_key(path@) ==> final(self).gmap() == old(self).gmap().insert(
                path@,
                (old(self).gmap()[path@].0, !old(self).gmap()[path@].1),
            ),
            !old(self).gmap().contains_key(path@) ==> *final(self) == *old(self),
    {
        proof {
            lemma_gmap_of(old(self).groups@);
        }
        let ghost s0 = self.groups@;
        match find_idx(&self.groups, path) {
            Some(i) => {
                let was = self.groups[i].collapsed;
                self.groups[i].collapsed = !was;
                proof {
                    let s1 = self.groups@;
                    assert(s1[i as int].path@ == s0[i as int].path@);
                    assert(s1[i as int].name@ == s0[i as int].name@);
                    assert forall|i2: int, j2: int| 0 <= i2 < j2 < s1.len() implies s1[i2].path@
                        != s1[j2].path@ by {
                        assert(s1[i2].path@ == s0[i2].path@);
                        assert(s1[j2].path@ == s0[j2].path@);
                    }
                }
                let roots = rebuild(&self.groups);
                self.roots = roots;
                proof {
                    let s1 = self.groups@;
                    lemma_gmap_of(s1);
                    assert forall|q: Seq<char>| #[trigger] hasp(s1, q) <==> hasp(s0, q) by {
                        assert forall|j2: int| 0 <= j2 < s1.len() implies s1[j2].path@
                            == s0[j2].path@ by {}
                    }
                    lemma_idxp(s0, i as int);
                    lemma_idxp(s1, i as int);
                    assert(s0[i as int].path@ == path@);
                    assert forall|q: Seq<char>| hasp(s0, q) && q != path@ implies entp(s1, q)
                        == entp(s0, q) by {
                        let j2 = idxp(s0, q);
                        lemma_idxp(s0, j2);
                        assert(j2 != i);
                        assert(s1[j2] == s0[j2]);
                        lemma_idxp(s1, j2);
                    }
                    assert(entp(s1, path@) == (s0[i as int].name@, !s0[i as int].collapsed));
                    assert(self.gmap() =~= old(self).gmap().insert(
                        path@,
                        (old(self).gmap()[path@].0, !old(self).gmap()[path@].1),
                    ));
                }
            },
            None => {
                proof {
                    assert(*self == *old(self));
                }
            },
        }
    }
}


/// The derived tree is a function of the map alone: two well-formed trees
/// over the same path map render the same hierarchy, whatever order their
/// stores hold the entries in.
pub proof fn lemma_tree_determined(t1: GroupTree, t2: GroupTree)
    requires
        t1.wf(),
        t2.wf(),
        t1.gmap() == t2.gmap(),
    ensures
        t1.tree_view() == t2.tree_view(),
{
    let m = t1.gmap();
    lemma_gmap_of(t1.groups@);
    lemma_gmap_of(t2.groups@);
    let maxlen = max_plen(t1.groups@);
    assert forall|q: Seq<char>| #[trigger] m.contains_key(q) implies q.len() <= maxlen by {
        assert(hasp(t1.groups@, q));
        let i = choose|i: int| 0 <= i < t1.groups@.len() && t1.groups@[i].path@ == q;
        lemma_max_plen(t1.groups@, i);
    }
    let rs1 = t1.roots@;
    let rs2 = t2.roots@;
    assert forall|i: int| 0 <= i < rs1.len() implies node_ok(m, #[trigger] rs1[i]) by {}
    assert forall|i: int| 0 <= i < rs2.len() implies node_ok(m, #[trigger] rs2[i]) by {}
    assert forall|q: Seq<char>| #[trigger] hasp(rs1, q) implies hasp(rs2, q) by {
        let i = choose|i: int| 0 <= i < rs1.len() && rs1[i].path@ == q;
        assert(node_ok(m, rs1[i]) && crate::paths::is_root_path(rs1[i].path@));
        assert(m.contains_key(q));
    }
    assert forall|q: Seq<char>| #[trigger] hasp(rs2, q) implies hasp(rs1, q) by {
        let i = choose|i: int| 0 <= i < rs2.len() && rs2[i].path@ == q;
        assert(node_ok(m, rs2[i]) && crate::paths::is_root_path(rs2[i].path@));
        assert(m.contains_key(q));
    }
    lemma_lists_determined(m, rs1, rs2, maxlen, 0);
}

/// Creating a group twice is a no-op the second time, observationally: the
/// second call leaves both the path map and the rendered hierarchy exactly
/// as the first call left them.
pub proof fn lemma_create_group_twice(
    t1: GroupTree,
    t2: GroupTree,
    m0: Map<Seq<char>, GroupEntry>,
    p: Seq<char>,
)
    requires
        t1.wf(),
        t2.wf(),
        t1.gmap() == created_map(m0, p),
        t2.gmap() == created_map(t1.gmap(), p),
    ensures
        t2.gmap() == t1.gmap(),
        t2.tree_view() == t1.tree_view(),
{
    crate::model::lemma_create_group_idempotent(m0, p);
    lemma_tree_determined(t1, t2);
}

/// Toggling the collapsed flag of an existing group twice restores both the
/// path map and the rendered hierarchy: the toggle is an involution.
pub proof fn lemma_toggle_collapsed_involution(
    t0: GroupTree,
    t1: GroupTree,
    t2: GroupTree,
    p: Seq<char>,
)
    requires
        t0.wf(),
        t1.wf(),
        t2.wf(),
        t0.gmap().contains_key(p),
        t1.gmap() == t0.gmap().insert(p, (t0.gmap()[p].0, !t0.gmap()[p].1)),
        t2.gmap() == t1.gmap().insert(p, (t1.gmap()[p].0, !t1.gmap()[p].1)),
    ensures
        t2.gmap() == t0.gmap(),
        t2.tree_view() == t0.tree_view(),
{
    assert(t2.gmap() =~= t0.gmap());
    lemma_tree_determined(t0, t2);
}

} // verus!

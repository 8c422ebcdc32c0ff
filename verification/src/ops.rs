//! The decision halves of the user-facing group commands: existence checks,
//! the guarded cascade delete, the session move, and the flat listing rows.
//! Loading and saving the persisted state around them is the caller's work.

use vstd::prelude::*;

use crate::flatten::{count_subtree, count_subtree_exec, direct_count_to};
use crate::groups::{Group, GroupTree};
use crate::instance::Instance;
use crate::model::{created_map, deleted_map, hasp, sorted_paths, distinct_paths};
use crate::paths::{
    in_prefixes, in_subtree, slash_count, slash_count_exec, str_eq, str_in_subtree,
    str_starts_with,
};
use crate::resolve::{ident_matches, resolve_session, Error};

verus! {

/// Create a group after the duplicate check the idempotent map operation
/// itself never makes: report `AlreadyExists` and change nothing when the
/// path is taken, otherwise materialize it and its ancestors.
pub fn create_group_checked(tree: &mut GroupTree, path: &str) -> (r: Result<(), Error>)
    requires
        old(tree).wf(),
    ensures
        final(tree).wf(),
        old(tree).gmap().contains_key(path@) ==> r == Err::<(), Error>(Error::AlreadyExists)
            && final(tree).gmap() == old(tree).gmap(),
        !old(tree).gmap().contains_key(path@) ==> r == Ok::<(), Error>(()) && final(tree).gmap()
            == created_map(old(tree).gmap(), path@),
{
    if tree.group_exists(path) {
        Err(Error::AlreadyExists)
    } else {
        tree.create_group(path);
        Ok(())
    }
}

/// One session record after the cascade delete cleared its group: the
/// `group_path` is empty and every other field is untouched.
pub open spec fn cleared(before: Instance, after: Instance) -> bool {
    &&& after.group_path@.len() == 0
    &&& after.id@ == before.id@
    &&& after.title@ == before.title@
    &&& after.project_path@ == before.project_path@
    &&& after.status == before.status
    &&& after.tool@ == before.tool@
}

/// Delete a group with the caller-side policy of the delete command: the
/// group must exist; a group whose subtree still holds sessions is only
/// deleted under `force`, which first moves those sessions to the default
/// (empty) group. A refused validation changes nothing. Returns how many
/// sessions were moved.
pub fn delete_group_checked(
    tree: &mut GroupTree,
    instances: &mut Vec<Instance>,
    name: &str,
    force: bool,
) -> (r: Result<usize, Error>)
    requires
        old(tree).wf(),
    ensures
        final(tree).wf(),
        match r {
            Ok(moved) => {
                &&& old(tree).gmap().contains_key(name@)
                &&& final(tree).gmap() == deleted_map(old(tree).gmap(), name@)
                &&& moved as nat == count_subtree(old(instances)@, name@)
                &&& moved > 0 ==> force
                &&& final(instances)@.len() == old(instances)@.len()
                &&& (forall|i: int|
                    0 <= i < old(instances)@.len() && in_subtree(
                        name@,
                        (#[trigger] old(instances)@[i]).group_path@,
                    ) ==> cleared(old(instances)@[i], final(instances)@[i]))
                &&& (forall|i: int|
                    0 <= i < old(instances)@.len() && !in_subtree(
                        name@,
                        (#[trigger] old(instances)@[i]).group_path@,
                    ) ==> final(instances)@[i] == old(instances)@[i])
            },
            Err(e) => {
                &&& *final(tree) == *old(tree)
                &&& final(instances)@ == old(instances)@
                &&& (e == Error::NotFound <==> !old(tree).gmap().contains_key(name@))
                &&& (e == Error::PreconditionFailed ==> old(tree).gmap().contains_key(name@)
                    && count_subtree(old(instances)@, name@) > 0 && !force)
                &&& (old(tree).gmap().contains_key(name@) ==> e == Error::PreconditionFailed)
            },
        },
{
    if !tree.group_exists(name) {
        return Err(Error::NotFound);
    }
    let session_count = count_subtree_exec(name, instances);
    if session_count > 0 {
        if !force {
            return Err(Error::PreconditionFailed);
        }
        let ghost s0 = instances@;
        let mut i: usize = 0;
        while i < instances.len()
            invariant
                i <= s0.len(),
                instances@.len() == s0.len(),
                forall|j: int|
                    0 <= j < s0.len() && in_subtree(name@, (#[trigger] s0[j]).group_path@) && j < i
                        ==> cleared(s0[j], instances@[j]),
                forall|j: int|
                    0 <= j < s0.len() && (!in_subtree(name@, (#[trigger] s0[j]).group_path@) || j
                        >= i) ==> instances@[j] == s0[j],
            decreases s0.len() - i,
        {
            if str_in_subtree(name, instances[i].group_path.as_str()) {
                instances[i].group_path = String::new();
            }
            i = i + 1;
        }
    } else {
        proof {
            assert forall|i: int|
                0 <= i < instances@.len() && in_subtree(
                    name@,
                    (#[trigger] instances@[i]).group_path@,
                ) implies cleared(instances@[i], instances@[i]) by {
                crate::flatten::lemma_count_subtree_pos(
                    instances@,
                    name@,
                    i,
                    instances@.len() as int,
                );
            }
        }
    }
    tree.delete_group(name);
    Ok(session_count)
}

/// Move the session the identifier resolves to into `group` (empty means
/// ungrouped), materializing the destination in the tree when it is
/// non-empty, so the move is valid even as the group's first member.
/// Returns the group path the session was in before.
pub fn move_session_to_group(
    tree: &mut GroupTree,
    instances: &mut Vec<Instance>,
    identifier: &str,
    group: &str,
) -> (r: Result<String, Error>)
    requires
        old(tree).wf(),
    ensures
        final(tree).wf(),
        match r {
            Ok(old_group) => {
                &&& (exists|i: int|
                    {
                        &&& 0 <= i < old(instances)@.len()
                        &&& ident_matches(#[trigger] old(instances)@[i], identifier@)
                        &&& (forall|j: int|
                            0 <= j < i ==> !ident_matches(
                                #[trigger] old(instances)@[j],
                                identifier@,
                            ))
                        &&& old_group@ == old(instances)@[i].group_path@
                        &&& final(instances)@[i].group_path@ == group@
                        &&& final(instances)@[i].id@ == old(instances)@[i].id@
                        &&& final(instances)@[i].title@ == old(instances)@[i].title@
                        &&& final(instances)@[i].project_path@ == old(instances)@[i].project_path@
                        &&& final(instances)@[i].status == old(instances)@[i].status
                        &&& final(instances)@[i].tool@ == old(instances)@[i].tool@
                        &&& (forall|j: int|
                            0 <= j < old(instances)@.len() && j != i ==> final(instances)@[j]
                                == old(instances)@[j])
                    })
                &&& final(instances)@.len() == old(instances)@.len()
                &&& (group@.len() == 0 ==> *final(tree) == *old(tree))
                &&& (group@.len() > 0 ==> final(tree).gmap() == created_map(
                    old(tree).gmap(),
                    group@,
                ))
                &&& (group@.len() > 0 ==> (forall|q: Seq<char>|
                    #[trigger] in_prefixes(group@, q) ==> final(tree).gmap().contains_key(q)))
            },
            Err(e) => {
                &&& e == Error::NotFound
                &&& (forall|j: int|
                    0 <= j < old(instances)@.len() ==> !ident_matches(
                        #[trigger] old(instances)@[j],
                        identifier@,
                    ))
                &&& final(instances)@ == old(instances)@
                &&& *final(tree) == *old(tree)
            },
        },
{
    let idx = match resolve_session(identifier, instances) {
        Ok(i) => i,
        Err(e) => {
            return Err(e);
        },
    };
    let old_group = instances[idx].group_path.clone();
    instances[idx].group_path = String::from_str(group);
    if !group.is_empty() {
        tree.create_group(group);
    }
    Ok(old_group)
}

/// One row of the flat, machine-readable group listing.
#[derive(Debug)]
pub struct GroupInfo {
    pub name: String,
    pub path: String,
    pub session_count: usize,
    pub children: Vec<String>,
}

/// Count the sessions whose `group_path` equals `p` exactly.
fn count_direct(path: &str, instances: &Vec<Instance>) -> (c: usize)
    ensures
        c as nat == direct_count_to(instances@, path@, instances@.len() as int),
{
    let mut c: usize = 0;
    let mut i: usize = 0;
    while i < instances.len()
        invariant
            i <= instances@.len(),
            c <= i,
            c as nat == direct_count_to(instances@, path@, i as int),
        decreases instances@.len() - i,
    {
        if str_eq(instances[i].group_path.as_str(), path) {
            c = c + 1;
        }
        i = i + 1;
    }
    c
}

/// The flat listing the list command prints: every group sorted by path,
/// each with its direct session count. The derived child names are not part
/// of the stored entries, so each row's `children` list is empty.
pub fn list_group_rows(tree: &GroupTree, instances: &Vec<Instance>) -> (rows: Vec<GroupInfo>)
    requires
        tree.wf(),
    ensures
        forall|k: int, l: int|
            0 <= k < l < rows@.len() ==> crate::paths::str_le(rows@[k].path@, rows@[l].path@),
        forall|k: int|
            0 <= k < rows@.len() ==> tree.gmap().contains_key((#[trigger] rows@[k]).path@)
                && tree.gmap()[rows@[k].path@].0 == rows@[k].name@ && rows@[k].session_count as nat
                == direct_count_to(instances@, rows@[k].path@, instances@.len() as int)
                && rows@[k].children@.len() == 0,
        forall|q: Seq<char>|
            #[trigger] tree.gmap().contains_key(q) ==> exists|k: int|
                0 <= k < rows@.len() && rows@[k].path@ == q,
{
    let groups = tree.get_all_groups();
    let mut rows: Vec<GroupInfo> = Vec::new();
    let mut i: usize = 0;
    while i < groups.len()
        invariant
            i <= groups@.len(),
            tree.wf(),
            sorted_paths(groups@),
            distinct_paths(groups@),
            forall|k: int|
                0 <= k < groups@.len() ==> tree.gmap().contains_key((#[trigger] groups@[k]).path@)
                    && tree.gmap()[groups@[k].path@] == (groups@[k].name@, groups@[k].collapsed),
            forall|q: Seq<char>| #[trigger] tree.gmap().contains_key(q) ==> hasp(groups@, q),
            rows@.len() == i,
            forall|k: int|
                0 <= k < i ==> (#[trigger] rows@[k]).path@ == groups@[k].path@ && rows@[k].name@
                    == groups@[k].name@ && rows@[k].session_count as nat == direct_count_to(
                    instances@,
                    rows@[k].path@,
                    instances@.len() as int,
                ) && rows@[k].children@.len() == 0,
        decreases groups@.len() - i,
    {
        let g = &groups[i];
        let c = count_direct(g.path.as_str(), instances);
        let row = GroupInfo {
            name: g.name.clone(),
            path: g.path.clone(),
            session_count: c,
            children: Vec::new(),
        };
        rows.push(row);
        i = i + 1;
    }
    proof {
        assert forall|q: Seq<char>| #[trigger] tree.gmap().contains_key(q) implies exists|k: int|
            0 <= k < rows@.len() && rows@[k].path@ == q by {
            let k = choose|k: int| 0 <= k < groups@.len() && groups@[k].path@ == q;
            assert(rows@[k].path@ == q);
        }
    }
    rows
}

/// Indent level of a group in the textual listing: the number of slashes
/// in its path.
pub fn group_indent(path: &str) -> (c: usize)
    ensures
        c as nat == slash_count(path@),
{
    slash_count_exec(path)
}

/// Replace a leading occurrence of the home directory in a filesystem path
/// with a tilde, for display.
pub fn shorten_path(path: &str, home: &str) -> (r: String)
    ensures
        home@.is_prefix_of(path@) ==> r@ == "~"@ + path@.subrange(
            home@.len() as int,
            path@.len() as int,
        ),
        !home@.is_prefix_of(path@) ==> r@ == path@,
{
    let pn = path.unicode_len();
    let hn = home.unicode_len();
    if str_starts_with(path, home) {
        let rest = path.substring_char(hn, pn);
        let mut r = String::from_str("~");
        r.append(rest);
        r
    } else {
        String::from_str(path)
    }
}

} // verus!

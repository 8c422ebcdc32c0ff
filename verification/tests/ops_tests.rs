use agent_of_empires::cli::{target_path, GroupCreateArgs};
use agent_of_empires::groups::{Group, GroupTree};
use agent_of_empires::instance::Instance;
use agent_of_empires::ops::{
    create_group_checked, delete_group_checked, group_indent, list_group_rows,
    move_session_to_group, shorten_path,
};
use agent_of_empires::resolve::{resolve_session, Error};

fn no_groups() -> Vec<Group> {
    Vec::new()
}

#[test]
fn resolver_prefers_earlier_list_order() {
    let mut a = Instance::new("first", "/tmp/a");
    a.id = "abc123".to_string();
    let mut b = Instance::new("second", "/tmp/b");
    b.id = "abc999".to_string();
    let instances = vec![a, b];

    let idx = resolve_session("abc", &instances).unwrap();
    assert_eq!(idx, 0);
    assert_eq!(instances[idx].id, "abc123");
}

#[test]
fn resolver_matches_id_prefix_and_title() {
    let mut a = Instance::new("alpha", "/tmp/a");
    a.id = "zzz".to_string();
    let mut b = Instance::new("beta", "/tmp/b");
    b.id = "qqq".to_string();
    let instances = vec![a, b];

    assert_eq!(resolve_session("zzz", &instances).unwrap(), 0);
    assert_eq!(resolve_session("qq", &instances).unwrap(), 1);
    assert_eq!(resolve_session("beta", &instances).unwrap(), 1);
    assert_eq!(resolve_session("missing", &instances), Err(Error::NotFound));
}

#[test]
fn create_checked_reports_duplicates() {
    let instances: Vec<Instance> = Vec::new();
    let mut tree = GroupTree::new_with_groups(&instances, &no_groups());
    assert_eq!(create_group_checked(&mut tree, "work"), Ok(()));
    assert_eq!(create_group_checked(&mut tree, "work"), Err(Error::AlreadyExists));
    assert!(tree.group_exists("work"));
}

#[test]
fn delete_checked_requires_existence() {
    let mut instances: Vec<Instance> = Vec::new();
    let mut tree = GroupTree::new_with_groups(&instances, &no_groups());
    assert_eq!(
        delete_group_checked(&mut tree, &mut instances, "ghost", false),
        Err(Error::NotFound)
    );
}

#[test]
fn delete_checked_guards_non_empty_groups() {
    let mut inst = Instance::new("w1", "/tmp/1");
    inst.group_path = "work/frontend".to_string();
    let mut instances = vec![inst];
    let mut tree = GroupTree::new_with_groups(&instances, &no_groups());

    let refused = delete_group_checked(&mut tree, &mut instances, "work", false);
    assert_eq!(refused, Err(Error::PreconditionFailed));
    assert!(tree.group_exists("work"));
    assert_eq!(instances[0].group_path, "work/frontend");

    let moved = delete_group_checked(&mut tree, &mut instances, "work", true);
    assert_eq!(moved, Ok(1));
    assert!(!tree.group_exists("work"));
    assert!(!tree.group_exists("work/frontend"));
    assert_eq!(instances[0].group_path, "");
}

#[test]
fn move_session_materializes_the_target_group() {
    let inst = Instance::new("roamer", "/tmp/r");
    let mut instances = vec![inst];
    let mut tree = GroupTree::new_with_groups(&instances, &no_groups());
    assert!(!tree.group_exists("work"));

    let old = move_session_to_group(&mut tree, &mut instances, "roamer", "work/new").unwrap();
    assert_eq!(old, "");
    assert_eq!(instances[0].group_path, "work/new");
    // both the target and its previously missing parent now exist
    assert!(tree.group_exists("work"));
    assert!(tree.group_exists("work/new"));
}

#[test]
fn move_to_a_present_path_still_fills_its_ancestors() {
    let seed = vec![agent_of_empires::groups::Group::new("b", "a/b")];
    let inst = Instance::new("roamer", "/tmp/r");
    let mut instances = vec![inst];
    let mut tree = GroupTree::new_with_groups(&instances, &seed);
    assert!(!tree.group_exists("a"));
    move_session_to_group(&mut tree, &mut instances, "roamer", "a/b").unwrap();
    assert_eq!(instances[0].group_path, "a/b");
    assert!(tree.group_exists("a"));
}

#[test]
fn move_session_unknown_identifier_changes_nothing() {
    let inst = Instance::new("only", "/tmp/o");
    let mut instances = vec![inst];
    let mut tree = GroupTree::new_with_groups(&instances, &no_groups());
    let r = move_session_to_group(&mut tree, &mut instances, "nobody", "work");
    assert_eq!(r, Err(Error::NotFound));
    assert_eq!(instances[0].group_path, "");
    assert!(!tree.group_exists("work"));
}

#[test]
fn list_rows_are_sorted_and_count_direct_members_only() {
    let mut inst1 = Instance::new("w1", "/tmp/1");
    inst1.group_path = "work".to_string();
    let mut inst2 = Instance::new("f1", "/tmp/2");
    inst2.group_path = "work/frontend".to_string();
    let instances = vec![inst1, inst2];
    let tree = GroupTree::new_with_groups(&instances, &no_groups());

    let rows = list_group_rows(&tree, &instances);
    let paths: Vec<String> = rows.iter().map(|r| r.path.clone()).collect();
    assert_eq!(paths, vec!["work".to_string(), "work/frontend".to_string()]);
    // the work row counts only its direct member, not the subtree
    assert_eq!(rows[0].session_count, 1);
    assert_eq!(rows[1].session_count, 1);
    assert!(rows[0].children.is_empty());
}

#[test]
fn group_indent_counts_separators() {
    assert_eq!(group_indent("work"), 0);
    assert_eq!(group_indent("work/frontend"), 1);
    assert_eq!(group_indent("a/b/c"), 2);
}

#[test]
fn shorten_path_replaces_home_prefix() {
    assert_eq!(shorten_path("/home/dev/project", "/home/dev"), "~/project");
    assert_eq!(shorten_path("/srv/data", "/home/dev"), "/srv/data");
    assert_eq!(shorten_path("/home/dev", "/home/dev"), "~");
}

#[test]
fn target_path_joins_parent_and_name() {
    let nested = GroupCreateArgs { name: "frontend".to_string(), parent: Some("work".to_string()) };
    assert_eq!(target_path(&nested), "work/frontend");
    let root = GroupCreateArgs { name: "work".to_string(), parent: None };
    assert_eq!(target_path(&root), "work");
}

use agent_of_empires::flatten::flatten_tree;
use agent_of_empires::groups::{Group, GroupTree};
use agent_of_empires::instance::{Instance, Status};
use agent_of_empires::ops::shorten_path;
use agent_of_empires::resolve::resolve_session;

#[test]
fn empty_state_flattens_to_nothing() {
    let instances: Vec<Instance> = Vec::new();
    let tree = GroupTree::new_with_groups(&instances, &Vec::new());
    assert!(tree.get_all_groups().is_empty());
    assert!(tree.get_roots().is_empty());
    assert!(flatten_tree(&tree, &instances).is_empty());
}

#[test]
fn deep_path_materializes_every_ancestor() {
    let instances: Vec<Instance> = Vec::new();
    let mut tree = GroupTree::new_with_groups(&instances, &Vec::new());
    tree.create_group("a/b/c/d");
    for path in ["a", "a/b", "a/b/c", "a/b/c/d"] {
        assert!(tree.group_exists(path), "missing {}", path);
    }
    assert_eq!(tree.get_all_groups().len(), 4);
    // one root, a single chain of children below it
    let roots = tree.get_roots();
    assert_eq!(roots.len(), 1);
    assert_eq!(roots[0].children.len(), 1);
    assert_eq!(roots[0].children[0].children.len(), 1);
}

#[test]
fn seeded_entry_without_its_parent_stays_out_of_the_tree() {
    // the seed is taken as given: an entry whose parent was never stored is
    // kept in the map but hangs outside the derived tree
    let seed = vec![Group::new("b", "a/b")];
    let instances: Vec<Instance> = Vec::new();
    let tree = GroupTree::new_with_groups(&instances, &seed);
    assert!(tree.group_exists("a/b"));
    assert!(!tree.group_exists("a"));
    assert!(tree.get_roots().is_empty());
}

#[test]
fn empty_identifier_matches_the_first_session() {
    let mut a = Instance::new("alpha", "/tmp/a");
    a.id = "one".to_string();
    let mut b = Instance::new("beta", "/tmp/b");
    b.id = "two".to_string();
    let instances = vec![a, b];
    // the empty string is a prefix of every id, so list order decides
    assert_eq!(resolve_session("", &instances).unwrap(), 0);
}

#[test]
fn instance_new_starts_ungrouped() {
    let inst = Instance::new("alpha", "/tmp/a");
    assert_eq!(inst.title, "alpha");
    assert_eq!(inst.project_path, "/tmp/a");
    assert_eq!(inst.group_path, "");
    assert_eq!(inst.id, "");
    assert!(matches!(inst.status, Status::Starting));
}

#[test]
fn shorten_path_with_empty_home_keeps_the_path_shape() {
    // an empty home directory string is a prefix of everything
    assert_eq!(shorten_path("/srv/x", ""), "~/srv/x");
    assert_eq!(shorten_path("", ""), "~");
}

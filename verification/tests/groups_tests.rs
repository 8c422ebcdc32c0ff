use agent_of_empires::flatten::{flatten_tree, Item};
use agent_of_empires::groups::{Group, GroupTree};
use agent_of_empires::instance::Instance;

fn no_groups() -> Vec<Group> {
    Vec::new()
}

#[test]
fn test_group_tree_creation() {
    let mut inst1 = Instance::new("test1", "/tmp/1");
    inst1.group_path = "work".to_string();
    let mut inst2 = Instance::new("test2", "/tmp/2");
    inst2.group_path = "work/frontend".to_string();
    let mut inst3 = Instance::new("test3", "/tmp/3");
    inst3.group_path = "personal".to_string();

    let instances = vec![inst1, inst2, inst3];
    let tree = GroupTree::new_with_groups(&instances, &no_groups());

    assert!(tree.group_exists("work"));
    assert!(tree.group_exists("work/frontend"));
    assert!(tree.group_exists("personal"));
    assert!(!tree.group_exists("nonexistent"));
}

#[test]
fn test_flatten_tree() {
    let ungrouped = Instance::new("ungrouped", "/tmp/u");
    let mut inst1 = Instance::new("test1", "/tmp/1");
    inst1.group_path = "work".to_string();
    let mut inst2 = Instance::new("test2", "/tmp/2");
    inst2.group_path = "work".to_string();

    let instances = vec![ungrouped, inst1, inst2];
    let tree = GroupTree::new_with_groups(&instances, &no_groups());
    let items = flatten_tree(&tree, &instances);

    assert!(!items.is_empty());

    // First item should be ungrouped session
    matches!(items[0], Item::Session { .. });
}

#[test]
fn create_group_is_idempotent() {
    let instances: Vec<Instance> = Vec::new();
    let mut tree = GroupTree::new_with_groups(&instances, &no_groups());
    tree.create_group("work/frontend");
    let once: Vec<String> = tree.get_all_groups().iter().map(|g| g.path.clone()).collect();
    tree.create_group("work/frontend");
    let twice: Vec<String> = tree.get_all_groups().iter().map(|g| g.path.clone()).collect();
    assert_eq!(once, twice);
    assert_eq!(once, vec!["work".to_string(), "work/frontend".to_string()]);
}

#[test]
fn delete_group_removes_exactly_the_subtree() {
    let mut inst = Instance::new("test1", "/tmp/1");
    inst.group_path = "work/frontend".to_string();
    let instances = vec![inst];
    let mut tree = GroupTree::new_with_groups(&instances, &no_groups());
    tree.create_group("personal");
    tree.create_group("workshop");

    tree.delete_group("work");

    assert!(!tree.group_exists("work"));
    assert!(!tree.group_exists("work/frontend"));
    assert!(tree.group_exists("personal"));
    // a sibling whose name merely starts with the deleted name stays
    assert!(tree.group_exists("workshop"));
    // instance records are never touched by the tree operation
    assert_eq!(instances[0].group_path, "work/frontend");
}

#[test]
fn get_all_groups_is_sorted_by_path() {
    let instances: Vec<Instance> = Vec::new();
    let mut tree = GroupTree::new_with_groups(&instances, &no_groups());
    tree.create_group("work/frontend");
    tree.create_group("alpha");
    tree.create_group("work/backend");
    tree.create_group("beta/x");

    let paths: Vec<String> = tree.get_all_groups().iter().map(|g| g.path.clone()).collect();
    let mut sorted = paths.clone();
    sorted.sort();
    assert_eq!(paths, sorted);
    assert_eq!(
        paths,
        vec![
            "alpha".to_string(),
            "beta".to_string(),
            "beta/x".to_string(),
            "work".to_string(),
            "work/backend".to_string(),
            "work/frontend".to_string(),
        ]
    );
}

#[test]
fn roots_and_children_are_alphabetical() {
    let mut inst1 = Instance::new("test1", "/tmp/1");
    inst1.group_path = "work".to_string();
    let mut inst2 = Instance::new("test2", "/tmp/2");
    inst2.group_path = "work/frontend".to_string();
    let mut inst3 = Instance::new("test3", "/tmp/3");
    inst3.group_path = "personal".to_string();
    let instances = vec![inst1, inst2, inst3];

    let tree = GroupTree::new_with_groups(&instances, &no_groups());
    let roots = tree.get_roots();
    let root_names: Vec<String> = roots.iter().map(|g| g.name.clone()).collect();
    assert_eq!(root_names, vec!["personal".to_string(), "work".to_string()]);
    let work = &roots[1];
    let child_names: Vec<String> = work.children.iter().map(|g| g.name.clone()).collect();
    assert_eq!(child_names, vec!["frontend".to_string()]);
}

#[test]
fn construction_materializes_ancestors_of_seeded_paths() {
    // the seed holds "a/b" but not "a"; an instance tagged "a/b" must still
    // bring "a" into existence, even though "a/b" is already a key
    let seed = vec![Group::new("b", "a/b")];
    let mut inst = Instance::new("t", "/tmp/t");
    inst.group_path = "a/b".to_string();
    let instances = vec![inst];
    let tree = GroupTree::new_with_groups(&instances, &seed);
    assert!(tree.group_exists("a"));
    assert!(tree.group_exists("a/b"));
    // with the parent materialized, the seeded entry is reachable in the tree
    let roots = tree.get_roots();
    assert_eq!(roots.len(), 1);
    assert_eq!(roots[0].path, "a");
    assert_eq!(roots[0].children.len(), 1);
    assert_eq!(roots[0].children[0].path, "a/b");
}

#[test]
fn create_group_fills_missing_ancestors_of_a_present_path() {
    // "a/b" is already a key (seeded without its parent); creating it again
    // still materializes the absent ancestor
    let seed = vec![Group::new("b", "a/b")];
    let instances: Vec<Instance> = Vec::new();
    let mut tree = GroupTree::new_with_groups(&instances, &seed);
    assert!(!tree.group_exists("a"));
    tree.create_group("a/b");
    assert!(tree.group_exists("a"));
    assert!(tree.group_exists("a/b"));
}

#[test]
fn toggle_collapsed_twice_restores_the_tree() {
    let instances: Vec<Instance> = Vec::new();
    let mut tree = GroupTree::new_with_groups(&instances, &no_groups());
    tree.create_group("work/frontend");
    tree.toggle_collapsed("work");
    tree.toggle_collapsed("work");
    let roots = tree.get_roots();
    assert_eq!(roots.len(), 1);
    assert!(!roots[0].collapsed);
    assert_eq!(roots[0].children.len(), 1);
    assert!(!roots[0].children[0].collapsed);
}

#[test]
fn seeded_groups_keep_their_collapsed_flag() {
    let mut g = Group::new("work", "work");
    g.collapsed = true;
    let seed = vec![g];
    let instances: Vec<Instance> = Vec::new();
    let tree = GroupTree::new_with_groups(&instances, &seed);
    let all = tree.get_all_groups();
    assert_eq!(all.len(), 1);
    assert!(all[0].collapsed);
    assert_eq!(all[0].name, "work");
}

#[test]
fn toggle_collapsed_flips_one_group() {
    let instances: Vec<Instance> = Vec::new();
    let mut tree = GroupTree::new_with_groups(&instances, &no_groups());
    tree.create_group("work");
    tree.toggle_collapsed("work");
    assert!(tree.get_roots()[0].collapsed);
    tree.toggle_collapsed("work");
    assert!(!tree.get_roots()[0].collapsed);
    // a missing path has no effect
    tree.toggle_collapsed("missing");
    assert_eq!(tree.get_all_groups().len(), 1);
}

#[test]
fn flatten_tree_row_order_and_depths() {
    let ungrouped = Instance::new("free", "/tmp/f");
    let mut inst1 = Instance::new("w1", "/tmp/1");
    inst1.group_path = "work".to_string();
    inst1.id = "id-w1".to_string();
    let mut inst2 = Instance::new("f1", "/tmp/2");
    inst2.group_path = "work/frontend".to_string();
    inst2.id = "id-f1".to_string();
    let instances = vec![ungrouped, inst1, inst2];

    let tree = GroupTree::new_with_groups(&instances, &no_groups());
    let items = flatten_tree(&tree, &instances);

    // ungrouped session, "work" group, its direct session, "work/frontend"
    // group, its session
    assert_eq!(items.len(), 5);
    match &items[0] {
        Item::Session { depth, .. } => assert_eq!(*depth, 0),
        _ => panic!("expected a session row first"),
    }
    match &items[1] {
        Item::Group { path, depth, session_count, .. } => {
            assert_eq!(path.as_str(), "work");
            assert_eq!(*depth, 0);
            assert_eq!(*session_count, 2);
        }
        _ => panic!("expected the work group row"),
    }
    match &items[2] {
        Item::Session { id, depth } => {
            assert_eq!(id.as_str(), "id-w1");
            assert_eq!(*depth, 1);
        }
        _ => panic!("expected the direct member session"),
    }
    match &items[3] {
        Item::Group { path, depth, session_count, .. } => {
            assert_eq!(path.as_str(), "work/frontend");
            assert_eq!(*depth, 1);
            assert_eq!(*session_count, 1);
        }
        _ => panic!("expected the frontend group row"),
    }
    assert_eq!(items[4].depth(), 2);
}

#[test]
fn flatten_tree_length_matches_visible_rows() {
    let ungrouped = Instance::new("free", "/tmp/f");
    let mut inst1 = Instance::new("w1", "/tmp/1");
    inst1.group_path = "work".to_string();
    let mut inst2 = Instance::new("f1", "/tmp/2");
    inst2.group_path = "work/frontend".to_string();
    let instances = vec![ungrouped, inst1, inst2];

    let tree = GroupTree::new_with_groups(&instances, &no_groups());
    let items = flatten_tree(&tree, &instances);
    // 1 ungrouped + (work: 1 + 1 direct) + (frontend: 1 + 1 direct)
    assert_eq!(items.len(), 5);
}

#[test]
fn collapsed_group_hides_its_whole_subtree() {
    let mut inst1 = Instance::new("w1", "/tmp/1");
    inst1.group_path = "work".to_string();
    let mut inst2 = Instance::new("f1", "/tmp/2");
    inst2.group_path = "work/frontend".to_string();
    let instances = vec![inst1, inst2];

    let mut tree = GroupTree::new_with_groups(&instances, &no_groups());
    tree.toggle_collapsed("work");
    // "work/frontend" itself stays not collapsed, yet nothing below "work"
    // may appear
    let items = flatten_tree(&tree, &instances);
    assert_eq!(items.len(), 1);
    match &items[0] {
        Item::Group { path, collapsed, session_count, .. } => {
            assert_eq!(path.as_str(), "work");
            assert!(*collapsed);
            assert_eq!(*session_count, 2);
        }
        _ => panic!("expected only the collapsed work row"),
    }
}

#[test]
fn group_new_sets_name_and_path() {
    let g = Group::new("frontend", "work/frontend");
    assert_eq!(g.name, "frontend");
    assert_eq!(g.path, "work/frontend");
    assert!(!g.collapsed);
    assert!(g.children.is_empty());
}

#[test]
fn item_depth_reads_both_kinds() {
    let g = Item::Group {
        path: "work".to_string(),
        name: "work".to_string(),
        depth: 3,
        collapsed: false,
        session_count: 0,
    };
    let s = Item::Session { id: "x".to_string(), depth: 7 };
    assert_eq!(g.depth(), 3);
    assert_eq!(s.depth(), 7);
}

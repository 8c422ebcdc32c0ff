use agent_of_empires::dialog::{DialogResult, Key, NewSessionDialog};
use agent_of_empires::mcp::{
    attach_global_mcp, attach_local_mcp, detach_global_mcp, detach_local_mcp, mcp_config_to_server,
    mcp_info_rows, select_servers, server_names, McpConfig, McpServer, McpServers,
};

fn sample_config(desc: Option<&str>, transport: Option<&str>) -> McpConfig {
    McpConfig {
        command: Some("npx".to_string()),
        args: vec!["-y".to_string(), "server".to_string()],
        env: vec![("KEY".to_string(), "VALUE".to_string())],
        url: None,
        transport: transport.map(|t| t.to_string()),
        description: desc.map(|d| d.to_string()),
    }
}

#[test]
fn config_to_server_copies_launch_data() {
    let c = sample_config(Some("web search"), Some("sse"));
    let s = mcp_config_to_server(&c);
    assert_eq!(s.command, Some("npx".to_string()));
    assert_eq!(s.args, vec!["-y".to_string(), "server".to_string()]);
    assert_eq!(s.env, vec![("KEY".to_string(), "VALUE".to_string())]);
    assert_eq!(s.url, None);
    assert_eq!(s.transport, Some("sse".to_string()));
}

#[test]
fn attach_local_appends_once() {
    let attached = vec!["exa".to_string()];
    let updated = attach_local_mcp(&attached, "files").expect("new name should attach");
    assert_eq!(updated, vec!["exa".to_string(), "files".to_string()]);
    // attaching an already-attached name is a no-op
    assert!(attach_local_mcp(&updated, "exa").is_none());
}

#[test]
fn detach_local_removes_the_name() {
    let attached = vec!["exa".to_string(), "files".to_string(), "exa".to_string()];
    let updated = detach_local_mcp(&attached, "exa");
    assert_eq!(updated, vec!["files".to_string()]);
    // a name that is not attached leaves the list as it was
    assert_eq!(detach_local_mcp(&updated, "ghost"), vec!["files".to_string()]);
}

#[test]
fn select_servers_keeps_known_names_in_request_order() {
    let available = vec![
        ("exa".to_string(), sample_config(None, None)),
        ("files".to_string(), sample_config(None, Some("stdio"))),
    ];
    let names = vec!["files".to_string(), "ghost".to_string(), "exa".to_string()];
    let table = select_servers(&available, &names);
    let listed = server_names(&table);
    assert_eq!(listed, vec!["files".to_string(), "exa".to_string()]);
    assert_eq!(table.entries[0].1.command, Some("npx".to_string()));
}

#[test]
fn attach_global_replaces_or_appends() {
    let available = vec![("exa".to_string(), sample_config(None, None))];
    let stale = McpServer {
        command: Some("old".to_string()),
        args: Vec::new(),
        env: Vec::new(),
        url: None,
        transport: None,
    };
    let mut table = McpServers { entries: vec![("exa".to_string(), stale)] };
    attach_global_mcp(&mut table, "exa", &available);
    assert_eq!(table.entries.len(), 1);
    assert_eq!(table.entries[0].1.command, Some("npx".to_string()));

    let mut empty = McpServers { entries: Vec::new() };
    attach_global_mcp(&mut empty, "exa", &available);
    assert_eq!(server_names(&empty), vec!["exa".to_string()]);

    // an unknown name changes nothing
    attach_global_mcp(&mut empty, "ghost", &available);
    assert_eq!(empty.entries.len(), 1);
}

#[test]
fn detach_global_drops_the_entry() {
    let available = vec![("exa".to_string(), sample_config(None, None))];
    let mut table = McpServers { entries: Vec::new() };
    attach_global_mcp(&mut table, "exa", &available);
    detach_global_mcp(&mut table, "exa");
    assert!(table.entries.is_empty());
}

#[test]
fn info_rows_fill_in_defaults() {
    let mcps = vec![
        ("exa".to_string(), sample_config(Some("web search"), Some("sse"))),
        ("files".to_string(), sample_config(None, None)),
    ];
    let rows = mcp_info_rows(&mcps);
    assert_eq!(rows.len(), 2);
    assert_eq!(rows[0].name, "exa");
    assert_eq!(rows[0].description, "web search");
    assert_eq!(rows[0].transport, "sse");
    assert_eq!(rows[1].description, "");
    assert_eq!(rows[1].transport, "stdio");
}

#[test]
fn dialog_starts_in_the_working_directory() {
    let d = NewSessionDialog::new("/home/dev/project");
    assert_eq!(d.title().as_str(), "");
    assert_eq!(d.path().as_str(), "/home/dev/project");
    assert_eq!(d.group().as_str(), "");
    assert_eq!(d.command().as_str(), "");
    assert_eq!(d.focused_field(), 0);
}

#[test]
fn dialog_tab_cycles_focus() {
    let mut d = NewSessionDialog::new("/tmp");
    for expected in [1, 2, 3, 0, 1] {
        match d.handle_key(Key::Tab) {
            DialogResult::Continue => {}
            _ => panic!("tab should continue"),
        }
        assert_eq!(d.focused_field(), expected);
    }
    d.handle_key(Key::BackTab);
    assert_eq!(d.focused_field(), 0);
    d.handle_key(Key::BackTab);
    assert_eq!(d.focused_field(), 3);
}

#[test]
fn dialog_edits_the_focused_field() {
    let mut d = NewSessionDialog::new("/tmp");
    d.handle_key(Key::Char('h'));
    d.handle_key(Key::Char('i'));
    assert_eq!(d.title().as_str(), "hi");
    d.handle_key(Key::Backspace);
    assert_eq!(d.title().as_str(), "h");
    // move focus to the group field and type there
    d.handle_key(Key::Tab);
    d.handle_key(Key::Tab);
    d.handle_key(Key::Char('w'));
    assert_eq!(d.group().as_str(), "w");
    assert_eq!(d.title().as_str(), "h");
    // backspace on an empty field is harmless
    let mut e = NewSessionDialog::new("/tmp");
    e.handle_key(Key::Backspace);
    assert_eq!(e.title().as_str(), "");
}

#[test]
fn dialog_enter_derives_a_title_from_the_path() {
    let mut d = NewSessionDialog::new("/home/dev/project");
    match d.handle_key(Key::Enter) {
        DialogResult::Submit(data) => {
            assert_eq!(data.title, "project");
            assert_eq!(data.path, "/home/dev/project");
            assert_eq!(data.group, "");
            assert_eq!(data.command, "");
        }
        _ => panic!("enter should submit"),
    }

    let mut named = NewSessionDialog::new("/tmp");
    named.handle_key(Key::Char('x'));
    match named.handle_key(Key::Enter) {
        DialogResult::Submit(data) => assert_eq!(data.title, "x"),
        _ => panic!("enter should submit"),
    }

    let mut bare = NewSessionDialog::new("");
    match bare.handle_key(Key::Enter) {
        DialogResult::Submit(data) => assert_eq!(data.title, "untitled"),
        _ => panic!("enter should submit"),
    }
}

#[test]
fn dialog_esc_cancels_and_other_keys_are_ignored() {
    let mut d = NewSessionDialog::new("/tmp");
    match d.handle_key(Key::Esc) {
        DialogResult::Cancel => {}
        _ => panic!("esc should cancel"),
    }
    match d.handle_key(Key::Other) {
        DialogResult::Continue => {}
        _ => panic!("unknown keys are swallowed"),
    }
    assert_eq!(d.path().as_str(), "/tmp");
}

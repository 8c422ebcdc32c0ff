//! Auxiliary service ("MCP") attachment logic: which services a project has
//! attached, and how attach and detach rewrite the per-project list and the
//! global configuration table. Reading and writing the files those values
//! live in is the surrounding binary's work.

use vstd::prelude::*;

use crate::paths::str_eq;

verus! {

/// One configured service, as the user's configuration declares it.
#[derive(Debug)]
pub struct McpConfig {
    pub command: Option<String>,
    pub args: Vec<String>,
    pub env: Vec<(String, String)>,
    pub url: Option<String>,
    pub transport: Option<String>,
    pub description: Option<String>,
}

/// One service entry as a project's attachment file records it.
#[derive(Debug)]
pub struct McpServer {
    pub command: Option<String>,
    pub args: Vec<String>,
    pub env: Vec<(String, String)>,
    pub url: Option<String>,
    pub transport: Option<String>,
}

/// The table of attached servers, keyed by service name.
#[derive(Debug)]
pub struct McpServers {
    pub entries: Vec<(String, McpServer)>,
}

fn clone_opt(o: &Option<String>) -> (r: Option<String>)
    ensures
        r == *o,
{
    match o {
        Some(x) => Some(x.clone()),
        None => None,
    }
}

fn clone_strings(v: &Vec<String>) -> (r: Vec<String>)
    ensures
        r@ == v@,
{
    let mut r: Vec<String> = Vec::new();
    let mut i: usize = 0;
    while i < v.len()
        invariant
            i <= v@.len(),
            r@ =~= v@.subrange(0, i as int),
        decreases v@.len() - i,
    {
        r.push(v[i].clone());
        i = i + 1;
    }
    proof {
        assert(r@ =~= v@);
    }
    r
}

fn clone_pairs(v: &Vec<(String, String)>) -> (r: Vec<(String, String)>)
    ensures
        r@ == v@,
{
    let mut r: Vec<(String, String)> = Vec::new();
    let mut i: usize = 0;
    while i < v.len()
        invariant
            i <= v@.len(),
            r@ =~= v@.subrange(0, i as int),
        decreases v@.len() - i,
    {
        let p = (v[i].0.clone(), v[i].1.clone());
        proof {
            assert(p == v@[i as int]);
        }
        r.push(p);
        i = i + 1;
    }
    proof {
        assert(r@ =~= v@);
    }
    r
}

/// The server entry a configured service is attached as: the same launch
/// data, with the description left behind.
pub fn mcp_config_to_server(config: &McpConfig) -> (s: McpServer)
    ensures
        s.command == config.command,
        s.args@ == config.args@,
        s.env@ == config.env@,
        s.url == config.url,
        s.transport == config.transport,
{
    McpServer {
        command: clone_opt(&config.command),
        args: clone_strings(&config.args),
        env: clone_pairs(&config.env),
        url: clone_opt(&config.url),
        transport: clone_opt(&config.transport),
    }
}

/// The attached-service names of a project, in the stored order.
pub fn server_names(servers: &McpServers) -> (r: Vec<String>)
    ensures
        r@.len() == servers.entries@.len(),
        forall|i: int| 0 <= i < r@.len() ==> (#[trigger] r@[i]) == servers.entries@[i].0,
{
    let mut r: Vec<String> = Vec::new();
    let mut i: usize = 0;
    while i < servers.entries.len()
        invariant
            i <= servers.entries@.len(),
            r@.len() == i,
            forall|j: int| 0 <= j < i ==> (#[trigger] r@[j]) == servers.entries@[j].0,
        decreases servers.entries@.len() - i,
    {
        r.push(servers.entries[i].0.clone());
        i = i + 1;
    }
    r
}

/// Some attached name equals `name`.
pub open spec fn has_str(v: Seq<String>, name: Seq<char>) -> bool {
    exists|i: int| 0 <= i < v.len() && v[i]@ == name
}

fn contains_str(v: &Vec<String>, name: &str) -> (r: bool)
    ensures
        r == has_str(v@, name@),
{
    let mut i: usize = 0;
    while i < v.len()
        invariant
            i <= v@.len(),
            forall|j: int| 0 <= j < i ==> (#[trigger] v@[j])@ != name@,
        decreases v@.len() - i,
    {
        if str_eq(v[i].as_str(), name) {
            return true;
        }
        i = i + 1;
    }
    false
}

/// Attach a service to a project's list: appended at the end when absent,
/// and no change (`None`) when it is already attached.
pub fn attach_local_mcp(attached: &Vec<String>, mcp_name: &str) -> (r: Option<Vec<String>>)
    ensures
        has_str(attached@, mcp_name@) ==> r is None,
        !has_str(attached@, mcp_name@) ==> match r {
            Some(l) => l@.len() == attached@.len() + 1 && (forall|i: int|
                0 <= i < attached@.len() ==> l@[i] == attached@[i]) && l@[attached@.len() as int]@
                == mcp_name@,
            None => false,
        },
{
    if contains_str(attached, mcp_name) {
        None
    } else {
        let mut l = clone_strings(attached);
        l.push(String::from_str(mcp_name));
        Some(l)
    }
}

/// The names of `v`'s first `i` elements that differ from `name`, in order.
pub open spec fn kept_names_to(v: Seq<String>, name: Seq<char>, i: int) -> Seq<String>
    decreases i,
{
    if i <= 0 || i > v.len() {
        Seq::empty()
    } else {
        kept_names_to(v, name, i - 1) + if v[i - 1]@ == name {
            Seq::empty()
        } else {
            seq![v[i - 1]]
        }
    }
}

/// Detach a service from a project's list: every occurrence of the name is
/// dropped, the rest keep their order.
pub fn detach_local_mcp(attached: &Vec<String>, mcp_name: &str) -> (r: Vec<String>)
    ensures
        r@ == kept_names_to(attached@, mcp_name@, attached@.len() as int),
{
    let mut r: Vec<String> = Vec::new();
    let mut i: usize = 0;
    while i < attached.len()
        invariant
            i <= attached@.len(),
            r@ == kept_names_to(attached@, mcp_name@, i as int),
        decreases attached@.len() - i,
    {
        if !str_eq(attached[i].as_str(), mcp_name) {
            r.push(attached[i].clone());
            proof {
                assert(r@ =~= kept_names_to(attached@, mcp_name@, i as int + 1));
            }
        } else {
            proof {
                assert(r@ =~= kept_names_to(attached@, mcp_name@, i as int + 1));
            }
        }
        i = i + 1;
    }
    r
}

/// Some configured service carries this name.
pub open spec fn cfg_has(available: Seq<(String, McpConfig)>, name: Seq<char>) -> bool {
    exists|i: int| 0 <= i < available.len() && available[i].0@ == name
}

/// The server entry `s` carries the launch data of the configuration `c`.
pub open spec fn server_of_config(s: McpServer, c: McpConfig) -> bool {
    &&& s.command == c.command
    &&& s.args@ == c.args@
    &&& s.env@ == c.env@
    &&& s.url == c.url
    &&& s.transport == c.transport
}

/// Does the catalogue of configured services offer this name?
pub fn has_available(available: &Vec<(String, McpConfig)>, name: &str) -> (r: bool)
    ensures
        r == cfg_has(available@, name@),
{
    match find_config(available, name) {
        Some(_) => true,
        None => false,
    }
}

fn find_config<'a>(available: &'a Vec<(String, McpConfig)>, name: &str) -> (r: Option<
    &'a McpConfig,
>)
    ensures
        match r {
            Some(c) => cfg_has(available@, name@) && (exists|i: int|
                0 <= i < available@.len() && (#[trigger] available@[i]).0@ == name@ && *c
                    == available@[i].1),
            None => !cfg_has(available@, name@),
        },
{
    let mut i: usize = 0;
    while i < available.len()
        invariant
            i <= available@.len(),
            forall|j: int| 0 <= j < i ==> (#[trigger] available@[j]).0@ != name@,
        decreases available@.len() - i,
    {
        if str_eq(available[i].0.as_str(), name) {
            return Some(&available[i].1);
        }
        i = i + 1;
    }
    None
}

/// The names, in request order, of the requested services that the
/// configuration actually offers.
pub open spec fn selected_names_to(
    available: Seq<(String, McpConfig)>,
    names: Seq<String>,
    i: int,
) -> Seq<Seq<char>>
    decreases i,
{
    if i <= 0 || i > names.len() {
        Seq::empty()
    } else {
        selected_names_to(available, names, i - 1) + if cfg_has(available, names[i - 1]@) {
            seq![names[i - 1]@]
        } else {
            seq![]
        }
    }
}

/// Entry `e` carries the name and launch data of some configured service.
pub open spec fn entry_from_available(
    available: Seq<(String, McpConfig)>,
    e: (String, McpServer),
) -> bool {
    exists|i: int|
        0 <= i < available.len() && (#[trigger] available[i]).0@ == e.0@ && server_of_config(
            e.1,
            available[i].1,
        )
}

/// The table a project's attachment file is rewritten to: one entry per
/// requested name the configuration offers, in request order, each carrying
/// the configured launch data; unknown names are dropped silently.
pub fn select_servers(available: &Vec<(String, McpConfig)>, names: &Vec<String>) -> (r: McpServers)
    ensures
        r.entries@.map_values(|e: (String, McpServer)| e.0@) == selected_names_to(
            available@,
            names@,
            names@.len() as int,
        ),
        forall|k: int|
            0 <= k < r.entries@.len() ==> entry_from_available(
                available@,
                #[trigger] r.entries@[k],
            ),
{
    let mut entries: Vec<(String, McpServer)> = Vec::new();
    let mut i: usize = 0;
    while i < names.len()
        invariant
            i <= names@.len(),
            entries@.map_values(|e: (String, McpServer)| e.0@) == selected_names_to(
                available@,
                names@,
                i as int,
            ),
            forall|k: int|
                0 <= k < entries@.len() ==> entry_from_available(
                    available@,
                    #[trigger] entries@[k],
                ),
        decreases names@.len() - i,
    {
        match find_config(available, names[i].as_str()) {
            Some(config) => {
                let server = mcp_config_to_server(config);
                let ghost cfg = *config;
                let entry = (names[i].clone(), server);
                let ghost prev = entries@;
                entries.push(entry);
                proof {
                    assert(entries@.map_values(|e: (String, McpServer)| e.0@)
                        =~= selected_names_to(available@, names@, i as int + 1));
                    let i2 = choose|i2: int|
                        0 <= i2 < available@.len() && (#[trigger] available@[i2]).0@
                            == names@[i as int]@ && cfg == available@[i2].1;
                    assert forall|k: int| 0 <= k < entries@.len() implies entry_from_available(
                        available@,
                        #[trigger] entries@[k],
                    ) by {
                        if k == prev.len() {
                            assert(available@[i2].0@ == entries@[k].0@);
                            assert(server_of_config(entries@[k].1, available@[i2].1));
                        } else {
                            assert(prev[k] == entries@[k]);
                        }
                    }
                }
            },
            None => {
                proof {
                    assert(entries@.map_values(|e: (String, McpServer)| e.0@)
                        =~= selected_names_to(available@, names@, i as int + 1));
                }
            },
        }
        i = i + 1;
    }
    McpServers { entries }
}

/// After the attach, entry `k` of the table was replaced: it carries the
/// name and the configured launch data, and every other entry is untouched.
pub open spec fn replaced_at(
    before: Seq<(String, McpServer)>,
    after: Seq<(String, McpServer)>,
    k: int,
    name: Seq<char>,
    c: McpConfig,
) -> bool {
    &&& 0 <= k < before.len()
    &&& before[k].0@ == name
    &&& after.len() == before.len()
    &&& after[k].0@ == name
    &&& server_of_config(after[k].1, c)
    &&& (forall|j: int| 0 <= j < before.len() && j != k ==> after[j] == before[j])
}

/// After the attach, the entry was appended: the name was not in the table,
/// the new last entry carries it with the configured launch data, and the
/// rest is untouched.
pub open spec fn appended(
    before: Seq<(String, McpServer)>,
    after: Seq<(String, McpServer)>,
    name: Seq<char>,
    c: McpConfig,
) -> bool {
    &&& after.len() == before.len() + 1
    &&& after[before.len() as int].0@ == name
    &&& server_of_config(after[before.len() as int].1, c)
    &&& (forall|j: int| 0 <= j < before.len() ==> after[j] == before[j])
    &&& !(exists|j: int| 0 <= j < before.len() && (#[trigger] before[j]).0@ == name)
}

/// Attach a service to the global table: when the configuration offers the
/// name, its entry replaces the first entry with that name, or is appended
/// when none exists; an unknown name changes nothing.
pub fn attach_global_mcp(
    servers: &mut McpServers,
    mcp_name: &str,
    available: &Vec<(String, McpConfig)>,
)
    ensures
        !cfg_has(available@, mcp_name@) ==> final(servers).entries@ == old(servers).entries@,
        cfg_has(available@, mcp_name@) ==> exists|i: int|
            0 <= i < available@.len() && (#[trigger] available@[i]).0@ == mcp_name@ && ((exists|
                k: int,
            | replaced_at(
                old(servers).entries@,
                final(servers).entries@,
                k,
                mcp_name@,
                available@[i].1,
            )) || appended(
                old(servers).entries@,
                final(servers).entries@,
                mcp_name@,
                available@[i].1,
            )),
{
    let config = match find_config(available, mcp_name) {
        Some(c) => c,
        None => {
            return ;
        },
    };
    let server = mcp_config_to_server(config);
    let ghost i0 = choose|i2: int|
        0 <= i2 < available@.len() && (#[trigger] available@[i2]).0@ == mcp_name@ && *config
            == available@[i2].1;
    let mut k: usize = 0;
    while k < servers.entries.len()
        invariant
            k <= servers.entries@.len(),
            servers.entries@ == old(servers).entries@,
            cfg_has(available@, mcp_name@),
            0 <= i0 < available@.len(),
            available@[i0].0@ == mcp_name@,
            server_of_config(server, available@[i0].1),
            forall|j: int| 0 <= j < k ==> (#[trigger] servers.entries@[j]).0@ != mcp_name@,
        decreases servers.entries@.len() - k,
    {
        if str_eq(servers.entries[k].0.as_str(), mcp_name) {
            servers.entries[k] = (String::from_str(mcp_name), server);
            proof {
                assert(replaced_at(
                    old(servers).entries@,
                    servers.entries@,
                    k as int,
                    mcp_name@,
                    available@[i0].1,
                ));
            }
            return ;
        }
        k = k + 1;
    }
    let entry = (String::from_str(mcp_name), server);
    servers.entries.push(entry);
    proof {
        assert(appended(old(servers).entries@, servers.entries@, mcp_name@, available@[i0].1));
    }
}

/// The entries of the table's first `i` whose name differs from `name`.
pub open spec fn kept_servers_to(
    v: Seq<(String, McpServer)>,
    name: Seq<char>,
    i: int,
) -> Seq<(String, McpServer)>
    decreases i,
{
    if i <= 0 || i > v.len() {
        Seq::empty()
    } else {
        kept_servers_to(v, name, i - 1) + if v[i - 1].0@ == name {
            Seq::empty()
        } else {
            seq![v[i - 1]]
        }
    }
}

/// Detach a service from the global table: every entry with the name is
/// dropped, the rest keep their order.
pub fn detach_global_mcp(servers: &mut McpServers, mcp_name: &str)
    ensures
        final(servers).entries@ == kept_servers_to(
            old(servers).entries@,
            mcp_name@,
            old(servers).entries@.len() as int,
        ),
{
    let ghost s0 = servers.entries@;
    let mut i: usize = 0;
    let ghost mut j: int = 0;
    while i < servers.entries.len()
        invariant
            0 <= j <= s0.len(),
            i as int == kept_servers_to(s0, mcp_name@, j).len(),
            servers.entries@ =~= kept_servers_to(s0, mcp_name@, j) + s0.subrange(
                j,
                s0.len() as int,
            ),
        decreases s0.len() - j,
    {
        proof {
            lemma_kept_servers_len(s0, mcp_name@, j);
            assert(j < s0.len());
            assert(servers.entries@[i as int] == s0[j]);
        }
        if str_eq(servers.entries[i].0.as_str(), mcp_name) {
            let _removed = servers.entries.remove(i);
            proof {
                j = j + 1;
                assert(servers.entries@ =~= kept_servers_to(s0, mcp_name@, j) + s0.subrange(
                    j,
                    s0.len() as int,
                ));
            }
        } else {
            i = i + 1;
            proof {
                j = j + 1;
                assert(servers.entries@ =~= kept_servers_to(s0, mcp_name@, j) + s0.subrange(
                    j,
                    s0.len() as int,
                ));
            }
        }
    }
    proof {
        lemma_kept_servers_len(s0, mcp_name@, j);
        assert(j == s0.len());
        assert(servers.entries@ =~= kept_servers_to(s0, mcp_name@, s0.len() as int));
    }
}

pub proof fn lemma_kept_servers_len(v: Seq<(String, McpServer)>, name: Seq<char>, i: int)
    requires
        0 <= i,
    ensures
        kept_servers_to(v, name, i).len() <= i,
    decreases i,
{
    if i > 0 {
        lemma_kept_servers_len(v, name, i - 1);
    }
}

/// One row of the service listing: the configured data with the defaults
/// the listing shows for missing fields.
#[derive(Debug)]
pub struct McpInfo {
    pub name: String,
    pub description: String,
    pub command: Option<String>,
    pub url: Option<String>,
    pub transport: String,
}

/// The listing rows for the configured services, in stored order: a missing
/// description becomes empty, a missing transport reads "stdio".
pub fn mcp_info_rows(mcps: &Vec<(String, McpConfig)>) -> (rows: Vec<McpInfo>)
    ensures
        rows@.len() == mcps@.len(),
        forall|k: int|
            0 <= k < mcps@.len() ==> {
                &&& (#[trigger] rows@[k]).name@ == mcps@[k].0@
                &&& rows@[k].command == mcps@[k].1.command
                &&& rows@[k].url == mcps@[k].1.url
                &&& (match mcps@[k].1.description {
                    Some(d) => rows@[k].description@ == d@,
                    None => rows@[k].description@.len() == 0,
                })
                &&& (match mcps@[k].1.transport {
                    Some(t) => rows@[k].transport@ == t@,
                    None => rows@[k].transport@ == "stdio"@,
                })
            },
{
    let mut rows: Vec<McpInfo> = Vec::new();
    let mut i: usize = 0;
    while i < mcps.len()
        invariant
            i <= mcps@.len(),
            rows@.len() == i,
            forall|k: int|
                0 <= k < i ==> {
                    &&& (#[trigger] rows@[k]).name@ == mcps@[k].0@
                    &&& rows@[k].command == mcps@[k].1.command
                    &&& rows@[k].url == mcps@[k].1.url
                    &&& (match mcps@[k].1.description {
                        Some(d) => rows@[k].description@ == d@,
                        None => rows@[k].description@.len() == 0,
                    })
                    &&& (match mcps@[k].1.transport {
                        Some(t) => rows@[k].transport@ == t@,
                        None => rows@[k].transport@ == "stdio"@,
                    })
                },
        decreases mcps@.len() - i,
    {
        let c = &mcps[i].1;
        let description = match &c.description {
            Some(d) => d.clone(),
            None => String::new(),
        };
        let transport = match &c.transport {
            Some(t) => t.clone(),
            None => String::from_str("stdio"),
        };
        let row = McpInfo {
            name: mcps[i].0.clone(),
            description,
            command: clone_opt(&c.command),
            url: clone_opt(&c.url),
            transport,
        };
        rows.push(row);
        i = i + 1;
    }
    rows
}

} // verus!

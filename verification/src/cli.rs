//! The data carried by the `group` and `mcp` subcommands, and the path
//! computation the create command performs on its arguments. Parsing the
//! command line into these values is the surrounding binary's work.

use vstd::prelude::*;

verus! {

/// `group` subcommands.
pub enum GroupCommands {
    List(GroupListArgs),
    Create(GroupCreateArgs),
    Delete(GroupDeleteArgs),
    Move(GroupMoveArgs),
}

pub struct GroupListArgs {
    /// Output as JSON.
    pub json: bool,
}

pub struct GroupCreateArgs {
    /// Group name.
    pub name: String,
    /// Parent group for creating subgroups.
    pub parent: Option<String>,
}

pub struct GroupDeleteArgs {
    /// Group name.
    pub name: String,
    /// Force delete by moving sessions to the default group.
    pub force: bool,
}

pub struct GroupMoveArgs {
    /// Session ID or title.
    pub identifier: String,
    /// Target group.
    pub group: String,
}

/// `mcp` subcommands.
pub enum McpCommands {
    List(McpListArgs),
    Attached(McpAttachedArgs),
    Attach(McpAttachArgs),
    Detach(McpDetachArgs),
}

pub struct McpListArgs {
    /// Output as JSON.
    pub json: bool,
}

pub struct McpAttachedArgs {
    /// Session ID or title (optional, auto-detected inside the multiplexer).
    pub identifier: Option<String>,
    /// Output as JSON.
    pub json: bool,
}

pub struct McpAttachArgs {
    /// Session ID or title.
    pub identifier: String,
    /// MCP name to attach.
    pub mcp_name: String,
    /// Apply to the global configuration instead of one project.
    pub global: bool,
    /// Restart the session after the change.
    pub restart: bool,
}

pub struct McpDetachArgs {
    /// Session ID or title.
    pub identifier: String,
    /// MCP name to detach.
    pub mcp_name: String,
    /// Apply to the global configuration instead of one project.
    pub global: bool,
    /// Restart the session after the change.
    pub restart: bool,
}

/// The full path the create command materializes: the parent path and a
/// slash in front of the name when a parent was given, the bare name
/// otherwise.
pub fn target_path(args: &GroupCreateArgs) -> (r: String)
    ensures
        match args.parent {
            Some(p) => r@ == p@ + seq!['/'] + args.name@,
            None => r@ == args.name@,
        },
{
    match &args.parent {
        Some(p) => {
            let mut s = p.clone();
            s.append("/");
            s.append(args.name.as_str());
            proof {
                reveal_strlit("/");
                assert(s@ =~= p@ + seq!['/'] + args.name@);
            }
            s
        },
        None => args.name.clone(),
    }
}

} // verus!

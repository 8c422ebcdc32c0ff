//! Session records as the group engine sees them: plain data, owned by the
//! persistence collaborator; this core reads every field and reassigns only
//! `group_path`.

use vstd::prelude::*;

verus! {

/// Lifecycle state of a session, set by an external monitor and treated
/// here as opaque data.
#[derive(Debug, PartialEq, Eq, Structural, Clone, Copy)]
pub enum Status {
    Starting,
    Running,
    Waiting,
    Idle,
    Error,
}

/// One session record. `group_path` is the only field this core mutates;
/// an empty `group_path` means the session is ungrouped.
#[derive(Debug)]
pub struct Instance {
    pub id: String,
    pub title: String,
    pub project_path: String,
    pub group_path: String,
    pub status: Status,
    pub tool: String,
}

impl Instance {
    /// A fresh record for a session with the given title working in the
    /// given directory; it starts ungrouped, with an identifier left for
    /// the caller to assign.
    pub fn new(title: &str, project_path: &str) -> (r: Instance)
        ensures
            r.id@ =~= Seq::<char>::empty(),
            r.title@ == title@,
            r.project_path@ == project_path@,
            r.group_path@ =~= Seq::<char>::empty(),
            r.status == Status::Starting,
            r.tool@ =~= Seq::<char>::empty(),
    {
        Instance {
            id: String::new(),
            title: String::from_str(title),
            project_path: String::from_str(project_path),
            group_path: String::new(),
            status: Status::Starting,
            tool: String::new(),
        }
    }
}

} // verus!

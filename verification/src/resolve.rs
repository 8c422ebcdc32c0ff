//! The identifier resolver: map a user-typed string to exactly one session
//! record, and the error kinds the engine's operations report.

use vstd::prelude::*;

use crate::instance::Instance;
use crate::paths::{str_eq, str_starts_with};

verus! {

/// Why an operation refused to act.
#[derive(Debug, PartialEq, Eq, Structural, Clone, Copy)]
pub enum Error {
    /// The referenced group or session does not exist.
    NotFound,
    /// A group with that path already exists.
    AlreadyExists,
    /// The operation needs an explicit override (for instance, deleting a
    /// group that still contains sessions).
    PreconditionFailed,
}

/// The combined predicate one instance is tried against: its id equals the
/// string, or its id starts with it, or its title equals it exactly.
pub open spec fn ident_matches(inst: Instance, s: Seq<char>) -> bool {
    ||| inst.id@ == s
    ||| s.is_prefix_of(inst.id@)
    ||| inst.title@ == s
}

/// Scan the sessions in their stored order and return the index of the
/// first one the identifier matches; a later exact match loses to an
/// earlier prefix match.
pub fn resolve_session(identifier: &str, instances: &Vec<Instance>) -> (r: Result<usize, Error>)
    ensures
        match r {
            Ok(i) => i < instances@.len() && ident_matches(instances@[i as int], identifier@) && (
            forall|j: int| 0 <= j < i ==> !ident_matches(#[trigger] instances@[j], identifier@)),
            Err(e) => e == Error::NotFound && (forall|j: int|
                0 <= j < instances@.len() ==> !ident_matches(
                    #[trigger] instances@[j],
                    identifier@,
                )),
        },
{
    let mut i: usize = 0;
    while i < instances.len()
        invariant
            i <= instances@.len(),
            forall|j: int| 0 <= j < i ==> !ident_matches(#[trigger] instances@[j], identifier@),
        decreases instances@.len() - i,
    {
        let inst = &instances[i];
        if str_eq(inst.id.as_str(), identifier) || str_starts_with(inst.id.as_str(), identifier)
            || str_eq(inst.title.as_str(), identifier) {
            return Ok(i);
        }
        i = i + 1;
    }
    Err(Error::NotFound)
}

} // verus!

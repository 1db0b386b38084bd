//! Bind mounts exposing host paths inside the sandbox.

use vstd::prelude::*;
use crate::text::own;

verus! {

/// A bind mount of a host path into the sandbox.
#[derive(Debug, Clone, PartialEq, Eq)]
pub struct BindMount {
    /// Host path.
    pub source: String,
    /// Path inside the sandbox.
    pub destination: String,
    /// Whether the mount is remounted read-only.
    pub read_only: bool,
}

impl BindMount {
    /// A writable bind mount.
    pub fn new(source: &str, destination: &str) -> (r: BindMount)
        ensures
            r.source@ == source@,
            r.destination@ == destination@,
            !r.read_only,
    {
        BindMount { source: own(source), destination: own(destination), read_only: false }
    }

    /// A read-only bind mount.
    pub fn read_only(source: &str, destination: &str) -> (r: BindMount)
        ensures
            r.source@ == source@,
            r.destination@ == destination@,
            r.read_only,
    {
        BindMount { source: own(source), destination: own(destination), read_only: true }
    }
}

} // verus!

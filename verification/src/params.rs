//! The plain request records the transport hands the library: ranges,
//! names and counts, as they arrive from paths and queries.
use vstd::prelude::*;

verus! {

/// Names the workspace a request addresses.
#[derive(Debug, Clone, PartialEq)]
pub struct WorkspaceParam {
    pub ws: String,
}

/// Names the workspace a request addresses by its path.
#[derive(Debug, Clone, PartialEq)]
pub struct WorkspacePathParam {
    pub ws: String,
}

/// Selects the stacks of `[start, start + range)`.
#[derive(Debug, Clone, Copy, PartialEq, Eq, Structural)]
pub struct StacksSelect {
    pub start: usize,
    pub range: usize,
}

/// How many extra copies a stack creation makes.
#[derive(Debug, Clone, Copy, PartialEq, Eq, Structural)]
pub struct StackCreationParam {
    pub copies: usize,
}

impl Default for StackCreationParam {
    /// One extra copy.
    fn default() -> (r: StackCreationParam)
        ensures
            r.copies == 1,
    {
        StackCreationParam { copies: 1 }
    }
}

/// Selects a stack to copy and how many copies to make.
#[derive(Debug, Clone, Copy, PartialEq, Eq, Structural)]
pub struct CloneStack {
    pub stack_idx: usize,
    pub copies: usize,
}

/// Names an atom by its index.
#[derive(Debug, Clone, Copy, PartialEq, Eq, Structural)]
pub struct AtomPathParam {
    pub atom_idx: usize,
}

/// Names an atom name or class tag.
#[derive(Debug, Clone, PartialEq)]
pub struct NamePathParam {
    pub name: String,
}

/// Names an atom index together with a class tag.
#[derive(Debug, Clone, PartialEq)]
pub struct AtomNamePathParam {
    pub atom_idx: usize,
    pub name: String,
}

/// Names a stack together with a class tag.
#[derive(Debug, Clone, PartialEq)]
pub struct StackNamePathParam {
    pub stack_id: usize,
    pub name: String,
}

} // verus!

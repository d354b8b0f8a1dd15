//! The error values every fallible operation of the library reports.
use vstd::prelude::*;

verus! {

/// The tagged error value of the library. Plugin failures carry a small
/// negative code naming the failed step and a diagnostic string.
#[derive(Debug, Clone, PartialEq)]
pub enum LMECoreError {
    IdMapUniqueError,
    NoSuchAtom,
    NoSuchId,
    RootLayerError,
    NotFillLayer,
    PluginLayerError(isize, String),
    NoSuchStack,
    WorkspaceNameConflict,
    WorkspaceNotFound,
}

} // verus!

//! Access to shared-ownership references.
use vstd::prelude::*;

use std::sync::Arc;

verus! {

/// Relies on std's `Arc::as_ref`: a reference to the shared value itself.
#[verifier::external_body]
pub fn arc_ref<T>(a: &Arc<T>) -> (r: &T)
    ensures
        *r == **a,
{
    a.as_ref()
}

} // verus!

use vstd::prelude::*;

use std::sync::Arc;

verus! {

/// Relies on std's `Arc::clone`: the returned handle is a new reference to
/// the same shared allocation, so the two handles carry the same value.
#[verifier::external_body]
pub(crate) fn clone_arc<T>(a: &Arc<T>) -> (r: Arc<T>)
    ensures
        r == *a,
{
    Arc::clone(a)
}

/// Context for one incoming request: the values bound to the matched
/// route's dynamic segments, in pattern order, plus a shared handle to the
/// router-level application state.
#[derive(Debug)]
pub struct Context<Extra> {
    /// Parameters corresponding to dynamic route segments.
    pub params: Vec<String>,
    /// Shared pointer to router-level extra data (shared state).
    pub ex: Arc<Extra>,
}

impl<Extra> Context<Extra> {
    /// Bundles extracted parameters with a handle to the shared state.
    pub fn new(params: Vec<String>, ex: Arc<Extra>) -> (r: Self)
        ensures
            r.params == params,
            r.ex == ex,
    {
        Context { params, ex }
    }
}

} // verus!

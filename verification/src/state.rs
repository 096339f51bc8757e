//! The state shared by the handlers.

use vstd::prelude::*;

verus! {

/// Shared application state; it holds nothing yet.
#[derive(Clone, Copy)]
pub struct AppState;

impl AppState {
    /// The state the service starts with.
    pub fn new() -> (res: Self)
        ensures
            res == AppState,
    {
        AppState
    }
}

impl Default for AppState {
    fn default() -> (res: Self)
        ensures
            res == AppState,
    {
        AppState::new()
    }
}

} // verus!

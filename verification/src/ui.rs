//! Placeholder for a future graphical front end (tray icon, history
//! window, settings). There is no behavioural contract yet.

use vstd::prelude::*;

verus! {

/// The not-yet-implemented user interface hook.
pub struct UIManager;

impl UIManager {
    pub fn new() -> (r: Self) {
        UIManager
    }

    /// Initialization hook; currently nothing to set up.
    pub fn initialize(&self) -> (r: bool)
        ensures
            r,
    {
        true
    }
}

} // verus!

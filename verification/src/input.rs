//! The source of input events.
use vstd::prelude::*;

verus! {

/// Hands out input events.
pub struct InputHandler {}

impl InputHandler {
    /// A new handler.
    pub fn new() -> (h: InputHandler)
        ensures
            h == (InputHandler {}),
    {
        InputHandler {}
    }
}

} // verus!

//! Contains the [`InteractionState`] struct and its methods.
use vstd::prelude::*;

verus! {

/// Stores the current state of the user interaction: the cursor shown on the
/// canvas and whether the application is busy.
#[derive(Debug, Clone)]
pub struct InteractionState {
    /// The cursor, can be "default", "wait" and "grabbing".
    cursor: String,
    /// If the application is busy.
    busy: bool,
}

impl InteractionState {
    /// The cursor that is shown.
    pub closed spec fn cursor(&self) -> Seq<char> {
        self.cursor@
    }

    /// If the application is busy.
    pub closed spec fn busy(&self) -> bool {
        self.busy
    }

    /// Create a new interaction state with the default cursor, not busy.
    pub fn new() -> (r: Self)
        ensures
            r.cursor() == "default"@,
            !r.busy(),
    {
        InteractionState { cursor: "default".to_owned(), busy: false }
    }

    /// Set the cursor to a new value.
    pub fn set_cursor(&mut self, cursor: &str)
        ensures
            final(self).cursor() == cursor@,
            final(self).busy() == old(self).busy(),
    {
        self.cursor = cursor.to_owned();
    }

    /// Change if the application is busy.
    pub fn set_busy(&mut self, busy: bool)
        ensures
            final(self).busy() == busy,
            final(self).cursor() == old(self).cursor(),
    {
        self.busy = busy;
    }

    /// Get the current cursor.
    pub fn get_cursor(&self) -> (r: &str)
        ensures
            r@ == self.cursor(),
    {
        self.cursor.as_str()
    }

    /// Check if the application is busy.
    pub fn is_busy(&self) -> (r: bool)
        ensures
            r == self.busy(),
    {
        self.busy
    }
}

} // verus!

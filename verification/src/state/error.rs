//! Contains the [`ErrorState`] and its methods.
use vstd::prelude::*;

use crate::error::Error;

verus! {

/// Contains the current error state. This state is used to show the error
/// message to the user.
#[derive(Clone, Debug)]
pub struct ErrorState {
    /// The error last encountered.
    error: Option<Error>,
}

impl ErrorState {
    /// The message of the error that is shown, if there is one.
    pub closed spec fn shown(&self) -> Option<Seq<char>> {
        match self.error {
            Some(e) => Some(e.message()),
            None => None,
        }
    }

    /// Creates a new [`ErrorState`] with no error.
    pub fn new() -> (r: Self)
        ensures
            r.shown() is None,
    {
        ErrorState { error: None }
    }

    /// Sets the error to be displayed.
    pub fn set_error(&mut self, error: Error)
        ensures
            final(self).shown() == Some(error.message()),
    {
        self.error = Some(error);
    }

    /// Returns if there is an error to be displayed.
    pub fn has_error(&self) -> (r: bool)
        ensures
            r == self.shown() is Some,
    {
        self.error.is_some()
    }

    /// Gets the current error, if any.
    pub fn get_error(&self) -> (r: Option<&Error>)
        ensures
            match r {
                Some(e) => self.shown() == Some(e.message()),
                None => self.shown() is None,
            },
    {
        self.error.as_ref()
    }

    /// Clears the current error.
    pub fn clear_error(&mut self)
        ensures
            final(self).shown() is None,
    {
        self.error = None;
    }
}

/// The message shown after a run of calls from a new state, where `calls`
/// holds, in order, `Some(message)` for each `set_error` with an error of
/// that message and `None` for each `clear_error`: that of the last
/// `set_error` since the last `clear_error`, if there is one.
pub open spec fn shown_after(calls: Seq<Option<Seq<char>>>) -> Option<Seq<char>> {
    if calls.len() == 0 {
        None
    } else {
        calls.last()
    }
}

/// The error shown is the last one set since the last clear: for states
/// `shown[0]`, ..., `shown[n]` of an error state that starts new and goes
/// from each to the next by the call `calls[i]` as [`ErrorState::set_error`]
/// and [`ErrorState::clear_error`] state it, the last shows
/// [`shown_after`]`(calls)`.
pub proof fn lemma_shown_error(shown: Seq<Option<Seq<char>>>, calls: Seq<Option<Seq<char>>>)
    requires
        shown.len() == calls.len() + 1,
        shown[0] is None,
        forall|i: int| 0 <= i < calls.len() ==> #[trigger] shown[i + 1] == calls[i],
    ensures
        shown.last() == shown_after(calls),
{
    if calls.len() > 0 {
        let i: int = calls.len() - 1;
        assert(shown[i + 1] == calls[i]);
    }
}

} // verus!

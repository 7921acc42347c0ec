//! The error type of the editor.
use vstd::prelude::*;

verus! {

/// An error encountered by the editor, carrying a message for the user.
#[derive(Debug)]
pub struct Error {
    message: String,
}

impl Clone for Error {
    fn clone(&self) -> (r: Self)
        ensures
            r.message() == self.message(),
    {
        Error { message: self.message.clone() }
    }
}

impl Error {
    /// The message of the error.
    pub closed spec fn message(&self) -> Seq<char> {
        self.message@
    }

    /// An error with the given message.
    pub fn other(message: &str) -> (r: Self)
        ensures
            r.message() == message@,
    {
        Error { message: message.to_owned() }
    }

    /// The message of the error.
    pub fn get_message(&self) -> (r: &str)
        ensures
            r@ == self.message(),
    {
        self.message.as_str()
    }
}

} // verus!

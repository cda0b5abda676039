use vstd::prelude::*;

verus! {

/// Error that can be raised at any point of a pass; it carries a
/// human-readable description, which is also what retry triggers and
/// catch tables match against.
#[derive(Debug)]
pub struct StateMachineError {
    /// The description of the error.
    pub message: String,
}

impl StateMachineError {
    /// Builds an error with the given description.
    pub fn new(message: String) -> (e: Self)
        ensures
            e.message@ == message@,
    {
        StateMachineError { message }
    }

    /// The description of the error, as it is shown to a user.
    pub fn to_string(&self) -> (s: String)
        ensures
            s@ == self.message@,
    {
        self.message.clone()
    }
}

} // verus!

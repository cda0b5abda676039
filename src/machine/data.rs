use vstd::prelude::*;
use crate::machine::error::StateMachineError;

verus! {

/// Implemented by the shared data of a state machine that can be built from
/// a JSON text.
pub trait DeserializeStateData: Sized {
    /// Builds the value from its JSON representation.
    fn from_json(json: &str) -> Result<Self, StateMachineError>;
}

} // verus!

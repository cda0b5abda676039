//! A small workflow engine in the style of a step-function state machine.
//!
//! A caller registers an ordered list of steps, each with a state kind and a
//! unit of work on one shared context value; the engine then walks the steps
//! in order, applying conditional gating, error recovery tables, bounded retry
//! with exponential backoff and terminal markers.

/// The state machine, its steps, errors and the backoff primitive.
pub mod machine;

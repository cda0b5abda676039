/// Steps, the machine that holds them, and the single-pass engine.
pub mod state;
/// The error type of the engine.
pub mod error;
/// The shared data that the steps operate on.
pub mod data;
/// Bounded retry with exponential backoff.
pub mod backoff;

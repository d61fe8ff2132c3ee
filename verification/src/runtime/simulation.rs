//! Simulating what commands bring about: backward from a goal to the
//! models that reach it, and forward from the current state.

pub mod backward;
pub mod forward;

//! The parts of the runtime that match patterns, step the clock, read the
//! system's models and state instances in bulk, and compare and merge
//! learned models.

pub mod learning;
pub mod pattern_matching;
pub mod runtime_main;
pub mod simulation;
pub mod utils;

//! Verified core of the AERA-style causal model runtime: patterns and the
//! bindings they carry, matching them against values and against one
//! another, facts, composite states and their instances in a state,
//! functions and models, deduction and abduction with bound models,
//! backward chaining from a goal, comparing and merging learned models,
//! communication id tables and the byte decoding used by the controller
//! link. Values are a type parameter: how values compare, read as vectors
//! and are built from vectors is handed in, and the contracts speak of what
//! those operations answer.

pub mod str_map;
pub mod strings;
pub mod types;
pub mod interfaces;
pub mod runtime;

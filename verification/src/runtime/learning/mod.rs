//! Comparing and merging learned models, and naming what is learned.

pub mod full_causal_model_comparison;
pub mod model_comparison;
pub mod utils;

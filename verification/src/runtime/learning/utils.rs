//! Names for newly learned models and composite states.

use vstd::prelude::*;
use crate::strings::{decimal, push_decimal};

verus! {

/// The name `mdl_<n>` of the model learned when `n` models exist.
pub fn generate_casual_model_name(model_count: usize) -> (name: String)
    ensures
        name@ == seq!['m', 'd', 'l', '_'] + decimal(model_count as nat),
{
    proof {
        reveal_strlit("mdl_");
    }
    let mut name = "mdl_".to_owned();
    push_decimal(&mut name, model_count);
    name
}

/// The name `mdl_req_<n>` of the requirement model learned when `n` models
/// exist.
pub fn generate_req_model_name(model_count: usize) -> (name: String)
    ensures
        name@ == seq!['m', 'd', 'l', '_', 'r', 'e', 'q', '_'] + decimal(model_count as nat),
{
    proof {
        reveal_strlit("mdl_req_");
    }
    let mut name = "mdl_req_".to_owned();
    push_decimal(&mut name, model_count);
    name
}

/// The name `mdl_anti_req_<n>` of the anti-requirement model learned when `n`
/// models exist.
pub fn generate_anti_req_model_name(model_count: usize) -> (name: String)
    ensures
        name@ == seq!['m', 'd', 'l', '_', 'a', 'n', 't', 'i', '_', 'r', 'e', 'q', '_'] + decimal(
            model_count as nat,
        ),
{
    proof {
        reveal_strlit("mdl_anti_req_");
    }
    let mut name = "mdl_anti_req_".to_owned();
    push_decimal(&mut name, model_count);
    name
}

/// The name `cst_<n>` of the composite state learned when `n` composite
/// states exist.
pub fn generate_cst_name(cst_count: usize) -> (name: String)
    ensures
        name@ == seq!['c', 's', 't', '_'] + decimal(cst_count as nat),
{
    proof {
        reveal_strlit("cst_");
    }
    let mut name = "cst_".to_owned();
    push_decimal(&mut name, cst_count);
    name
}

} // verus!

use vstd::prelude::*;

pub mod errors;
pub mod topology;
pub mod curve_element;
pub mod builder;
pub mod binding;
pub mod shaperend;

verus! {

} // verus!

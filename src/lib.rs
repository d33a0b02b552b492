use vstd::prelude::*;

pub mod circuit;
pub mod dsl;
pub mod gpu_context;
pub mod ops;
pub mod qir;
pub mod shader_types;
pub mod text;

verus! {

} // verus!

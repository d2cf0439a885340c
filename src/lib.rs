use vstd::prelude::*;

pub mod error;
pub mod text;
pub mod asm_parser;
pub mod compiler;

verus! {

} // verus!

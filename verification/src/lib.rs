use vstd::prelude::*;

pub mod text;
pub mod de;
pub mod parser;
pub mod ser;
pub mod tokenizer;
pub mod value;
pub mod writer;

verus! {

} // verus!

use vstd::prelude::*;

pub mod civil;
pub mod window;
pub mod order;
pub mod error;
pub mod aggregate;
pub mod pricing;
pub mod zone;
pub mod parse;

verus! {

} // verus!

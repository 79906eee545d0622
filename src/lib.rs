//! A parser, renderer and typed codec for libconfig-style configuration text.
use vstd::prelude::*;

pub mod error;
pub mod grammar;
pub mod parser;
pub mod printer;
pub mod round_trip;
pub mod serde;
mod text;
pub mod token;
pub mod value;

verus! {

} // verus!

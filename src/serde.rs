//! The typed bridge: values of Rust types decoded from, and encoded to,
//! the text format.
use vstd::prelude::*;

pub mod codec;
pub mod deserialize;
pub mod serialize;

verus! {

} // verus!
